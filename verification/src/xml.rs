//! XML documents as sequences of events, read with quick_xml.

use vstd::prelude::*;

use quick_xml::events::Event;
use quick_xml::Reader;

verus! {

/// One event of an XML document, as the renderers read it.
#[derive(Debug)]
pub enum XmlEvent {
    /// A start tag, by qualified name.
    Start(String),
    /// An end tag, by qualified name.
    End(String),
    /// An empty-element tag: its qualified name and, in order, its
    /// attributes as (qualified key, raw value), `None` for one that does not
    /// parse.
    Empty(String, Vec<Option<(String, String)>>),
    /// Character data with its references resolved, or the message of the
    /// reference that does not resolve.
    Text(Result<String, String>),
    /// Anything else: comment, CDATA, declaration, processing instruction, doctype.
    Other,
    /// The end of the document.
    Eof,
    /// The reader failed; the message says why.
    Fault(String),
}

/// The abstract value of an [`XmlEvent`].
pub enum Ev {
    Start(Seq<char>),
    End(Seq<char>),
    Empty(Seq<char>, Seq<Option<(Seq<char>, Seq<char>)>>),
    Text(Result<Seq<char>, Seq<char>>),
    Other,
    Eof,
    Fault(Seq<char>),
}

/// The abstract value of one parsed attribute.
pub open spec fn attr_view(a: Option<(String, String)>) -> Option<(Seq<char>, Seq<char>)> {
    match a {
        Some((k, v)) => Some((k@, v@)),
        None => None,
    }
}

/// The abstract value of a text or its failure.
pub open spec fn text_view(r: Result<String, String>) -> Result<Seq<char>, Seq<char>> {
    match r {
        Ok(t) => Ok(t@),
        Err(m) => Err(m@),
    }
}

impl View for XmlEvent {
    type V = Ev;

    open spec fn view(&self) -> Ev {
        match self {
            XmlEvent::Start(n) => Ev::Start(n@),
            XmlEvent::End(n) => Ev::End(n@),
            XmlEvent::Empty(n, a) => Ev::Empty(n@, a@.map_values(|x: Option<(String, String)>| attr_view(x))),
            XmlEvent::Text(t) => Ev::Text(text_view(*t)),
            XmlEvent::Other => Ev::Other,
            XmlEvent::Eof => Ev::Eof,
            XmlEvent::Fault(m) => Ev::Fault(m@),
        }
    }
}

/// The abstract values of a list of events.
pub open spec fn views(evs: Seq<XmlEvent>) -> Seq<Ev> {
    evs.map_values(|e: XmlEvent| e@)
}

/// Why reading stops at this event, if it does: a failure of the reader, or
/// character data with a reference that does not resolve.
pub open spec fn event_fault(ev: Ev) -> Option<Seq<char>> {
    match ev {
        Ev::Fault(m) => Some(m),
        Ev::Text(Err(m)) => Some(m),
        _ => None,
    }
}

/// No event of `evs` stops the reading: no end of document, no failure.
pub open spec fn runs_through(evs: Seq<Ev>) -> bool {
    forall|k: int| 0 <= k < evs.len() ==> !(#[trigger] evs[k] is Eof) && event_fault(evs[k]) is None
}

/// Whether `ev` is a start or end tag named `name`.
pub open spec fn is_tag(ev: Ev, name: Seq<char>) -> bool {
    match ev {
        Ev::Start(n) => n == name,
        Ev::End(n) => n == name,
        _ => false,
    }
}

/// Whether the first start or end tag named `name` in `evs` from position
/// `i` on, if there is one, is a start tag: nothing there closes an element
/// of that name before opening one.
pub open spec fn next_tag_opens(evs: Seq<Ev>, i: int, name: Seq<char>) -> bool
    decreases evs.len() - i,
{
    if i < 0 || i >= evs.len() {
        true
    } else if is_tag(evs[i], name) {
        evs[i] is Start
    } else {
        next_tag_opens(evs, i + 1, name)
    }
}

/// An event as quick_xml's reader delivers it, converted to text.
enum RawEvent {
    Start(String),
    End(String),
    Empty(String, String),
    Text(String),
    Other,
    Eof,
    Fault(String),
}

/// The abstract value of a [`RawEvent`]: names, raw attribute text, raw
/// character data, messages.
pub enum RawEv {
    Start(Seq<char>),
    End(Seq<char>),
    Empty(Seq<char>, Seq<char>),
    Text(Seq<char>),
    Other,
    Eof,
    Fault(Seq<char>),
}

impl View for RawEvent {
    type V = RawEv;

    closed spec fn view(&self) -> RawEv {
        match self {
            RawEvent::Start(n) => RawEv::Start(n@),
            RawEvent::End(n) => RawEv::End(n@),
            RawEvent::Empty(n, a) => RawEv::Empty(n@, a@),
            RawEvent::Text(t) => RawEv::Text(t@),
            RawEvent::Other => RawEv::Other,
            RawEvent::Eof => RawEv::Eof,
            RawEvent::Fault(m) => RawEv::Fault(m@),
        }
    }
}

/// Whether reading stops at this event.
pub open spec fn is_terminal(e: RawEv) -> bool {
    e is Eof || e is Fault
}

/// A stream of events as a reader delivers it: it ends with its first
/// end of input or failure.
pub open spec fn stream_ends_once(s: Seq<RawEv>) -> bool {
    &&& s.len() > 0
    &&& is_terminal(s.last())
    &&& forall|i: int| 0 <= i < s.len() - 1 ==> !is_terminal(#[trigger] s[i])
}

#[verifier::external_type_specification]
#[verifier::external_body]
#[verifier::reject_recursive_types(R)]
pub struct ExReader<R>(Reader<R>);

/// The events that `reader` has yet to deliver, up to and including the
/// first end of input or failure.
pub uninterp spec fn xml_pending(reader: Reader<&[u8]>) -> Seq<RawEv>;

/// The events of the XML text `text`, as quick_xml's reader delivers them
/// with its default configuration, up to and including the first end of
/// input or failure.
pub uninterp spec fn xml_events(text: Seq<char>) -> Seq<RawEv>;

/// quick_xml's `Reader::from_str`: a reader over `text` that has delivered
/// nothing yet. Claimed: it will deliver the events of `text`, and (since every
/// event consumes input) it reaches the end of the input or a failure after
/// finitely many of them.
#[verifier::external_body]
fn xml_reader<'a>(text: &'a str) -> (r: Reader<&'a [u8]>)
    ensures
        xml_pending(r) == xml_events(text@),
        stream_ends_once(xml_pending(r)),
{
    Reader::from_str(text)
}

/// quick_xml's `Reader::read_event`, with the event converted to text:
/// qualified names, the raw attribute text of an empty-element tag, the raw
/// content of character data, the message of an error. Claimed: the event is
/// the next pending one, and it is no longer pending afterwards.
#[verifier::external_body]
fn next_event(reader: &mut Reader<&[u8]>) -> (ev: RawEvent)
    requires
        xml_pending(*old(reader)).len() > 0,
    ensures
        ev@ == xml_pending(*old(reader))[0],
        xml_pending(*final(reader)) == xml_pending(*old(reader)).drop_first(),
{
    let text = |b: &[u8]| String::from_utf8_lossy(b).into_owned();
    match reader.read_event() {
        Err(e) => RawEvent::Fault(e.to_string()),
        Ok(Event::Eof) => RawEvent::Eof,
        Ok(Event::Start(e)) => RawEvent::Start(text(e.name().0)),
        Ok(Event::End(e)) => RawEvent::End(text(e.name().0)),
        Ok(Event::Empty(e)) => RawEvent::Empty(text(e.name().0), text(e.attributes_raw())),
        Ok(Event::Text(e)) => RawEvent::Text(text(&e.into_inner())),
        Ok(_) => RawEvent::Other,
    }
}

/// The value of character data once its entity and character references
/// are resolved, or the message of the reference that does not resolve.
pub uninterp spec fn xml_unescaped(raw: Seq<char>) -> Result<Seq<char>, Seq<char>>;

/// quick_xml's `escape::unescape` (what `BytesText::unescape` applies to
/// text that is already UTF-8), the error turned into its message. Claimed:
/// the outcome is `xml_unescaped` of the raw text.
#[verifier::external_body]
fn unescape(raw: &str) -> (res: Result<String, String>)
    ensures
        text_view(res) == xml_unescaped(raw@),
{
    quick_xml::escape::unescape(raw).map(|t| t.into_owned()).map_err(|e| e.to_string())
}

/// The attributes in a raw attribute text, in order: (qualified key, raw
/// value), or `None` for one that does not parse.
pub uninterp spec fn xml_attributes(raw: Seq<char>) -> Seq<Option<(Seq<char>, Seq<char>)>>;

/// quick_xml's `Attributes::new(raw, 0)` iterated to the end (what
/// `BytesStart::attributes` iterates over the same text), each attribute
/// converted to its key and raw value. Claimed: the list is
/// `xml_attributes` of the raw text.
#[verifier::external_body]
fn attributes(raw: &str) -> (res: Vec<Option<(String, String)>>)
    ensures
        res@.map_values(|a: Option<(String, String)>| attr_view(a)) == xml_attributes(raw@),
{
    let text = |b: &[u8]| String::from_utf8_lossy(b).into_owned();
    quick_xml::events::attributes::Attributes::new(raw, 0)
        .map(|a| a.ok().map(|a| (text(a.key.0), text(&a.value))))
        .collect()
}

/// What the renderers read of a raw event: character data with its
/// references resolved, the attributes of an empty-element tag parsed.
pub open spec fn cooked(raw: RawEv) -> Ev {
    match raw {
        RawEv::Start(n) => Ev::Start(n),
        RawEv::End(n) => Ev::End(n),
        RawEv::Empty(n, a) => Ev::Empty(n, xml_attributes(a)),
        RawEv::Text(t) => Ev::Text(xml_unescaped(t)),
        RawEv::Other => Ev::Other,
        RawEv::Eof => Ev::Eof,
        RawEv::Fault(m) => Ev::Fault(m),
    }
}

/// Turns a raw event into what the renderers read, as [`cooked`] says.
fn cook(raw: RawEvent) -> (ev: XmlEvent)
    ensures
        ev@ == cooked(raw@),
{
    match raw {
        RawEvent::Start(n) => XmlEvent::Start(n),
        RawEvent::End(n) => XmlEvent::End(n),
        RawEvent::Empty(n, a) => XmlEvent::Empty(n, attributes(a.as_str())),
        RawEvent::Text(t) => XmlEvent::Text(unescape(t.as_str())),
        RawEvent::Other => XmlEvent::Other,
        RawEvent::Eof => XmlEvent::Eof,
        RawEvent::Fault(m) => XmlEvent::Fault(m),
    }
}

/// The events of an XML text as the renderers read them.
pub open spec fn document_events(text: Seq<char>) -> Seq<Ev> {
    xml_events(text).map_values(|r: RawEv| cooked(r))
}

/// All events of `text`, up to and including its end or the failure that
/// stopped the reader, character data unescaped and attributes parsed.
pub fn read_events(text: &str) -> (res: Vec<XmlEvent>)
    ensures
        views(res@) == document_events(text@),
{
    let mut r = xml_reader(text);
    let mut evs: Vec<XmlEvent> = Vec::new();
    let ghost all = xml_events(text@);
    loop
        invariant
            all == xml_events(text@),
            evs@.len() + xml_pending(r).len() == all.len(),
            views(evs@) == all.take(evs@.len() as int).map_values(|x: RawEv| cooked(x)),
            xml_pending(r) == all.skip(evs@.len() as int),
            stream_ends_once(xml_pending(r)),
        decreases xml_pending(r).len(),
    {
        let ghost before = xml_pending(r);
        let ghost k = evs@.len();
        let raw = next_event(&mut r);
        let stop = match &raw {
            RawEvent::Eof => true,
            RawEvent::Fault(_) => true,
            _ => false,
        };
        assert(raw@ == all[k as int]);
        let ev = cook(raw);
        let ghost old_evs = evs@;
        let ghost e = ev@;
        evs.push(ev);
        assert(views(evs@) =~= views(old_evs).push(e));
        assert(all.take(evs@.len() as int).map_values(|x: RawEv| cooked(x)) =~= all.take(k as int).map_values(
            |x: RawEv| cooked(x),
        ).push(cooked(all[k as int])));
        assert(views(evs@) =~= all.take(evs@.len() as int).map_values(|x: RawEv| cooked(x)));
        assert(xml_pending(r) =~= all.skip(evs@.len() as int));
        if stop {
            assert(before.len() == 1) by {
                if before.len() > 1 {
                    assert(!is_terminal(before[0]));
                }
            }
            assert(all.take(evs@.len() as int) =~= all);
            return evs;
        }
        assert(before.len() > 1);
        assert(stream_ends_once(xml_pending(r))) by {
            let p = xml_pending(r);
            assert forall|i: int| 0 <= i < p.len() - 1 implies !is_terminal(#[trigger] p[i]) by {
                assert(p[i] == before[i + 1]);
            }
            assert(p.last() == before.last());
        }
    }
}

} // verus!

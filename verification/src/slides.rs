//! pptx: one line per paragraph, keyed by slide number.

use vstd::prelude::*;

use crate::options::{same_text, Keys};
use crate::package::{entry_count, entry_name, entry_text, zip_entry_count, zip_entry_name, zip_entry_text};
use crate::text::{
    append_chars, chars_of, esc_spec, has_prefix, has_suffix, lemma_esc_one_line, lemma_one_line_concat,
    lemma_padded_one_line, one_line, padded, push_all, push_escaped, push_padded, push_str, trim, trimmed,
};
use crate::sort::{key_le, key_of, lemma_sort_by_map, sort_by, sorting_orders_and_keeps, stable_sort, Keyed};
use crate::xml::{
    document_events, event_fault, is_tag, next_tag_opens, read_events, runs_through, views, Ev, XmlEvent,
};

verus! {

/// `s` with every trailing `.xml` removed, as `trim_end_matches(".xml")` leaves it.
pub open spec fn strip_xml(s: Seq<char>) -> Seq<char>
    decreases s.len(),
{
    if s.len() >= 4 && ".xml"@.is_suffix_of(s) {
        strip_xml(s.take(s.len() - 4))
    } else {
        s
    }
}

/// Whether `c` is one of `0` to `9`.
pub open spec fn is_digit(c: char) -> bool {
    '0' <= c && c <= '9'
}

/// The run of digits that ends `s` (empty when `s` ends otherwise).
pub open spec fn trailing_digits(s: Seq<char>) -> Seq<char>
    decreases s.len(),
{
    if s.len() > 0 && is_digit(s.last()) {
        trailing_digits(s.drop_last()).push(s.last())
    } else {
        Seq::empty()
    }
}

/// The number that a run of digits spells.
pub open spec fn digits_value(d: Seq<char>) -> nat
    decreases d.len(),
{
    if d.len() == 0 {
        0
    } else {
        digits_value(d.drop_last()) * 10 + (d.last() as nat - 48) as nat
    }
}

/// The number at the end of a part name, before any `.xml`; 0 when there
/// are no digits there or they overflow a `u32`.
pub open spec fn trailing_number_spec(name: Seq<char>) -> nat {
    let d = trailing_digits(strip_xml(name));
    if d.len() > 0 && digits_value(d) <= u32::MAX {
        digits_value(d)
    } else {
        0
    }
}

/// The digits at the end of a part name: "ppt/slides/slide12.xml" -> 12.
pub fn trailing_number(name: &str) -> (res: u32)
    ensures
        res as nat == trailing_number_spec(name@),
{
    let cs = chars_of(name);
    let ghost s = cs@;
    proof {
        reveal_strlit(".xml");
    }
    // Drop every trailing ".xml".
    let mut end: usize = cs.len();
    assert(s.take(end as int) =~= s);
    while end >= 4 && cs[end - 4] == '.' && cs[end - 3] == 'x' && cs[end - 2] == 'm' && cs[end - 1] == 'l'
        invariant
            cs@ == s,
            end <= s.len(),
            strip_xml(s) == strip_xml(s.take(end as int)),
        decreases end,
    {
        proof {
            reveal_strlit(".xml");
            assert(".xml"@.len() == 4);
            let t = s.take(end as int);
            assert(t.subrange(t.len() - 4, t.len() as int) =~= ".xml"@);
            assert(t.take(t.len() - 4) =~= s.take(end - 4));
        }
        end = end - 4;
    }
    let ghost base = s.take(end as int);
    proof {
        reveal_strlit(".xml");
        assert(".xml"@.len() == 4);
        if base.len() >= 4 && ".xml"@.is_suffix_of(base) {
            assert(base.subrange(base.len() - 4, base.len() as int) =~= ".xml"@);
            assert(base.subrange(base.len() - 4, base.len() as int)[0] == base[base.len() - 4]);
            assert(base.subrange(base.len() - 4, base.len() as int)[3] == base[base.len() - 1]);
            assert(base.subrange(base.len() - 4, base.len() as int)[1] == base[base.len() - 3]);
            assert(base.subrange(base.len() - 4, base.len() as int)[2] == base[base.len() - 2]);
        }
        assert(strip_xml(base) == base);
    }
    // Find where the trailing digits start.
    let mut start: usize = end;
    while start > 0 && '0' <= cs[start - 1] && cs[start - 1] <= '9'
        invariant
            cs@ == s,
            start <= end <= s.len(),
            base == s.take(end as int),
            forall|j: int| start <= j < end ==> is_digit(#[trigger] s[j]),
        decreases start,
    {
        start = start - 1;
    }
    proof {
        assert forall|j: int| start <= j < base.len() implies is_digit(#[trigger] base[j]) by {
            assert(base[j] == s[j]);
        }
        if start > 0 {
            assert(base[start - 1] == s[start - 1]);
        }
        lemma_trailing_digits(base, start as int);
        assert(base.subrange(start as int, base.len() as int) =~= s.subrange(start as int, end as int));
    }
    // Read them, noting an overflow of u32.
    let mut v: u64 = 0;
    let mut over = false;
    let mut i: usize = start;
    while i < end
        invariant
            cs@ == s,
            start <= i <= end <= s.len(),
            forall|j: int| start <= j < end ==> is_digit(#[trigger] s[j]),
            over ==> digits_value(s.subrange(start as int, i as int)) > u32::MAX,
            !over ==> v == digits_value(s.subrange(start as int, i as int)) && v <= u32::MAX,
        decreases end - i,
    {
        assert(s.subrange(start as int, i + 1).drop_last() =~= s.subrange(start as int, i as int));
        let d: u64 = (cs[i] as u32 - 48) as u64;
        if !over {
            v = v * 10 + d;
            if v > u32::MAX as u64 {
                over = true;
            }
        }
        i = i + 1;
    }
    assert(s.subrange(start as int, end as int) =~= trailing_digits(base));
    if over || start == end {
        0
    } else {
        v as u32
    }
}

/// `trailing_digits` of `s` is the run from `start` on, when that run is all
/// digits and is not preceded by one.
proof fn lemma_trailing_digits(s: Seq<char>, start: int)
    requires
        0 <= start <= s.len(),
        forall|j: int| start <= j < s.len() ==> is_digit(#[trigger] s[j]),
        start == 0 || !is_digit(s[start - 1]),
    ensures
        trailing_digits(s) == s.subrange(start, s.len() as int),
    decreases s.len(),
{
    if s.len() > start {
        let p = s.drop_last();
        assert forall|j: int| start <= j < p.len() implies is_digit(#[trigger] p[j]) by {
            assert(p[j] == s[j]);
        }
        if start > 0 {
            assert(p[start - 1] == s[start - 1]);
        }
        lemma_trailing_digits(p, start);
        assert(s.subrange(start, s.len() as int) =~= p.subrange(start, p.len() as int).push(s.last()));
    } else {
        if s.len() > 0 {
            assert(!is_digit(s.last()));
        }
        assert(s.subrange(start, s.len() as int) =~= Seq::<char>::empty());
    }
}


/// A slide or notes part: the number in its name, whether it holds notes,
/// and its XML text.
pub type SlidePart = (u32, bool, String);

/// The abstract value of a part.
pub open spec fn part_view(p: SlidePart) -> (nat, bool, Seq<char>) {
    (p.0 as nat, p.1, p.2@)
}

/// The abstract values of a list of parts.
pub open spec fn parts_view(ps: Seq<SlidePart>) -> Seq<(nat, bool, Seq<char>)> {
    ps.map_values(|p: SlidePart| part_view(p))
}

/// Parts are ordered by number, and a slide before its notes.
pub open spec fn part_le(a: (nat, bool, Seq<char>), b: (nat, bool, Seq<char>)) -> bool {
    a.0 < b.0 || (a.0 == b.0 && (!a.1 || b.1))
}

/// The key by which parts are ordered: the slide number, then 0 for a slide
/// and 1 for its notes.
pub open spec fn part_key(p: (nat, bool, Seq<char>)) -> (int, int) {
    (p.0 as int, if p.1 { 1int } else { 0int })
}

/// The order of parts as a function of their abstract values.
pub open spec fn part_key_fn() -> spec_fn((nat, bool, Seq<char>)) -> (int, int) {
    |p: (nat, bool, Seq<char>)| part_key(p)
}

/// `parts` in order of [`part_le`], parts that compare equal keeping the
/// order they came in: a stable sort.
pub open spec fn sort_parts(parts: Seq<(nat, bool, Seq<char>)>) -> Seq<(nat, bool, Seq<char>)> {
    sort_by(parts, part_key_fn())
}

/// Whether every part of `s` comes before or with the parts after it.
pub open spec fn parts_in_order(s: Seq<(nat, bool, Seq<char>)>) -> bool {
    forall|i: int, j: int| 0 <= i < j < s.len() ==> part_le(#[trigger] s[i], #[trigger] s[j])
}

/// Parts come out ordered: by slide number, and for one number the slide
/// before its notes. This is what puts "slide2" before "slide10".
pub proof fn sorted_parts_are_in_order(parts: Seq<(nat, bool, Seq<char>)>)
    ensures
        parts_in_order(sort_parts(parts)),
{
    sorting_orders_and_keeps(parts, part_key_fn());
    let r = sort_parts(parts);
    assert forall|i: int, j: int| 0 <= i < j < r.len() implies part_le(#[trigger] r[i], #[trigger] r[j]) by {
        assert(key_le(part_key_fn()(r[i]), part_key_fn()(r[j])));
    }
}

/// Ordering the parts loses none and adds none.
pub proof fn sorting_keeps_every_part(parts: Seq<(nat, bool, Seq<char>)>)
    ensures
        sort_parts(parts).to_multiset() =~= parts.to_multiset(),
{
    sorting_orders_and_keeps(parts, part_key_fn());
}

impl Keyed for (u32, bool, String) {
    open spec fn key_spec(&self) -> (int, int) {
        (self.0 as int, if self.1 { 1int } else { 0int })
    }

    fn sort_key(&self) -> (res: (u64, u64)) {
        (self.0 as u64, if self.1 { 1 } else { 0 })
    }
}

/// `parts` stably sorted by number, a slide before its notes.
pub fn sort_slide_parts(parts: Vec<SlidePart>) -> (res: Vec<SlidePart>)
    ensures
        parts_view(res@) == sort_parts(parts_view(parts@)),
{
    let ghost orig = parts@;
    let res = stable_sort(parts);
    proof {
        let f = |p: SlidePart| part_view(p);
        assert forall|x: SlidePart| #[trigger] part_key_fn()(f(x)) == key_of::<SlidePart>()(x) by {}
        lemma_sort_by_map(orig, f, key_of::<SlidePart>(), part_key_fn());
        assert(parts_view(orig) =~= orig.map_values(f));
        assert(parts_view(res@) =~= res@.map_values(f));
    }
    res
}


/// The prefix of slide part names.
pub const SLIDE_PREFIX: &'static str = "ppt/slides/slide";

/// The prefix of speaker-notes part names.
pub const NOTES_PREFIX: &'static str = "ppt/notesSlides/notesSlide";

/// Whether a part holds speaker notes.
pub open spec fn is_notes_name(name: Seq<char>) -> bool {
    NOTES_PREFIX@.is_prefix_of(name)
}

/// Whether a part is a slide or speaker-notes XML part, the only parts rendered.
pub open spec fn is_slide_xml(name: Seq<char>) -> bool {
    (SLIDE_PREFIX@.is_prefix_of(name) || is_notes_name(name)) && ".xml"@.is_suffix_of(name)
}

/// What a part name says: for a slide or notes part, the number in its name
/// and whether it holds notes; nothing for any other part.
pub fn slide_part_kind(name: &str) -> (res: Option<(u32, bool)>)
    ensures
        match res {
            Some((n, note)) => is_slide_xml(name@) && n as nat == trailing_number_spec(name@) && note
                == is_notes_name(name@),
            None => !is_slide_xml(name@),
        },
{
    let cs = chars_of(name);
    let note = has_prefix(cs.as_slice(), NOTES_PREFIX);
    if (has_prefix(cs.as_slice(), SLIDE_PREFIX) || note) && has_suffix(cs.as_slice(), ".xml") {
        Some((trailing_number(name), note))
    } else {
        None
    }
}

/// The slide and notes parts of the archive from entry `i` on, in archive
/// order, or the first failure met while reading them. A part whose content
/// cannot be read is named in the message.
pub open spec fn collect_parts(archive: Seq<u8>, count: nat, i: nat) -> Result<Seq<(nat, bool, Seq<char>)>, Seq<char>>
    decreases count - i,
{
    if i >= count {
        Ok(Seq::empty())
    } else {
        match zip_entry_name(archive, i) {
            Err(m) => Err(m),
            Ok(name) => if !is_slide_xml(name) {
                collect_parts(archive, count, i + 1)
            } else {
                match zip_entry_text(archive, i) {
                    Err(m) => Err(name + ": "@ + m),
                    Ok(t) => match collect_parts(archive, count, i + 1) {
                        Err(m) => Err(m),
                        Ok(rest) => Ok(seq![(trailing_number_spec(name), is_notes_name(name), t)] + rest),
                    },
                }
            },
        }
    }
}

/// Where the reading of one slide part stands.
pub struct SlideState {
    /// The text of the current paragraph so far.
    pub text: Seq<char>,
    /// Paragraphs started so far.
    pub p: nat,
}

/// The state after an event that does not stop the reading.
pub open spec fn slide_next(st: SlideState, ev: Ev) -> SlideState {
    match ev {
        Ev::Start(n) => if n == "a:p"@ { SlideState { p: st.p + 1, text: Seq::empty() } } else { st },
        Ev::Text(r) => match r {
            Ok(t) => SlideState { text: st.text + t, ..st },
            Err(_) => st,
        },
        Ev::End(n) => if n == "a:p"@ { SlideState { text: Seq::empty(), ..st } } else { st },
        _ => st,
    }
}

/// The key of a paragraph line: slide number and kind of part, with address
/// keys also the paragraph ordinal.
pub open spec fn slide_key(number: nat, note: bool, p: nat, keys: Keys) -> Seq<char> {
    let base = "slide"@ + padded(number, 3) + (if note { ".note"@ } else { ".body"@ });
    match keys {
        Keys::Content => base,
        Keys::Address => base + ".p"@ + padded(p, 3),
    }
}

/// The line for the paragraph that ends in state `st`, or nothing when its
/// text is blank.
pub open spec fn slide_line(st: SlideState, number: nat, note: bool, keys: Keys) -> Seq<char> {
    if trim(st.text).len() == 0 {
        Seq::empty()
    } else {
        slide_key(number, note, st.p, keys) + "\t"@ + esc_spec(trim(st.text)) + "\n"@
    }
}

/// What an event that does not stop the reading writes.
pub open spec fn slide_emit(st: SlideState, ev: Ev, number: nat, note: bool, keys: Keys) -> Seq<char> {
    match ev {
        Ev::End(n) => if n == "a:p"@ { slide_line(st, number, note, keys) } else { Seq::empty() },
        _ => Seq::empty(),
    }
}

/// The lines written for the events of one part from position `i` in state
/// `st`, and the failure that stopped the reading, if one did.
pub open spec fn slide_run(
    evs: Seq<Ev>,
    number: nat,
    note: bool,
    keys: Keys,
    i: int,
    st: SlideState,
) -> (Seq<char>, Option<Seq<char>>)
    decreases evs.len() - i,
{
    if i < 0 || i >= evs.len() || evs[i] is Eof {
        (Seq::empty(), None)
    } else {
        match event_fault(evs[i]) {
            Some(m) => (Seq::empty(), Some(m)),
            None => {
                let rest = slide_run(evs, number, note, keys, i + 1, slide_next(st, evs[i]));
                (slide_emit(st, evs[i], number, note, keys) + rest.0, rest.1)
            },
        }
    }
}

/// The lines and the failure, if any, for the events of one part.
pub open spec fn slide_render(evs: Seq<Ev>, number: nat, note: bool, keys: Keys) -> (Seq<char>, Option<Seq<char>>) {
    slide_run(evs, number, note, keys, 0, slide_start())
}

/// The state before the first event of a part.
pub open spec fn slide_start() -> SlideState {
    SlideState { text: Seq::empty(), p: 0 }
}

/// The state after the events of `evs` from position `i` on, when none of
/// them stops the reading.
pub open spec fn slide_walk(evs: Seq<Ev>, i: int, st: SlideState) -> SlideState
    decreases evs.len() - i,
{
    if i < 0 || i >= evs.len() {
        st
    } else {
        slide_walk(evs, i + 1, slide_next(st, evs[i]))
    }
}

/// The events of one plain paragraph of a slide: its start tag, events that
/// neither stop the reading nor open or close a paragraph, its end tag.
pub open spec fn plain_slide_paragraph(ins: Seq<Ev>) -> bool {
    &&& ins.len() >= 2
    &&& ins[0] matches Ev::Start(n) && n == "a:p"@
    &&& ins.last() matches Ev::End(n) && n == "a:p"@
    &&& forall|k: int|
        0 < k < ins.len() - 1 ==> !(#[trigger] ins[k] is Eof) && event_fault(ins[k]) is None && !is_tag(
            ins[k],
            "a:p"@,
        )
}

proof fn lemma_slide_run_shift(a: Seq<Ev>, b: Seq<Ev>, number: nat, note: bool, keys: Keys, j: int, st: SlideState)
    requires
        0 <= j <= b.len(),
    ensures
        slide_run(a + b, number, note, keys, a.len() + j, st) == slide_run(b, number, note, keys, j, st),
    decreases b.len() - j,
{
    if j < b.len() {
        assert((a + b)[a.len() + j] == b[j]);
        if !(b[j] is Eof) && event_fault(b[j]) is None {
            lemma_slide_run_shift(a, b, number, note, keys, j + 1, slide_next(st, b[j]));
        }
    }
}

proof fn lemma_slide_run_concat(a: Seq<Ev>, b: Seq<Ev>, number: nat, note: bool, keys: Keys, i: int, st: SlideState)
    requires
        0 <= i <= a.len(),
        runs_through(a),
    ensures
        slide_run(a + b, number, note, keys, i, st).0 == slide_run(a, number, note, keys, i, st).0 + slide_run(
            b,
            number,
            note,
            keys,
            0,
            slide_walk(a, i, st),
        ).0,
        slide_run(a + b, number, note, keys, i, st).1 == slide_run(b, number, note, keys, 0, slide_walk(a, i, st)).1,
    decreases a.len() - i,
{
    if i == a.len() {
        lemma_slide_run_shift(a, b, number, note, keys, 0, st);
        assert(slide_run(a, number, note, keys, i, st).0 =~= Seq::<char>::empty());
        assert(slide_run(b, number, note, keys, 0, st).0 =~= Seq::<char>::empty() + slide_run(b, number, note, keys, 0, st).0);
    } else {
        assert((a + b)[i] == a[i]);
        assert(!(a[i] is Eof) && event_fault(a[i]) is None);
        lemma_slide_run_concat(a, b, number, note, keys, i + 1, slide_next(st, a[i]));
        let e = slide_emit(st, a[i], number, note, keys);
        let x = slide_run(a, number, note, keys, i + 1, slide_next(st, a[i])).0;
        let y = slide_run(b, number, note, keys, 0, slide_walk(a, i, st)).0;
        assert(e + (x + y) =~= e + x + y);
    }
}

proof fn lemma_slide_content_run(evs: Seq<Ev>, number: nat, note: bool, i: int, s1: SlideState, s2: SlideState)
    requires
        s1.text == s2.text,
    ensures
        slide_run(evs, number, note, Keys::Content, i, s1) == slide_run(evs, number, note, Keys::Content, i, s2),
    decreases evs.len() - i,
{
    if 0 <= i < evs.len() && !(evs[i] is Eof) && event_fault(evs[i]) is None {
        lemma_slide_content_run(evs, number, note, i + 1, slide_next(s1, evs[i]), slide_next(s2, evs[i]));
    }
}

/// With content keys, any two states write the same from `i` on, as long as
/// the next paragraph tag there opens a paragraph: the text gathered before
/// it is never written.
proof fn lemma_slide_until_paragraph(evs: Seq<Ev>, number: nat, note: bool, i: int, s1: SlideState, s2: SlideState)
    requires
        0 <= i,
        next_tag_opens(evs, i, "a:p"@),
    ensures
        slide_run(evs, number, note, Keys::Content, i, s1) == slide_run(evs, number, note, Keys::Content, i, s2),
    decreases evs.len() - i,
{
    if i < evs.len() && !(evs[i] is Eof) && event_fault(evs[i]) is None {
        let e = evs[i];
        let n1 = slide_next(s1, e);
        let n2 = slide_next(s2, e);
        if is_tag(e, "a:p"@) {
            lemma_slide_content_run(evs, number, note, i + 1, n1, n2);
        } else {
            lemma_slide_until_paragraph(evs, number, note, i + 1, n1, n2);
        }
    }
}

proof fn lemma_slide_paragraph_walk(ins: Seq<Ev>, i: int, st: SlideState)
    requires
        plain_slide_paragraph(ins),
        1 <= i <= ins.len() - 1,
    ensures
        slide_walk(ins, i, st).text == Seq::<char>::empty(),
    decreases ins.len() - i,
{
    if i == ins.len() - 1 {
        let n = slide_next(st, ins[i]);
        assert(slide_walk(ins, i + 1, n) == n);
    } else {
        lemma_slide_paragraph_walk(ins, i + 1, slide_next(st, ins[i]));
    }
}

/// The key carries no position in pptx either: with content keys,
/// inserting a plain paragraph between the paragraphs of a slide adds that
/// paragraph's output and leaves everything else that is written, in the
/// same order. `pre` is what comes before the insertion point (read through
/// without stopping), `post` what comes after it: anything whose first
/// paragraph tag, if any, opens a paragraph (the next paragraph, the end of
/// the text body, the next shape).
pub proof fn inserting_a_slide_paragraph_adds_only_its_line(
    pre: Seq<Ev>,
    ins: Seq<Ev>,
    post: Seq<Ev>,
    number: nat,
    note: bool,
)
    requires
        runs_through(pre),
        plain_slide_paragraph(ins),
        next_tag_opens(post, 0, "a:p"@),
    ensures
        slide_render(pre + post, number, note, Keys::Content).0 == slide_run(
            pre,
            number,
            note,
            Keys::Content,
            0,
            slide_start(),
        ).0 + slide_run(post, number, note, Keys::Content, 0, slide_walk(pre, 0, slide_start())).0,
        slide_render(pre + ins + post, number, note, Keys::Content).0 == slide_run(
            pre,
            number,
            note,
            Keys::Content,
            0,
            slide_start(),
        ).0 + slide_run(ins, number, note, Keys::Content, 0, slide_walk(pre, 0, slide_start())).0 + slide_run(
            post,
            number,
            note,
            Keys::Content,
            0,
            slide_walk(pre, 0, slide_start()),
        ).0,
        slide_render(pre + ins + post, number, note, Keys::Content).1 == slide_render(
            pre + post,
            number,
            note,
            Keys::Content,
        ).1,
{
    let k = Keys::Content;
    let s0 = slide_start();
    let sp = slide_walk(pre, 0, s0);
    lemma_slide_run_concat(pre, post, number, note, k, 0, s0);
    assert(runs_through(ins)) by {
        assert forall|j: int| 0 <= j < ins.len() implies !(#[trigger] ins[j] is Eof) && event_fault(ins[j]) is None by {
            if 0 < j < ins.len() - 1 {
                assert(!(ins[j] is Eof) && event_fault(ins[j]) is None);
            }
        }
    }
    lemma_slide_run_concat(ins, post, number, note, k, 0, sp);
    assert(pre + ins + post =~= pre + (ins + post));
    lemma_slide_run_concat(pre, ins + post, number, note, k, 0, s0);
    let s1 = slide_next(sp, ins[0]);
    lemma_slide_paragraph_walk(ins, 1, s1);
    let sa = slide_walk(ins, 0, sp);
    assert(sa == slide_walk(ins, 1, s1));
    lemma_slide_until_paragraph(post, number, note, 0, sa, sp);
    let a = slide_run(pre, number, note, k, 0, s0).0;
    let b = slide_run(ins, number, note, k, 0, sp).0;
    let c = slide_run(post, number, note, k, 0, sp).0;
    assert(a + (b + c) =~= a + b + c);
}

/// The lines for a list of parts in the order given, up to the first
/// failure.
pub open spec fn parts_render(parts: Seq<(nat, bool, Seq<char>)>, keys: Keys) -> (Seq<char>, Option<Seq<char>>)
    decreases parts.len(),
{
    if parts.len() == 0 {
        (Seq::empty(), None)
    } else {
        let first = slide_render(document_events(parts[0].2), parts[0].0, parts[0].1, keys);
        if first.1 is Some {
            first
        } else {
            let rest = parts_render(parts.drop_first(), keys);
            (first.0 + rest.0, rest.1)
        }
    }
}

/// The lines and the failure, if any, for the pptx package `package`: its
/// slide and notes parts are read first, then rendered in order of slide
/// number, each slide followed by its notes.
pub open spec fn slides_spec(package: Seq<u8>, keys: Keys) -> (Seq<char>, Option<Seq<char>>) {
    match zip_entry_count(package) {
        Err(m) => (Seq::empty(), Some(m)),
        Ok(count) => match collect_parts(package, count, 0) {
            Err(m) => (Seq::empty(), Some(m)),
            Ok(parts) => parts_render(sort_parts(parts), keys),
        },
    }
}

/// A slide paragraph is at most one line: nothing, or a line that ends in
/// its only newline.
pub proof fn a_slide_paragraph_is_at_most_one_line(st: SlideState, number: nat, note: bool, keys: Keys)
    ensures
        slide_line(st, number, note, keys).len() == 0 || (slide_line(st, number, note, keys).last() == '\n'
            && one_line(slide_line(st, number, note, keys).drop_last())),
{
    reveal_strlit("slide");
    reveal_strlit(".note");
    reveal_strlit(".body");
    reveal_strlit(".p");
    reveal_strlit("\t");
    reveal_strlit("\n");
    if trim(st.text).len() > 0 {
        let kind = if note { ".note"@ } else { ".body"@ };
        let base = "slide"@ + padded(number, 3) + kind;
        assert(one_line("slide"@) && one_line(".note"@) && one_line(".body"@) && one_line(".p"@) && one_line("\t"@));
        lemma_padded_one_line(number, 3);
        lemma_padded_one_line(st.p, 3);
        lemma_one_line_concat("slide"@, padded(number, 3));
        lemma_one_line_concat("slide"@ + padded(number, 3), kind);
        lemma_one_line_concat(base, ".p"@);
        lemma_one_line_concat(base + ".p"@, padded(st.p, 3));
        let key = slide_key(number, note, st.p, keys);
        assert(one_line(key));
        lemma_esc_one_line(trim(st.text));
        lemma_one_line_concat(key, "\t"@);
        lemma_one_line_concat(key + "\t"@, esc_spec(trim(st.text)));
        let body = key + "\t"@ + esc_spec(trim(st.text));
        assert(slide_line(st, number, note, keys) =~= body.push('\n'));
        assert(slide_line(st, number, note, keys).drop_last() =~= body);
    }
}

/// The paragraphs that the events of a part from position `i` on write a
/// line for, whatever the keys: the states in which their non-blank
/// paragraphs end, in order, and the failure that stopped the reading.
pub open spec fn slide_paragraphs(evs: Seq<Ev>, i: int, st: SlideState) -> (Seq<SlideState>, Option<Seq<char>>)
    decreases evs.len() - i,
{
    if i < 0 || i >= evs.len() || evs[i] is Eof {
        (Seq::empty(), None)
    } else {
        match event_fault(evs[i]) {
            Some(m) => (Seq::empty(), Some(m)),
            None => {
                let rest = slide_paragraphs(evs, i + 1, slide_next(st, evs[i]));
                let here = if (evs[i] matches Ev::End(n) && n == "a:p"@) && trim(st.text).len() > 0 {
                    seq![st]
                } else {
                    Seq::empty()
                };
                (here + rest.0, rest.1)
            },
        }
    }
}

/// The lines of a list of paragraph states, in order.
pub open spec fn slide_lines_of(ps: Seq<SlideState>, number: nat, note: bool, keys: Keys) -> Seq<char>
    decreases ps.len(),
{
    if ps.len() == 0 {
        Seq::empty()
    } else {
        slide_line(ps[0], number, note, keys) + slide_lines_of(ps.skip(1), number, note, keys)
    }
}

proof fn lemma_slide_run_paragraphs(evs: Seq<Ev>, number: nat, note: bool, keys: Keys, i: int, st: SlideState)
    ensures
        slide_run(evs, number, note, keys, i, st) == (
            slide_lines_of(slide_paragraphs(evs, i, st).0, number, note, keys),
            slide_paragraphs(evs, i, st).1,
        ),
    decreases evs.len() - i,
{
    if 0 <= i < evs.len() && !(evs[i] is Eof) && event_fault(evs[i]) is None {
        let n = slide_next(st, evs[i]);
        lemma_slide_run_paragraphs(evs, number, note, keys, i + 1, n);
        let rest = slide_paragraphs(evs, i + 1, n).0;
        if (evs[i] matches Ev::End(t) && t == "a:p"@) && trim(st.text).len() > 0 {
            let ps = seq![st] + rest;
            assert(ps[0] == st);
            assert(ps.skip(1) =~= rest);
        } else {
            assert(Seq::<SlideState>::empty() + rest =~= rest);
            assert(slide_emit(st, evs[i], number, note, keys) =~= Seq::<char>::empty());
            let x = slide_lines_of(rest, number, note, keys);
            assert(Seq::<char>::empty() + x =~= x);
        }
    } else {
        assert(slide_lines_of(Seq::<SlideState>::empty(), number, note, keys) == Seq::<char>::empty());
    }
}

/// Address keys and content keys write the same paragraphs of a part, in
/// the same order, and stop at the same failure: line for line the two
/// outputs differ only in the key, where address keys add `.p` and the
/// paragraph's ordinal (see [`slide_key`]).
pub proof fn the_key_schemes_write_the_same_slide_paragraphs(evs: Seq<Ev>, number: nat, note: bool)
    ensures
        slide_render(evs, number, note, Keys::Address) == (
            slide_lines_of(slide_paragraphs(evs, 0, slide_start()).0, number, note, Keys::Address),
            slide_paragraphs(evs, 0, slide_start()).1,
        ),
        slide_render(evs, number, note, Keys::Content) == (
            slide_lines_of(slide_paragraphs(evs, 0, slide_start()).0, number, note, Keys::Content),
            slide_paragraphs(evs, 0, slide_start()).1,
        ),
{
    lemma_slide_run_paragraphs(evs, number, note, Keys::Address, 0, slide_start());
    lemma_slide_run_paragraphs(evs, number, note, Keys::Content, 0, slide_start());
}

/// A slide paragraph's line under address keys is its line under content
/// keys with `.p` and the paragraph's ordinal added to the key.
pub proof fn address_keys_add_only_the_ordinal(st: SlideState, number: nat, note: bool)
    ensures
        trim(st.text).len() > 0 ==> slide_line(st, number, note, Keys::Address) == slide_key(
            number,
            note,
            st.p,
            Keys::Content,
        ) + ".p"@ + padded(st.p, 3) + "\t"@ + esc_spec(trim(st.text)) + "\n"@,
        trim(st.text).len() > 0 ==> slide_line(st, number, note, Keys::Content) == slide_key(
            number,
            note,
            st.p,
            Keys::Content,
        ) + "\t"@ + esc_spec(trim(st.text)) + "\n"@,
        trim(st.text).len() == 0 ==> slide_line(st, number, note, Keys::Address).len() == 0
            && slide_line(st, number, note, Keys::Content).len() == 0,
{
}

/// Appends the line of the paragraph that ends with `text` and ordinal `p`.
fn push_slide_line(text: &Vec<char>, p: usize, number: u32, note: bool, keys: Keys, buf: &mut Vec<char>)
    ensures
        final(buf)@ == old(buf)@ + slide_line(SlideState { text: text@, p: p as nat }, number as nat, note, keys),
{
    let t = trimmed(text.as_slice());
    if t.len() == 0 {
        return;
    }
    let ghost start = buf@;
    push_str(buf, "slide");
    push_padded(buf, number as u128, 3);
    if note {
        push_str(buf, ".note");
    } else {
        push_str(buf, ".body");
    }
    match keys {
        Keys::Content => {},
        Keys::Address => {
            push_str(buf, ".p");
            push_padded(buf, p as u128, 3);
        },
    }
    assert(buf@ =~= start + slide_key(number as nat, note, p as nat, keys));
    push_str(buf, "\t");
    push_escaped(buf, t.as_slice());
    push_str(buf, "\n");
    assert(buf@ =~= start + slide_line(SlideState { text: text@, p: p as nat }, number as nat, note, keys));
}

/// Renders the events of one slide or notes part: one line per non-blank
/// paragraph. Stops with the failure of the first event that carries one;
/// the lines before it stay written.
pub fn slide_events(evs: &[XmlEvent], number: u32, note: bool, keys: Keys, out: &mut String) -> (res: Result<(), String>)
    ensures
        final(out)@ == old(out)@ + slide_render(views(evs@), number as nat, note, keys).0,
        match slide_render(views(evs@), number as nat, note, keys).1 {
            Some(m) => res matches Err(e) && e@ == m,
            None => res is Ok,
        },
{
    let mut text: Vec<char> = Vec::new();
    let mut p: usize = 0;
    let mut buf: Vec<char> = Vec::new();
    let ghost total = slide_render(views(evs@), number as nat, note, keys);
    let mut i: usize = 0;
    while i < evs.len()
        invariant
            i <= evs@.len(),
            p <= i,
            out@ == old(out)@,
            total == slide_render(views(evs@), number as nat, note, keys),
            total.0 == buf@ + slide_run(views(evs@), number as nat, note, keys, i as int, SlideState { text: text@, p: p as nat }).0,
            total.1 == slide_run(views(evs@), number as nat, note, keys, i as int, SlideState { text: text@, p: p as nat }).1,
        decreases evs@.len() - i,
    {
        let ghost st = SlideState { text: text@, p: p as nat };
        let ghost buf0 = buf@;
        proof {
            reveal_strlit("a:p");
        }
        assert(views(evs@)[i as int] == evs@[i as int]@);
        match &evs[i] {
            XmlEvent::Eof => {
                assert(buf@ =~= total.0);
                append_chars(out, buf.as_slice());
                return Ok(());
            },
            XmlEvent::Fault(m) => {
                assert(buf@ =~= total.0);
                append_chars(out, buf.as_slice());
                return Err(m.clone());
            },
            XmlEvent::Start(n) => {
                if same_text(n.as_str(), "a:p") {
                    p = p + 1;
                    text = Vec::new();
                }
            },
            XmlEvent::Text(Err(m)) => {
                assert(buf@ =~= total.0);
                append_chars(out, buf.as_slice());
                return Err(m.clone());
            },
            XmlEvent::Text(Ok(t)) => {
                let tc = chars_of(t.as_str());
                push_all(&mut text, tc.as_slice());
            },
            XmlEvent::End(n) => {
                if same_text(n.as_str(), "a:p") {
                    push_slide_line(&text, p, number, note, keys, &mut buf);
                    text = Vec::new();
                }
            },
            _ => {},
        }
        assert(SlideState { text: text@, p: p as nat } == slide_next(st, views(evs@)[i as int]));
        assert(buf@ =~= buf0 + slide_emit(st, views(evs@)[i as int], number as nat, note, keys));
        i = i + 1;
    }
    assert(buf@ =~= total.0);
    append_chars(out, buf.as_slice());
    Ok(())
}


/// Renders parts in the order given, as [`slide_events`] renders each;
/// stops at the first failure.
pub fn render_slide_parts(parts: &[SlidePart], keys: Keys, out: &mut String) -> (res: Result<(), String>)
    ensures
        final(out)@ == old(out)@ + parts_render(parts_view(parts@), keys).0,
        match parts_render(parts_view(parts@), keys).1 {
            Some(m) => res matches Err(e) && e@ == m,
            None => res is Ok,
        },
{
    let ghost all = parts_view(parts@);
    let mut k: usize = 0;
    assert(all.skip(0) =~= all);
    assert(out@.subrange(old(out)@.len() as int, out@.len() as int) =~= Seq::<char>::empty());
    assert(out@.subrange(0, old(out)@.len() as int) =~= old(out)@);
    while k < parts.len()
        invariant
            k <= parts@.len(),
            all == parts_view(parts@),
            parts_render(all, keys).0 == out@.subrange(old(out)@.len() as int, out@.len() as int)
                + parts_render(all.skip(k as int), keys).0,
            old(out)@.len() <= out@.len(),
            out@.subrange(0, old(out)@.len() as int) == old(out)@,
            parts_render(all, keys).1 == parts_render(all.skip(k as int), keys).1,
        decreases parts@.len() - k,
    {
        let ghost before = out@;
        let part = &parts[k];
        let evs = read_events(part.2.as_str());
        let r = slide_events(evs.as_slice(), part.0, part.1, keys, out);
        let ghost rest = all.skip(k as int);
        assert(rest[0] == part_view(*part));
        assert(rest.drop_first() =~= all.skip(k + 1));
        assert(out@.subrange(old(out)@.len() as int, out@.len() as int) =~= before.subrange(old(out)@.len() as int, before.len() as int)
            + slide_render(document_events(part.2@), part.0 as nat, part.1, keys).0);
        assert(out@.subrange(0, old(out)@.len() as int) =~= before.subrange(0, old(out)@.len() as int));
        if r.is_err() {
            assert(out@ =~= old(out)@ + parts_render(all, keys).0);
            return r;
        }
        k = k + 1;
    }
    assert(all.skip(k as int).len() == 0);
    assert(out@ =~= old(out)@ + parts_render(all, keys).0);
    Ok(())
}

/// Renders a pptx package, given the bytes of its file: every slide and
/// notes part, ordered by the number in its name (a slide before its notes,
/// equal numbers in archive order), one line per non-blank paragraph.
pub fn slides(package: &[u8], keys: Keys, out: &mut String) -> (res: Result<(), String>)
    ensures
        final(out)@ == old(out)@ + slides_spec(package@, keys).0,
        match slides_spec(package@, keys).1 {
            Some(m) => res matches Err(e) && e@ == m,
            None => res is Ok,
        },
{
    let count = match entry_count(package) {
        Ok(n) => n,
        Err(m) => {
            return Err(m);
        },
    };
    let mut parts: Vec<SlidePart> = Vec::new();
    let mut i: usize = 0;
    while i < count
        invariant
            i <= count,
            zip_entry_count(package@) == Ok::<nat, Seq<char>>(count as nat),
            collect_parts(package@, count as nat, 0) == match collect_parts(package@, count as nat, i as nat) {
                Ok(rest) => Ok(parts_view(parts@) + rest),
                Err(m) => Err(m),
            },
            out@ == old(out)@,
        decreases count - i,
    {
        let name = match entry_name(package, i) {
            Ok(n) => n,
            Err(m) => {
                return Err(m);
            },
        };
        if let Some((number, note)) = slide_part_kind(name.as_str()) {
            let xml = match entry_text(package, i) {
                Ok(t) => t,
                Err(m) => {
                    let mut msg = name.clone();
                    msg.append(": ");
                    msg.append(m.as_str());
                    return Err(msg);
                },
            };
            let ghost pv = parts_view(parts@);
            parts.push((number, note, xml));
            proof {
                let q = (trailing_number_spec(name@), is_notes_name(name@), xml@);
                assert(parts_view(parts@) =~= pv.push(q));
                match collect_parts(package@, count as nat, (i + 1) as nat) {
                    Ok(rest) => {
                        assert(pv + (seq![q] + rest) =~= pv.push(q) + rest);
                    },
                    Err(_) => {},
                }
            }
        }
        i = i + 1;
    }
    let sorted = sort_slide_parts(parts);
    render_slide_parts(sorted.as_slice(), keys, out)
}

} // verus!

//! docx: one line per paragraph and per table cell.

use vstd::prelude::*;

use crate::options::{same_text, Keys};
use crate::package::{part_read, read_part, zip_part, PartFault, PartRead};
use crate::text::{
    append_chars, decimal, esc_spec, lemma_decimal_one_line, lemma_esc_one_line, lemma_one_line_concat,
    lemma_padded_one_line, one_line, padded, push_all, push_decimal, push_escaped, push_padded, push_str, trim,
    trimmed,
};
use crate::xml::{
    attr_view, document_events, event_fault, is_tag, next_tag_opens, read_events, runs_through, views, Ev, XmlEvent,
};

verus! {

/// Where the reading of a document body stands.
pub struct WordState {
    /// The text of the current paragraph so far.
    pub text: Seq<char>,
    /// The style of the current paragraph.
    pub style: Seq<char>,
    /// Paragraphs started so far.
    pub para: nat,
    /// Tables started so far.
    pub tbl: nat,
    /// Row within the current table, 0 outside a table.
    pub row: nat,
    /// Cell within the current row.
    pub col: nat,
    /// Inside a tracked deletion.
    pub in_del: bool,
}

/// The state before the first event.
pub open spec fn word_start() -> WordState {
    WordState { text: Seq::empty(), style: Seq::empty(), para: 0, tbl: 0, row: 0, col: 0, in_del: false }
}

/// The style that the attributes of a `w:pStyle` element leave: the value of
/// its last `w:val` attribute that parses, or `style` when there is none.
pub open spec fn style_from(attrs: Seq<Option<(Seq<char>, Seq<char>)>>, style: Seq<char>) -> Seq<char>
    decreases attrs.len(),
{
    if attrs.len() == 0 {
        style
    } else {
        match attrs.last() {
            Some((k, v)) => if k == "w:val"@ { v } else { style_from(attrs.drop_last(), style) },
            None => style_from(attrs.drop_last(), style),
        }
    }
}

/// The state after an event that does not stop the reading.
pub open spec fn word_next(st: WordState, ev: Ev) -> WordState {
    match ev {
        Ev::Start(n) => if n == "w:tbl"@ {
            WordState { tbl: st.tbl + 1, row: 0, ..st }
        } else if n == "w:tr"@ {
            WordState { row: st.row + 1, col: 0, ..st }
        } else if n == "w:tc"@ {
            WordState { col: st.col + 1, ..st }
        } else if n == "w:del"@ {
            WordState { in_del: true, ..st }
        } else if n == "w:p"@ {
            WordState { para: st.para + 1, text: Seq::empty(), style: Seq::empty(), ..st }
        } else {
            st
        },
        Ev::Empty(n, attrs) => if n == "w:pStyle"@ {
            WordState { style: style_from(attrs, st.style), ..st }
        } else {
            st
        },
        Ev::Text(r) => match r {
            Ok(t) => if st.in_del {
                WordState { text: st.text + "<del>"@ + t + "</del>"@, ..st }
            } else {
                WordState { text: st.text + t, ..st }
            },
            Err(_) => st,
        },
        Ev::End(n) => if n == "w:del"@ {
            WordState { in_del: false, ..st }
        } else if n == "w:tbl"@ {
            WordState { row: 0, ..st }
        } else if n == "w:p"@ {
            WordState { text: Seq::empty(), ..st }
        } else {
            st
        },
        _ => st,
    }
}

/// The key of a paragraph line: its coordinates in a table or its ordinal,
/// or with content keys only whether it sits in a table.
pub open spec fn word_key(st: WordState, keys: Keys) -> Seq<char> {
    let in_table = st.tbl > 0 && st.row > 0;
    match keys {
        Keys::Content => if in_table { "tc"@ } else { "p"@ },
        Keys::Address => if in_table {
            "t"@ + decimal(st.tbl) + ".r"@ + padded(st.row, 3) + ".c"@ + padded(st.col, 2)
        } else {
            "p"@ + padded(st.para, 4)
        },
    }
}

/// The line for the paragraph that ends in state `st`: key, style and
/// escaped text, or nothing when the text is blank.
pub open spec fn word_line(st: WordState, keys: Keys) -> Seq<char> {
    if trim(st.text).len() == 0 {
        Seq::empty()
    } else {
        word_key(st, keys) + "\t"@ + st.style + "\t"@ + esc_spec(trim(st.text)) + "\n"@
    }
}

/// What an event that does not stop the reading writes.
pub open spec fn word_emit(st: WordState, ev: Ev, keys: Keys) -> Seq<char> {
    match ev {
        Ev::End(n) => if n == "w:p"@ { word_line(st, keys) } else { Seq::empty() },
        _ => Seq::empty(),
    }
}

/// The lines written for `evs` from position `i` in state `st`, and the
/// failure that stopped the reading, if one did. Reading ends at the end of
/// the sequence or at its end-of-document event.
pub open spec fn word_run(evs: Seq<Ev>, keys: Keys, i: int, st: WordState) -> (Seq<char>, Option<Seq<char>>)
    decreases evs.len() - i,
{
    if i < 0 || i >= evs.len() || evs[i] is Eof {
        (Seq::empty(), None)
    } else {
        match event_fault(evs[i]) {
            Some(m) => (Seq::empty(), Some(m)),
            None => {
                let rest = word_run(evs, keys, i + 1, word_next(st, evs[i]));
                (word_emit(st, evs[i], keys) + rest.0, rest.1)
            },
        }
    }
}

/// The lines and the failure, if any, for a whole event sequence.
pub open spec fn word_render(evs: Seq<Ev>, keys: Keys) -> (Seq<char>, Option<Seq<char>>) {
    word_run(evs, keys, 0, word_start())
}

/// The state after the events of `evs` from position `i` on, when none of
/// them stops the reading.
pub open spec fn word_walk(evs: Seq<Ev>, i: int, st: WordState) -> WordState
    decreases evs.len() - i,
{
    if i < 0 || i >= evs.len() {
        st
    } else {
        word_walk(evs, i + 1, word_next(st, evs[i]))
    }
}

/// What content keys read of a state: the paragraph text and style, whether
/// a table and a row have begun, and whether a deletion is open. Ordinals do
/// not count.
pub open spec fn content_view(st: WordState) -> (Seq<char>, Seq<char>, bool, bool, bool) {
    (st.text, st.style, st.tbl > 0, st.row > 0, st.in_del)
}

/// An event that may stand inside a plain paragraph: it does not stop the
/// reading and opens or closes no paragraph, table, row or deletion.
pub open spec fn inside_paragraph(ev: Ev) -> bool {
    &&& !(ev is Eof)
    &&& event_fault(ev) is None
    &&& !is_tag(ev, "w:p"@)
    &&& !is_tag(ev, "w:tbl"@)
    &&& !is_tag(ev, "w:tr"@)
    &&& !is_tag(ev, "w:del"@)
}

/// The events of one plain paragraph: its start tag, events that may stand
/// inside it, its end tag.
pub open spec fn plain_paragraph(ins: Seq<Ev>) -> bool {
    &&& ins.len() >= 2
    &&& ins[0] matches Ev::Start(n) && n == "w:p"@
    &&& ins.last() matches Ev::End(n) && n == "w:p"@
    &&& forall|k: int| 0 < k < ins.len() - 1 ==> inside_paragraph(#[trigger] ins[k])
}

proof fn lemma_word_run_shift(a: Seq<Ev>, b: Seq<Ev>, keys: Keys, j: int, st: WordState)
    requires
        0 <= j <= b.len(),
    ensures
        word_run(a + b, keys, a.len() + j, st) == word_run(b, keys, j, st),
    decreases b.len() - j,
{
    if j < b.len() {
        assert((a + b)[a.len() + j] == b[j]);
        if !(b[j] is Eof) && event_fault(b[j]) is None {
            lemma_word_run_shift(a, b, keys, j + 1, word_next(st, b[j]));
        }
    }
}

proof fn lemma_word_run_concat(a: Seq<Ev>, b: Seq<Ev>, keys: Keys, i: int, st: WordState)
    requires
        0 <= i <= a.len(),
        runs_through(a),
    ensures
        word_run(a + b, keys, i, st).0 == word_run(a, keys, i, st).0 + word_run(b, keys, 0, word_walk(a, i, st)).0,
        word_run(a + b, keys, i, st).1 == word_run(b, keys, 0, word_walk(a, i, st)).1,
        word_run(a, keys, i, st).1 is None,
    decreases a.len() - i,
{
    if i == a.len() {
        lemma_word_run_shift(a, b, keys, 0, st);
        assert(word_run(a, keys, i, st).0 =~= Seq::<char>::empty());
        assert(word_run(b, keys, 0, st).0 =~= Seq::<char>::empty() + word_run(b, keys, 0, st).0);
    } else {
        assert((a + b)[i] == a[i]);
        assert(!(a[i] is Eof) && event_fault(a[i]) is None);
        lemma_word_run_concat(a, b, keys, i + 1, word_next(st, a[i]));
        let e = word_emit(st, a[i], keys);
        let x = word_run(a, keys, i + 1, word_next(st, a[i])).0;
        let y = word_run(b, keys, 0, word_walk(a, i, st)).0;
        assert(e + (x + y) =~= e + x + y);
    }
}

proof fn lemma_next_content(s1: WordState, s2: WordState, ev: Ev)
    requires
        content_view(s1) == content_view(s2),
    ensures
        content_view(word_next(s1, ev)) == content_view(word_next(s2, ev)),
        word_emit(s1, ev, Keys::Content) == word_emit(s2, ev, Keys::Content),
{
}

proof fn lemma_content_run(evs: Seq<Ev>, i: int, s1: WordState, s2: WordState)
    requires
        content_view(s1) == content_view(s2),
    ensures
        word_run(evs, Keys::Content, i, s1) == word_run(evs, Keys::Content, i, s2),
    decreases evs.len() - i,
{
    if 0 <= i < evs.len() && !(evs[i] is Eof) && event_fault(evs[i]) is None {
        lemma_next_content(s1, s2, evs[i]);
        lemma_content_run(evs, i + 1, word_next(s1, evs[i]), word_next(s2, evs[i]));
    }
}

/// What content keys read of a state outside the current paragraph's text
/// and style: whether a table and a row have begun, and whether a deletion
/// is open.
pub open spec fn table_view(st: WordState) -> (bool, bool, bool) {
    (st.tbl > 0, st.row > 0, st.in_del)
}

/// With content keys, two states that agree but for the current
/// paragraph's text, style and ordinals write the same from `i` on, as long
/// as the next paragraph tag there opens a paragraph.
proof fn lemma_until_paragraph(evs: Seq<Ev>, i: int, s1: WordState, s2: WordState)
    requires
        0 <= i,
        table_view(s1) == table_view(s2),
        next_tag_opens(evs, i, "w:p"@),
    ensures
        word_run(evs, Keys::Content, i, s1) == word_run(evs, Keys::Content, i, s2),
    decreases evs.len() - i,
{
    if i < evs.len() && !(evs[i] is Eof) && event_fault(evs[i]) is None {
        let e = evs[i];
        let n1 = word_next(s1, e);
        let n2 = word_next(s2, e);
        if is_tag(e, "w:p"@) {
            reveal_strlit("w:p");
            reveal_strlit("w:tbl");
            reveal_strlit("w:tr");
            reveal_strlit("w:tc");
            reveal_strlit("w:del");
            assert("w:p"@.len() == 3 && "w:tbl"@.len() == 5 && "w:tr"@.len() == 4 && "w:tc"@.len() == 4
                && "w:del"@.len() == 5);
            assert(content_view(n1) == content_view(n2));
            lemma_content_run(evs, i + 1, n1, n2);
        } else {
            assert(table_view(n1) == table_view(n2));
            assert(word_emit(s1, e, Keys::Content) == word_emit(s2, e, Keys::Content));
            lemma_until_paragraph(evs, i + 1, n1, n2);
        }
    }
}

proof fn lemma_paragraph_walk(ins: Seq<Ev>, i: int, st: WordState)
    requires
        plain_paragraph(ins),
        1 <= i <= ins.len() - 1,
    ensures
        word_walk(ins, i, st).text == Seq::<char>::empty(),
        word_walk(ins, i, st).tbl == st.tbl,
        word_walk(ins, i, st).row == st.row,
        word_walk(ins, i, st).in_del == st.in_del,
    decreases ins.len() - i,
{
    reveal_strlit("w:p");
    reveal_strlit("w:tbl");
    reveal_strlit("w:tr");
    reveal_strlit("w:del");
    reveal_strlit("w:tc");
    assert("w:p"@.len() == 3 && "w:tbl"@.len() == 5 && "w:tr"@.len() == 4 && "w:del"@.len() == 5 && "w:tc"@.len() == 4);
    assert("w:tr"@[3] == 'r' && "w:tc"@[3] == 'c');
    if i == ins.len() - 1 {
        let n = word_next(st, ins[i]);
        assert(word_walk(ins, i + 1, n) == n);
    } else {
        let ev = ins[i];
        assert(inside_paragraph(ev));
        lemma_paragraph_walk(ins, i + 1, word_next(st, ev));
    }
}

/// Why the key carries no position in docx either: with content keys,
/// inserting a plain paragraph between the paragraphs of a document adds
/// that paragraph's output and leaves everything else that is written, in
/// the same order. `pre` is what comes before the insertion point (read
/// through without stopping), `post` what comes after it: anything whose
/// first paragraph tag, if any, opens a paragraph (the next paragraph, a
/// table, the section properties, the end of the body).
pub proof fn inserting_a_paragraph_adds_only_its_line(pre: Seq<Ev>, ins: Seq<Ev>, post: Seq<Ev>)
    requires
        runs_through(pre),
        plain_paragraph(ins),
        next_tag_opens(post, 0, "w:p"@),
    ensures
        word_render(pre + post, Keys::Content).0 == word_run(pre, Keys::Content, 0, word_start()).0 + word_run(
            post,
            Keys::Content,
            0,
            word_walk(pre, 0, word_start()),
        ).0,
        word_render(pre + ins + post, Keys::Content).0 == word_run(pre, Keys::Content, 0, word_start()).0
            + word_run(ins, Keys::Content, 0, word_walk(pre, 0, word_start())).0 + word_run(
            post,
            Keys::Content,
            0,
            word_walk(pre, 0, word_start()),
        ).0,
        word_render(pre + ins + post, Keys::Content).1 == word_render(pre + post, Keys::Content).1,
{
    let k = Keys::Content;
    let s0 = word_start();
    let sp = word_walk(pre, 0, s0);
    lemma_word_run_concat(pre, post, k, 0, s0);
    // The paragraph reads through, and leaves the state as content keys see it, but for its style.
    assert(runs_through(ins)) by {
        assert forall|j: int| 0 <= j < ins.len() implies !(#[trigger] ins[j] is Eof) && event_fault(ins[j]) is None by {
            if 0 < j < ins.len() - 1 {
                assert(inside_paragraph(ins[j]));
            }
        }
    }
    lemma_word_run_concat(ins, post, k, 0, sp);
    assert(pre + ins + post =~= pre + (ins + post));
    lemma_word_run_concat(pre, ins + post, k, 0, s0);
    let s1 = word_next(sp, ins[0]);
    lemma_paragraph_walk(ins, 1, s1);
    let sa = word_walk(ins, 0, sp);
    assert(sa == word_walk(ins, 1, s1));
    reveal_strlit("w:p");
    reveal_strlit("w:tbl");
    reveal_strlit("w:tr");
    reveal_strlit("w:del");
    reveal_strlit("w:tc");
    assert("w:p"@.len() == 3 && "w:tbl"@.len() == 5 && "w:tr"@.len() == 4 && "w:del"@.len() == 5 && "w:tc"@.len() == 4);
    assert(s1.tbl == sp.tbl && s1.row == sp.row && s1.in_del == sp.in_del);
    lemma_until_paragraph(post, 0, sa, sp);
    let a = word_run(pre, k, 0, s0).0;
    let b = word_run(ins, k, 0, sp).0;
    let c = word_run(post, k, 0, sp).0;
    assert(a + (b + c) =~= a + b + c);
}

/// A paragraph is at most one line: nothing, or a line that ends in its
/// only newline, as long as its style (written as it stands) holds none.
pub proof fn a_paragraph_is_at_most_one_line(st: WordState, keys: Keys)
    requires
        one_line(st.style),
    ensures
        word_line(st, keys).len() == 0 || (word_line(st, keys).last() == '\n' && one_line(
            word_line(st, keys).drop_last(),
        )),
{
    reveal_strlit("tc");
    reveal_strlit("p");
    reveal_strlit("t");
    reveal_strlit(".r");
    reveal_strlit(".c");
    reveal_strlit("\t");
    reveal_strlit("\n");
    if trim(st.text).len() > 0 {
        let key = word_key(st, keys);
        assert(one_line(key)) by {
            assert(one_line("tc"@) && one_line("p"@) && one_line("t"@) && one_line(".r"@) && one_line(".c"@));
            lemma_decimal_one_line(st.tbl);
            lemma_padded_one_line(st.row, 3);
            lemma_padded_one_line(st.col, 2);
            lemma_padded_one_line(st.para, 4);
            lemma_one_line_concat("p"@, padded(st.para, 4));
            lemma_one_line_concat("t"@, decimal(st.tbl));
            lemma_one_line_concat("t"@ + decimal(st.tbl), ".r"@);
            lemma_one_line_concat("t"@ + decimal(st.tbl) + ".r"@, padded(st.row, 3));
            lemma_one_line_concat("t"@ + decimal(st.tbl) + ".r"@ + padded(st.row, 3), ".c"@);
            lemma_one_line_concat("t"@ + decimal(st.tbl) + ".r"@ + padded(st.row, 3) + ".c"@, padded(st.col, 2));
        }
        let tab = "\t"@;
        assert(one_line(tab));
        lemma_esc_one_line(trim(st.text));
        lemma_one_line_concat(key, tab);
        lemma_one_line_concat(key + tab, st.style);
        lemma_one_line_concat(key + tab + st.style, tab);
        lemma_one_line_concat(key + tab + st.style + tab, esc_spec(trim(st.text)));
        let body = key + tab + st.style + tab + esc_spec(trim(st.text));
        assert(word_line(st, keys) =~= body.push('\n'));
        assert(word_line(st, keys).drop_last() =~= body);
    }
}

/// The paragraphs that the events of a document body from position `i` on
/// write a line for, whatever the keys: the states in which their non-blank
/// paragraphs end, in order, and the failure that stopped the reading.
pub open spec fn word_paragraphs(evs: Seq<Ev>, i: int, st: WordState) -> (Seq<WordState>, Option<Seq<char>>)
    decreases evs.len() - i,
{
    if i < 0 || i >= evs.len() || evs[i] is Eof {
        (Seq::empty(), None)
    } else {
        match event_fault(evs[i]) {
            Some(m) => (Seq::empty(), Some(m)),
            None => {
                let rest = word_paragraphs(evs, i + 1, word_next(st, evs[i]));
                let here = if (evs[i] matches Ev::End(n) && n == "w:p"@) && trim(st.text).len() > 0 {
                    seq![st]
                } else {
                    Seq::empty()
                };
                (here + rest.0, rest.1)
            },
        }
    }
}

/// The lines of a list of paragraph states, in order.
pub open spec fn word_lines_of(ps: Seq<WordState>, keys: Keys) -> Seq<char>
    decreases ps.len(),
{
    if ps.len() == 0 {
        Seq::empty()
    } else {
        word_line(ps[0], keys) + word_lines_of(ps.skip(1), keys)
    }
}

proof fn lemma_word_run_paragraphs(evs: Seq<Ev>, keys: Keys, i: int, st: WordState)
    ensures
        word_run(evs, keys, i, st) == (word_lines_of(word_paragraphs(evs, i, st).0, keys), word_paragraphs(evs, i, st).1),
    decreases evs.len() - i,
{
    if 0 <= i < evs.len() && !(evs[i] is Eof) && event_fault(evs[i]) is None {
        let n = word_next(st, evs[i]);
        lemma_word_run_paragraphs(evs, keys, i + 1, n);
        let rest = word_paragraphs(evs, i + 1, n).0;
        if (evs[i] matches Ev::End(t) && t == "w:p"@) && trim(st.text).len() > 0 {
            let ps = seq![st] + rest;
            assert(ps[0] == st);
            assert(ps.skip(1) =~= rest);
        } else {
            assert(Seq::<WordState>::empty() + rest =~= rest);
            assert(word_emit(st, evs[i], keys) =~= Seq::<char>::empty());
            let x = word_lines_of(rest, keys);
            assert(Seq::<char>::empty() + x =~= x);
        }
    } else {
        assert(word_lines_of(Seq::<WordState>::empty(), keys) == Seq::<char>::empty());
    }
}

/// Address keys and content keys write the same paragraphs of a document,
/// in the same order, with the same style and text, and stop at the same
/// failure: line for line the two outputs differ only in the key (see
/// [`word_key`]), `p` and an ordinal or `t`, `r` and `c` coordinates against
/// `p` or `tc`.
pub proof fn the_key_schemes_write_the_same_paragraphs(evs: Seq<Ev>)
    ensures
        word_render(evs, Keys::Address) == (
            word_lines_of(word_paragraphs(evs, 0, word_start()).0, Keys::Address),
            word_paragraphs(evs, 0, word_start()).1,
        ),
        word_render(evs, Keys::Content) == (
            word_lines_of(word_paragraphs(evs, 0, word_start()).0, Keys::Content),
            word_paragraphs(evs, 0, word_start()).1,
        ),
        forall|st: WordState|
            trim(st.text).len() > 0 ==> #[trigger] word_line(st, Keys::Address) == word_key(st, Keys::Address) + "\t"@
                + st.style + "\t"@ + esc_spec(trim(st.text)) + "\n"@ && word_line(st, Keys::Content) == word_key(
                st,
                Keys::Content,
            ) + "\t"@ + st.style + "\t"@ + esc_spec(trim(st.text)) + "\n"@,
{
    lemma_word_run_paragraphs(evs, Keys::Address, 0, word_start());
    lemma_word_run_paragraphs(evs, Keys::Content, 0, word_start());
}

/// The number of table cells that the events of `evs` open.
pub open spec fn cells_opened(evs: Seq<Ev>) -> nat
    decreases evs.len(),
{
    if evs.len() == 0 {
        0
    } else {
        (if evs[0] matches Ev::Start(n) && n == "w:tc"@ { 1nat } else { 0nat }) + cells_opened(evs.skip(1))
    }
}

/// Whether no event of `evs` opens a table or a table row.
pub open spec fn opens_no_row(evs: Seq<Ev>) -> bool {
    forall|k: int| 0 <= k < evs.len() ==> !(#[trigger] evs[k] matches Ev::Start(n) && (n == "w:tr"@ || n == "w:tbl"@))
}

proof fn lemma_cells_walk(evs: Seq<Ev>, i: int, st: WordState)
    requires
        0 <= i <= evs.len(),
        opens_no_row(evs),
    ensures
        word_walk(evs, i, st).col == st.col + cells_opened(evs.skip(i)),
    decreases evs.len() - i,
{
    reveal_strlit("w:tc");
    reveal_strlit("w:tr");
    reveal_strlit("w:tbl");
    assert("w:tc"@.len() == 4 && "w:tr"@.len() == 4 && "w:tbl"@.len() == 5);
    assert("w:tc"@[3] == 'c' && "w:tr"@[3] == 'r');
    if i == evs.len() {
        assert(evs.skip(i).len() == 0);
    } else {
        let e = evs[i];
        assert(!(e matches Ev::Start(n) && (n == "w:tr"@ || n == "w:tbl"@)));
        let n1 = word_next(st, e);
        lemma_cells_walk(evs, i + 1, n1);
        assert(evs.skip(i).skip(1) =~= evs.skip(i + 1));
        assert(evs.skip(i)[0] == e);
        if e matches Ev::Start(n) && n == "w:tc"@ {
            assert(n1.col == st.col + 1);
        } else {
            assert(n1.col == st.col);
        }
    }
}

/// Table cells are numbered from one in every row: after a row starts, the
/// column of the state is the number of cells opened since, whatever column
/// the previous row reached. So the first cell of every row is keyed `c01`,
/// the second `c02`, and so on.
pub proof fn cells_are_numbered_from_the_start_of_their_row(st: WordState, evs: Seq<Ev>)
    requires
        opens_no_row(evs),
    ensures
        word_walk(seq![Ev::Start("w:tr"@)] + evs, 0, st).col == cells_opened(evs),
{
    reveal_strlit("w:tr");
    reveal_strlit("w:tbl");
    assert("w:tr"@.len() == 4 && "w:tbl"@.len() == 5);
    let all = seq![Ev::Start("w:tr"@)] + evs;
    let s1 = word_next(st, Ev::Start("w:tr"@));
    assert(s1.col == 0 && s1.row == st.row + 1);
    assert(all[0] == Ev::Start("w:tr"@));
    assert(all.skip(1) =~= evs);
    assert(opens_no_row(all.skip(1)));
    lemma_cells_walk(all.skip(1), 0, s1);
    lemma_walk_shift(all, 1, s1);
    assert(evs.skip(0) =~= evs);
}

proof fn lemma_walk_shift(all: Seq<Ev>, i: int, st: WordState)
    requires
        0 <= i <= all.len(),
    ensures
        word_walk(all, i, st) == word_walk(all.skip(i), 0, st),
    decreases all.len() - i,
{
    if i < all.len() {
        lemma_walk_shift(all, i + 1, word_next(st, all[i]));
        assert(all.skip(i)[0] == all[i]);
        assert(all.skip(i).skip(1) =~= all.skip(i + 1));
        lemma_walk_shift(all.skip(i), 1, word_next(st, all[i]));
    }
}

/// The number of start tags named `name` among the events of `evs`.
pub open spec fn tags_opened(evs: Seq<Ev>, name: Seq<char>) -> nat
    decreases evs.len(),
{
    if evs.len() == 0 {
        0
    } else {
        (if evs[0] matches Ev::Start(n) && n == name { 1nat } else { 0nat }) + tags_opened(evs.skip(1), name)
    }
}

proof fn lemma_ordinals_walk(evs: Seq<Ev>, i: int, st: WordState)
    requires
        0 <= i <= evs.len(),
    ensures
        word_walk(evs, i, st).para == st.para + tags_opened(evs.skip(i), "w:p"@),
        word_walk(evs, i, st).tbl == st.tbl + tags_opened(evs.skip(i), "w:tbl"@),
    decreases evs.len() - i,
{
    reveal_strlit("w:p");
    reveal_strlit("w:tbl");
    reveal_strlit("w:tr");
    reveal_strlit("w:tc");
    reveal_strlit("w:del");
    assert("w:p"@.len() == 3 && "w:tbl"@.len() == 5 && "w:tr"@.len() == 4 && "w:tc"@.len() == 4
        && "w:del"@.len() == 5);
    assert("w:tbl"@[2] == 't' && "w:del"@[2] == 'd');
    if i == evs.len() {
        assert(evs.skip(i).len() == 0);
    } else {
        let e = evs[i];
        lemma_ordinals_walk(evs, i + 1, word_next(st, e));
        assert(evs.skip(i).skip(1) =~= evs.skip(i + 1));
        assert(evs.skip(i)[0] == e);
    }
}

/// Paragraphs and tables are numbered in document order: whatever comes
/// between, the paragraph ordinal grows by one at every paragraph start and
/// the table ordinal by one at every table start, and by nothing else.
pub proof fn paragraphs_and_tables_are_numbered_in_order(st: WordState, evs: Seq<Ev>)
    ensures
        word_walk(evs, 0, st).para == st.para + tags_opened(evs, "w:p"@),
        word_walk(evs, 0, st).tbl == st.tbl + tags_opened(evs, "w:tbl"@),
{
    lemma_ordinals_walk(evs, 0, st);
    assert(evs.skip(0) =~= evs);
}

/// Rows are numbered from one in every table: after a table starts, the row
/// ordinal is the number of rows opened since, as long as the table has not
/// ended.
pub proof fn rows_are_numbered_from_the_start_of_their_table(st: WordState, evs: Seq<Ev>)
    requires
        forall|k: int| 0 <= k < evs.len() ==> !is_tag(#[trigger] evs[k], "w:tbl"@),
    ensures
        word_walk(seq![Ev::Start("w:tbl"@)] + evs, 0, st).row == tags_opened(evs, "w:tr"@),
{
    let all = seq![Ev::Start("w:tbl"@)] + evs;
    let s1 = word_next(st, Ev::Start("w:tbl"@));
    assert(s1.row == 0);
    assert(all[0] == Ev::Start("w:tbl"@));
    assert(all.skip(1) =~= evs);
    lemma_walk_shift(all, 1, s1);
    lemma_rows_walk(evs, 0, s1);
    assert(evs.skip(0) =~= evs);
}

proof fn lemma_rows_walk(evs: Seq<Ev>, i: int, st: WordState)
    requires
        0 <= i <= evs.len(),
        forall|k: int| 0 <= k < evs.len() ==> !is_tag(#[trigger] evs[k], "w:tbl"@),
    ensures
        word_walk(evs, i, st).row == st.row + tags_opened(evs.skip(i), "w:tr"@),
    decreases evs.len() - i,
{
    reveal_strlit("w:p");
    reveal_strlit("w:tbl");
    reveal_strlit("w:tr");
    reveal_strlit("w:tc");
    reveal_strlit("w:del");
    assert("w:p"@.len() == 3 && "w:tbl"@.len() == 5 && "w:tr"@.len() == 4 && "w:tc"@.len() == 4
        && "w:del"@.len() == 5);
    assert("w:tc"@[3] == 'c' && "w:tr"@[3] == 'r');
    if i == evs.len() {
        assert(evs.skip(i).len() == 0);
    } else {
        let e = evs[i];
        assert(!is_tag(e, "w:tbl"@));
        lemma_rows_walk(evs, i + 1, word_next(st, e));
        assert(evs.skip(i).skip(1) =~= evs.skip(i + 1));
        assert(evs.skip(i)[0] == e);
    }
}

/// The executable state of the reading.
struct WordCursor {
    text: Vec<char>,
    style: Vec<char>,
    para: usize,
    tbl: usize,
    row: usize,
    col: usize,
    in_del: bool,
}

impl WordCursor {
    spec fn view(&self) -> WordState {
        WordState {
            text: self.text@,
            style: self.style@,
            para: self.para as nat,
            tbl: self.tbl as nat,
            row: self.row as nat,
            col: self.col as nat,
            in_del: self.in_del,
        }
    }

    spec fn bounded(&self, n: int) -> bool {
        self.para <= n && self.tbl <= n && self.row <= n && self.col <= n
    }
}

/// Appends the line of the paragraph that ends in state `c`.
fn push_word_line(c: &WordCursor, keys: Keys, buf: &mut Vec<char>)
    ensures
        final(buf)@ == old(buf)@ + word_line(c.view(), keys),
{
    let t = trimmed(c.text.as_slice());
    if t.len() == 0 {
        return;
    }
    let ghost start = buf@;
    let in_table = c.tbl > 0 && c.row > 0;
    match keys {
        Keys::Content => {
            if in_table {
                push_str(buf, "tc");
            } else {
                push_str(buf, "p");
            }
        },
        Keys::Address => {
            if in_table {
                push_str(buf, "t");
                push_decimal(buf, c.tbl as u128);
                push_str(buf, ".r");
                push_padded(buf, c.row as u128, 3);
                push_str(buf, ".c");
                push_padded(buf, c.col as u128, 2);
            } else {
                push_str(buf, "p");
                push_padded(buf, c.para as u128, 4);
            }
        },
    }
    assert(buf@ =~= start + word_key(c.view(), keys));
    push_str(buf, "\t");
    push_all(buf, c.style.as_slice());
    push_str(buf, "\t");
    push_escaped(buf, t.as_slice());
    push_str(buf, "\n");
    assert(buf@ =~= start + word_line(c.view(), keys));
}

/// Applies the attributes of a `w:pStyle` element to the style.
fn apply_style(c: &mut WordCursor, attrs: &Vec<Option<(String, String)>>)
    ensures
        final(c).view() == (WordState {
            style: style_from(attrs@.map_values(|a: Option<(String, String)>| attr_view(a)), old(c).view().style),
            ..old(c).view()
        }),
{
    let ghost views = attrs@.map_values(|a: Option<(String, String)>| attr_view(a));
    let ghost style0 = c.style@;
    let mut i: usize = 0;
    while i < attrs.len()
        invariant
            i <= attrs@.len(),
            views == attrs@.map_values(|a: Option<(String, String)>| attr_view(a)),
            c.style@ == style_from(views.take(i as int), style0),
            c.view() == (WordState { style: c.style@, ..old(c).view() }),
        decreases attrs@.len() - i,
    {
        assert(views.take(i + 1).drop_last() =~= views.take(i as int));
        match &attrs[i] {
            Some((k, v)) => {
                if same_text(k.as_str(), "w:val") {
                    c.style = crate::text::chars_of(v.as_str());
                }
            },
            None => {},
        }
        i = i + 1;
    }
    assert(views.take(attrs@.len() as int) =~= views);
}

/// Reads one event: either the failure it carries, or the state after it
/// with the line it completes appended to `buf`.
fn word_event(c: &mut WordCursor, ev: &XmlEvent, keys: Keys, buf: &mut Vec<char>, n: usize) -> (res: Option<String>)
    requires
        old(c).bounded(n as int),
        n < usize::MAX,
        !(ev@ is Eof),
    ensures
        match event_fault(ev@) {
            Some(m) => res matches Some(e) && e@ == m,
            None => res is None && final(c).view() == word_next(old(c).view(), ev@) && final(buf)@ == old(buf)@
                + word_emit(old(c).view(), ev@, keys) && final(c).bounded(n + 1),
        },
        res is Some ==> final(buf)@ == old(buf)@,
{
    let ghost st = c.view();
    proof {
        reveal_strlit("w:del");
        reveal_strlit("w:tbl");
        reveal_strlit("w:p");
        assert("w:del"@.len() != "w:p"@.len() && "w:tbl"@.len() != "w:p"@.len());
    }
    match ev {
        XmlEvent::Fault(m) => {
            return Some(m.clone());
        },
        XmlEvent::Start(name) => {
            let name = name.as_str();
            if same_text(name, "w:tbl") {
                c.tbl = c.tbl + 1;
                c.row = 0;
            } else if same_text(name, "w:tr") {
                c.row = c.row + 1;
                c.col = 0;
            } else if same_text(name, "w:tc") {
                c.col = c.col + 1;
            } else if same_text(name, "w:del") {
                c.in_del = true;
            } else if same_text(name, "w:p") {
                c.para = c.para + 1;
                c.text = Vec::new();
                c.style = Vec::new();
            }
        },
        XmlEvent::Empty(name, attrs) => {
            if same_text(name.as_str(), "w:pStyle") {
                apply_style(c, attrs);
            }
        },
        XmlEvent::Text(Err(m)) => {
            return Some(m.clone());
        },
        XmlEvent::Text(Ok(t)) => {
            let tc = crate::text::chars_of(t.as_str());
            if c.in_del {
                push_str(&mut c.text, "<del>");
                push_all(&mut c.text, tc.as_slice());
                push_str(&mut c.text, "</del>");
                assert(c.text@ =~= st.text + "<del>"@ + t@ + "</del>"@);
            } else {
                push_all(&mut c.text, tc.as_slice());
                assert(c.text@ =~= st.text + t@);
            }
            assert(c.view() == word_next(st, ev@));
        },
        XmlEvent::End(name) => {
            let name = name.as_str();
            if same_text(name, "w:del") {
                c.in_del = false;
            } else if same_text(name, "w:tbl") {
                c.row = 0;
            } else if same_text(name, "w:p") {
                push_word_line(c, keys, buf);
                c.text = Vec::new();
                assert(c.view() == word_next(st, ev@));
            }
        },
        _ => {},
    }
    assert(buf@ =~= old(buf)@ + word_emit(st, ev@, keys));
    None
}

/// Renders the events of a document body: one line per non-blank paragraph,
/// keyed by `keys`. Stops with the failure of the first event that carries
/// one; the lines before it stay written.
pub fn word_events(evs: &[XmlEvent], keys: Keys, out: &mut String) -> (res: Result<(), String>)
    ensures
        final(out)@ == old(out)@ + word_render(views(evs@), keys).0,
        match word_render(views(evs@), keys).1 {
            Some(m) => res matches Err(e) && e@ == m,
            None => res is Ok,
        },
{
    let mut c = WordCursor {
        text: Vec::new(),
        style: Vec::new(),
        para: 0,
        tbl: 0,
        row: 0,
        col: 0,
        in_del: false,
    };
    let mut buf: Vec<char> = Vec::new();
    let ghost total = word_render(views(evs@), keys);
    let mut i: usize = 0;
    while i < evs.len()
        invariant
            i <= evs@.len(),
            out@ == old(out)@,
            c.bounded(i as int),
            total == word_render(views(evs@), keys),
            total.0 == buf@ + word_run(views(evs@), keys, i as int, c.view()).0,
            total.1 == word_run(views(evs@), keys, i as int, c.view()).1,
        decreases evs@.len() - i,
    {
        if let XmlEvent::Eof = &evs[i] {
            assert(views(evs@)[i as int] is Eof);
            assert(word_run(views(evs@), keys, i as int, c.view()) == (Seq::<char>::empty(), None::<Seq<char>>));
            assert(buf@ =~= total.0);
            append_chars(out, buf.as_slice());
            return Ok(());
        }
        let ghost before = c.view();
        let ghost buf0 = buf@;
        assert(views(evs@)[i as int] == evs@[i as int]@);
        let fault = word_event(&mut c, &evs[i], keys, &mut buf, i);
        if let Some(m) = fault {
            assert(buf@ =~= buf0);
            append_chars(out, buf.as_slice());
            return Err(m);
        }
        assert(buf@ + word_run(views(evs@), keys, i + 1, c.view()).0 =~= buf0 + word_run(views(evs@), keys, i as int, before).0);
        i = i + 1;
    }
    assert(word_run(views(evs@), keys, i as int, c.view()) == (Seq::<char>::empty(), None::<Seq<char>>));
    assert(buf@ =~= total.0);
    append_chars(out, buf.as_slice());
    Ok(())
}


/// Renders the XML text of a document body, as [`word_events`] renders its events.
pub fn word_xml(xml: &str, keys: Keys, out: &mut String) -> (res: Result<(), String>)
    ensures
        final(out)@ == old(out)@ + word_render(document_events(xml@), keys).0,
        match word_render(document_events(xml@), keys).1 {
            Some(m) => res matches Err(e) && e@ == m,
            None => res is Ok,
        },
{
    let evs = read_events(xml);
    word_events(evs.as_slice(), keys, out)
}

/// The part of a docx package that holds the document body.
pub const DOCUMENT_PART: &'static str = "word/document.xml";

/// The message for a part that cannot be read: a missing entry is named, so
/// that the message says which part of the package was missing.
pub open spec fn part_fault_message(part: Seq<char>, r: PartRead) -> Seq<char> {
    match r {
        PartRead::EntryFault(m) => part + ": "@ + m,
        PartRead::ArchiveFault(m) => m,
        PartRead::ContentFault(m) => m,
        PartRead::Text(_) => Seq::empty(),
    }
}

/// The lines and the failure, if any, for the docx package `package`.
pub open spec fn word_spec(package: Seq<u8>, keys: Keys) -> (Seq<char>, Option<Seq<char>>) {
    match zip_part(package, DOCUMENT_PART@) {
        PartRead::Text(t) => word_render(document_events(t), keys),
        r => (Seq::empty(), Some(part_fault_message(DOCUMENT_PART@, r))),
    }
}

/// The message for a part that cannot be read: a missing entry is named,
/// other failures are reported as they are.
pub fn part_fault_text(part: &str, f: PartFault) -> (res: String)
    ensures
        res@ == part_fault_message(part@, part_read(Err(f))),
{
    match f {
        PartFault::Entry(m) => {
            let mut s = String::from_str(part);
            s.append(": ");
            s.append(m.as_str());
            s
        },
        PartFault::Archive(m) => m,
        PartFault::Content(m) => m,
    }
}

/// Renders a docx package, given the bytes of its file: one line per
/// non-blank paragraph of `word/document.xml`, keyed by `keys`.
pub fn word(package: &[u8], keys: Keys, out: &mut String) -> (res: Result<(), String>)
    ensures
        final(out)@ == old(out)@ + word_spec(package@, keys).0,
        match word_spec(package@, keys).1 {
            Some(m) => res matches Err(e) && e@ == m,
            None => res is Ok,
        },
{
    match read_part(package, DOCUMENT_PART) {
        Ok(xml) => word_xml(xml.as_str(), keys, out),
        Err(f) => Err(part_fault_text(DOCUMENT_PART, f)),
    }
}

} // verus!

//! Pictures and embedded objects: one line per part, fingerprinted by the
//! size and the CRC-32 that the zip directory of the package records, so that
//! replacing a picture shows in the diff although no text changed.

use vstd::prelude::*;

use crate::options::Keys;
use crate::package::{entry_count, entry_fingerprint, listed_name, zip_entry_count, zip_entry_fingerprint, zip_listed_name};
use crate::sort::{key_le, key_of, lemma_sort_by_map, sort_by, sorting_orders_and_keeps, stable_sort, Keyed};
use crate::text::{append_chars, chars_of, decimal, has_prefix, push_decimal, push_str, string_of};

verus! {

/// A picture or embedded object: its part name (or what content keys keep
/// of it), its size in bytes and its CRC-32.
pub type MediaPart = (String, u64, u32);

/// The abstract value of a media part.
pub open spec fn media_view(m: MediaPart) -> (Seq<char>, nat, nat) {
    (m.0@, m.1 as nat, m.2 as nat)
}

/// The abstract values of a list of media parts.
pub open spec fn media_views(ms: Seq<MediaPart>) -> Seq<(Seq<char>, nat, nat)> {
    ms.map_values(|m: MediaPart| media_view(m))
}

/// Whether a part holds a picture or an embedded object: it lies under the
/// `media` or `embeddings` folder of a document, workbook or presentation,
/// and is not a folder itself.
pub open spec fn is_media_name(name: Seq<char>) -> bool {
    &&& ("word/media/"@.is_prefix_of(name) || "word/embeddings/"@.is_prefix_of(name)
        || "xl/media/"@.is_prefix_of(name) || "xl/embeddings/"@.is_prefix_of(name)
        || "ppt/media/"@.is_prefix_of(name) || "ppt/embeddings/"@.is_prefix_of(name))
    &&& !(name.len() > 0 && name.last() == '/')
}

/// The position of the last `c` in `s`, or -1.
pub open spec fn last_index_of(s: Seq<char>, c: char) -> int
    decreases s.len(),
{
    if s.len() == 0 {
        -1
    } else if s.last() == c {
        s.len() - 1
    } else {
        last_index_of(s.drop_last(), c)
    }
}

/// A last position lies within the text, or is -1.
pub proof fn lemma_last_index_bounds(s: Seq<char>, c: char)
    ensures
        -1 <= last_index_of(s, c) < s.len(),
        last_index_of(s, c) >= 0 ==> s[last_index_of(s, c)] == c,
    decreases s.len(),
{
    if s.len() > 0 && s.last() != c {
        lemma_last_index_bounds(s.drop_last(), c);
    }
}

/// What content keys keep of a part name: the extension of its file name,
/// dot included, or `(no extension)`. The numbering of the part goes, since
/// saving a document may renumber its pictures.
pub open spec fn extension_label(name: Seq<char>) -> Seq<char> {
    let dot = last_index_of(name, '.');
    if dot > last_index_of(name, '/') {
        name.skip(dot)
    } else {
        "(no extension)"@
    }
}

/// The lowercase hexadecimal digit for `d < 16`.
pub open spec fn hex_digit(d: nat) -> char {
    if d < 10 {
        ((48 + d) as u8) as char
    } else {
        ((87 + d) as u8) as char
    }
}

/// The last `k` hexadecimal digits of `n`, leading zeros kept.
pub open spec fn hex_digits(n: nat, k: nat) -> Seq<char>
    decreases k,
{
    if k == 0 {
        Seq::empty()
    } else {
        hex_digits(n / 16, (k - 1) as nat).push(hex_digit(n % 16))
    }
}

/// The line of one part: `media`, its label, its size and its CRC-32 in
/// eight hexadecimal digits.
pub open spec fn media_line(label: Seq<char>, size: nat, crc: nat) -> Seq<char> {
    "media\t"@ + label + "\t"@ + decimal(size) + "\tcrc32:"@ + hex_digits(crc, 8) + "\n"@
}

/// The lines of a list of parts, in the order given.
pub open spec fn media_lines(items: Seq<(Seq<char>, nat, nat)>) -> Seq<char>
    decreases items.len(),
{
    if items.len() == 0 {
        Seq::empty()
    } else {
        media_lines(items.drop_last()) + media_line(items.last().0, items.last().1, items.last().2)
    }
}

/// The sizes of a list of parts added up.
pub open spec fn total_size(items: Seq<(Seq<char>, nat, nat)>) -> nat
    decreases items.len(),
{
    if items.len() == 0 {
        0
    } else {
        total_size(items.drop_last()) + items.last().1
    }
}

/// Every part has its own line, in the order given: the lines of two lists
/// together are the lines of each, one after the other.
pub proof fn each_part_has_its_own_line(a: Seq<(Seq<char>, nat, nat)>, b: Seq<(Seq<char>, nat, nat)>)
    ensures
        media_lines(a + b) == media_lines(a) + media_lines(b),
        forall|x: (Seq<char>, nat, nat)| #[trigger] media_lines(seq![x]) == media_line(x.0, x.1, x.2),
    decreases b.len(),
{
    assert forall|x: (Seq<char>, nat, nat)| #[trigger] media_lines(seq![x]) == media_line(x.0, x.1, x.2) by {
        let one = seq![x];
        assert(one.drop_last() =~= Seq::<(Seq<char>, nat, nat)>::empty());
        assert(media_lines(one.drop_last()) == Seq::<char>::empty());
        assert(one.last() == x);
        assert(media_lines(one) =~= media_line(x.0, x.1, x.2));
    }
    if b.len() == 0 {
        assert(a + b =~= a);
        assert(media_lines(b) == Seq::<char>::empty());
        assert(media_lines(a) + media_lines(b) =~= media_lines(a));
    } else {
        each_part_has_its_own_line(a, b.drop_last());
        assert((a + b).drop_last() =~= a + b.drop_last());
        assert((a + b).last() == b.last());
        let x = media_lines(a);
        let y = media_lines(b.drop_last());
        let z = media_line(b.last().0, b.last().1, b.last().2);
        assert(x + y + z =~= x + (y + z));
    }
}

/// The total size of parts is the sum of their sizes: a single part counts
/// its own size, and two lists together count what each counts.
pub proof fn the_total_size_adds_up(a: Seq<(Seq<char>, nat, nat)>, b: Seq<(Seq<char>, nat, nat)>)
    ensures
        total_size(a + b) == total_size(a) + total_size(b),
        forall|x: (Seq<char>, nat, nat)| #[trigger] total_size(seq![x]) == x.1,
        total_size(Seq::<(Seq<char>, nat, nat)>::empty()) == 0,
    decreases b.len(),
{
    assert forall|x: (Seq<char>, nat, nat)| #[trigger] total_size(seq![x]) == x.1 by {
        let one = seq![x];
        assert(one.drop_last() =~= Seq::<(Seq<char>, nat, nat)>::empty());
        assert(total_size(one.drop_last()) == 0);
        assert(one.last() == x);
        assert(total_size(one) == total_size(one.drop_last()) + one.last().1);
    }
    if b.len() == 0 {
        assert(a + b =~= a);
    } else {
        the_total_size_adds_up(a, b.drop_last());
        assert((a + b).drop_last() =~= a + b.drop_last());
        assert((a + b).last() == b.last());
    }
}

/// Parts are ordered by fingerprint: by CRC-32, then by size.
pub open spec fn fingerprint_le(a: (Seq<char>, nat, nat), b: (Seq<char>, nat, nat)) -> bool {
    a.2 < b.2 || (a.2 == b.2 && a.1 <= b.1)
}

/// The order of parts as a function of their abstract values: CRC-32,
/// then size.
pub open spec fn media_key_fn() -> spec_fn((Seq<char>, nat, nat)) -> (int, int) {
    |m: (Seq<char>, nat, nat)| (m.2 as int, m.1 as int)
}

/// `items` in fingerprint order, parts that compare equal keeping the order
/// they came in.
pub open spec fn sort_media(items: Seq<(Seq<char>, nat, nat)>) -> Seq<(Seq<char>, nat, nat)> {
    sort_by(items, media_key_fn())
}

/// The parts as content keys see them: the name replaced by its extension.
pub open spec fn labelled(items: Seq<(Seq<char>, nat, nat)>) -> Seq<(Seq<char>, nat, nat)> {
    items.map_values(|m: (Seq<char>, nat, nat)| (extension_label(m.0), m.1, m.2))
}

/// The media lines for a list of parts in archive order: with `--list` one
/// line with their number and total size (nothing when there are none);
/// otherwise one line per part, by part name in archive order under address
/// keys, by extension in fingerprint order under content keys.
pub open spec fn media_output(items: Seq<(Seq<char>, nat, nat)>, keys: Keys, list: bool) -> Seq<char> {
    if list {
        if items.len() == 0 {
            Seq::empty()
        } else {
            "media\t"@ + decimal(items.len()) + " files\t"@ + decimal(total_size(items)) + " bytes\n"@
        }
    } else {
        match keys {
            Keys::Address => media_lines(items),
            Keys::Content => media_lines(sort_media(labelled(items))),
        }
    }
}

/// The media parts of the archive from entry `i` on, in archive order, or
/// the first failure met while reading them. Names come from the zip
/// directory, so only a picture or embedded object whose fingerprint cannot
/// be had fails, and it is named in the message.
pub open spec fn collect_media(archive: Seq<u8>, count: nat, i: nat) -> Result<Seq<(Seq<char>, nat, nat)>, Seq<char>>
    decreases count - i,
{
    if i >= count {
        Ok(Seq::empty())
    } else {
        match zip_listed_name(archive, i) {
            None => collect_media(archive, count, i + 1),
            Some(name) => if !is_media_name(name) {
                collect_media(archive, count, i + 1)
            } else {
                match zip_entry_fingerprint(archive, i) {
                    Err(m) => Err(name + ": "@ + m),
                    Ok((size, crc)) => match collect_media(archive, count, i + 1) {
                        Err(m) => Err(m),
                        Ok(rest) => Ok(seq![(name, size, crc)] + rest),
                    },
                }
            },
        }
    }
}

/// The media lines and the failure, if any, for the package `package`.
/// Something that is not a zip archive (an older binary spreadsheet, say)
/// has no parts and gives no line.
pub open spec fn media_spec(package: Seq<u8>, keys: Keys, list: bool) -> (Seq<char>, Option<Seq<char>>) {
    match zip_entry_count(package) {
        Err(_) => (Seq::empty(), None),
        Ok(count) => match collect_media(package, count, 0) {
            Err(m) => (Seq::empty(), Some(m)),
            Ok(items) => (media_output(items, keys, list), None),
        },
    }
}

/// Whether no entry of the archive is listed under the name of a picture or
/// embedded object.
pub open spec fn holds_no_media(archive: Seq<u8>) -> bool {
    forall|i: nat| #[trigger] zip_listed_name(archive, i) matches Some(n) ==> !is_media_name(n)
}

proof fn lemma_no_media_collects_nothing(archive: Seq<u8>, count: nat, i: nat)
    requires
        holds_no_media(archive),
    ensures
        collect_media(archive, count, i) == Ok::<Seq<(Seq<char>, nat, nat)>, Seq<char>>(Seq::empty()),
    decreases count - i,
{
    if i < count {
        assert(zip_listed_name(archive, i) matches Some(n) ==> !is_media_name(n));
        lemma_no_media_collects_nothing(archive, count, i + 1);
    }
}

/// A package without pictures or embedded objects gains no line and no
/// failure from the listing, whatever else its entries hold.
pub proof fn a_package_without_pictures_gains_nothing(package: Seq<u8>, keys: Keys, list: bool)
    requires
        holds_no_media(package),
    ensures
        media_spec(package, keys, list) == (Seq::<char>::empty(), None::<Seq<char>>),
{
    if let Ok(count) = zip_entry_count(package) {
        lemma_no_media_collects_nothing(package, count, 0);
        assert(media_output(Seq::empty(), keys, list) =~= Seq::<char>::empty()) by {
            assert(sort_media(labelled(Seq::<(Seq<char>, nat, nat)>::empty())).len() == 0) by {
                assert(labelled(Seq::<(Seq<char>, nat, nat)>::empty()) =~= Seq::<(Seq<char>, nat, nat)>::empty());
            }
        }
    }
}

/// Only a picture or embedded object can make the listing fail: the
/// failure names an entry listed as one, whose fingerprint cannot be had.
pub proof fn only_pictures_can_fail(archive: Seq<u8>, count: nat, i: nat)
    ensures
        collect_media(archive, count, i) matches Err(m) ==> exists|j: nat|
            #![trigger zip_listed_name(archive, j)]
            i <= j < count && (zip_listed_name(archive, j) matches Some(n) && is_media_name(n) && (zip_entry_fingerprint(
                archive,
                j,
            ) matches Err(e) && m == n + ": "@ + e)),
    decreases count - i,
{
    if i < count {
        only_pictures_can_fail(archive, count, i + 1);
        if let Err(m) = collect_media(archive, count, i) {
            if let Some(n) = zip_listed_name(archive, i) {
                if is_media_name(n) {
                    if let Err(e) = zip_entry_fingerprint(archive, i) {
                        assert(zip_listed_name(archive, i) == Some(n));
                    }
                }
            }
        }
    }
}

/// Renaming or renumbering parts changes nothing under content keys as long
/// as their extensions, sizes and CRC-32s stay: the lines depend on those
/// alone.
pub proof fn renumbering_a_picture_changes_no_content_line(a: Seq<(Seq<char>, nat, nat)>, b: Seq<(Seq<char>, nat, nat)>)
    requires
        labelled(a) == labelled(b),
    ensures
        media_output(a, Keys::Content, false) == media_output(b, Keys::Content, false),
{
}

/// Whether every part of `s` comes before or with the parts after it.
pub open spec fn media_in_order(s: Seq<(Seq<char>, nat, nat)>) -> bool {
    forall|i: int, j: int| 0 <= i < j < s.len() ==> fingerprint_le(#[trigger] s[i], #[trigger] s[j])
}

/// Under content keys the parts come out in fingerprint order, none lost and
/// none added, so the list does not depend on the part names either.
pub proof fn media_come_out_by_fingerprint(items: Seq<(Seq<char>, nat, nat)>)
    ensures
        media_in_order(sort_media(items)),
        sort_media(items).to_multiset() =~= items.to_multiset(),
{
    sorting_orders_and_keeps(items, media_key_fn());
    let r = sort_media(items);
    assert forall|i: int, j: int| 0 <= i < j < r.len() implies fingerprint_le(#[trigger] r[i], #[trigger] r[j]) by {
        assert(key_le(media_key_fn()(r[i]), media_key_fn()(r[j])));
    }
}

impl Keyed for (String, u64, u32) {
    open spec fn key_spec(&self) -> (int, int) {
        (self.2 as int, self.1 as int)
    }

    fn sort_key(&self) -> (res: (u64, u64)) {
        (self.2 as u64, self.1)
    }
}

/// `items` stably sorted by fingerprint: by CRC-32, then by size.
pub fn sort_media_parts(items: Vec<MediaPart>) -> (res: Vec<MediaPart>)
    ensures
        media_views(res@) == sort_media(media_views(items@)),
{
    let ghost orig = items@;
    let res = stable_sort(items);
    proof {
        let f = |m: MediaPart| media_view(m);
        assert forall|x: MediaPart| #[trigger] media_key_fn()(f(x)) == key_of::<MediaPart>()(x) by {}
        lemma_sort_by_map(orig, f, key_of::<MediaPart>(), media_key_fn());
        assert(media_views(orig) =~= orig.map_values(f));
        assert(media_views(res@) =~= res@.map_values(f));
    }
    res
}

/// The position of the last `c` in `cs`, if there is one.
fn last_index(cs: &[char], c: char) -> (res: Option<usize>)
    ensures
        match res {
            Some(k) => last_index_of(cs@, c) == k,
            None => last_index_of(cs@, c) == -1,
        },
{
    let mut j: usize = cs.len();
    assert(cs@.take(j as int) =~= cs@);
    while j > 0
        invariant
            j <= cs@.len(),
            last_index_of(cs@, c) == last_index_of(cs@.take(j as int), c),
        decreases j,
    {
        let ghost t = cs@.take(j as int);
        assert(t.last() == cs@[j - 1]);
        if cs[j - 1] == c {
            return Some(j - 1);
        }
        assert(t.drop_last() =~= cs@.take(j - 1));
        j = j - 1;
    }
    None
}

/// What content keys keep of a part name: the extension of its file name,
/// dot included, or `(no extension)`.
pub fn media_label(name: &str) -> (res: String)
    ensures
        res@ == extension_label(name@),
{
    let cs = chars_of(name);
    proof {
        lemma_last_index_bounds(cs@, '.');
    }
    let slash = last_index(cs.as_slice(), '/');
    match last_index(cs.as_slice(), '.') {
        Some(dot) => {
            let after = match slash {
                Some(k) => dot > k,
                None => true,
            };
            if after {
                let mut tail: Vec<char> = Vec::new();
                let mut i: usize = dot;
                while i < cs.len()
                    invariant
                        dot <= i <= cs@.len(),
                        tail@ == cs@.subrange(dot as int, i as int),
                    decreases cs@.len() - i,
                {
                    tail.push(cs[i]);
                    i = i + 1;
                    assert(tail@ =~= cs@.subrange(dot as int, i as int));
                }
                assert(tail@ =~= name@.skip(dot as int));
                string_of(tail.as_slice())
            } else {
                String::from_str("(no extension)")
            }
        },
        None => String::from_str("(no extension)"),
    }
}

/// Whether the part name `cs` is that of a picture or embedded object.
fn is_media(cs: &[char]) -> (res: bool)
    ensures
        res == is_media_name(cs@),
{
    let under = has_prefix(cs, "word/media/") || has_prefix(cs, "word/embeddings/") || has_prefix(cs, "xl/media/")
        || has_prefix(cs, "xl/embeddings/") || has_prefix(cs, "ppt/media/") || has_prefix(cs, "ppt/embeddings/");
    let folder = cs.len() > 0 && cs[cs.len() - 1] == '/';
    under && !folder
}

/// Appends the last `k` hexadecimal digits of `n`.
fn push_hex(out: &mut Vec<char>, n: u32, k: usize)
    ensures
        final(out)@ == old(out)@ + hex_digits(n as nat, k as nat),
    decreases k,
{
    if k > 0 {
        push_hex(out, n / 16, k - 1);
        let d: u8 = (n % 16) as u8;
        if d < 10 {
            out.push((48u8 + d) as char);
        } else {
            out.push((87u8 + d) as char);
        }
    }
}

/// Appends the line of one part.
fn push_media_line(out: &mut Vec<char>, m: &MediaPart)
    ensures
        final(out)@ == old(out)@ + media_line(m.0@, m.1 as nat, m.2 as nat),
{
    let ghost start = out@;
    push_str(out, "media\t");
    push_str(out, m.0.as_str());
    push_str(out, "\t");
    push_decimal(out, m.1 as u128);
    push_str(out, "\tcrc32:");
    push_hex(out, m.2, 8);
    push_str(out, "\n");
    assert(out@ =~= start + media_line(m.0@, m.1 as nat, m.2 as nat));
}

/// Appends the lines of `items` in the order given.
fn push_media_lines(out: &mut Vec<char>, items: &[MediaPart])
    ensures
        final(out)@ == old(out)@ + media_lines(media_views(items@)),
{
    let ghost start = out@;
    let ghost all = media_views(items@);
    let mut i: usize = 0;
    assert(all.take(0) =~= Seq::<(Seq<char>, nat, nat)>::empty());
    while i < items.len()
        invariant
            i <= items@.len(),
            all == media_views(items@),
            out@ == start + media_lines(all.take(i as int)),
        decreases items@.len() - i,
    {
        push_media_line(out, &items[i]);
        assert(all.take(i + 1).drop_last() =~= all.take(i as int));
        assert(all.take(i + 1).last() == media_view(items@[i as int]));
        i = i + 1;
    }
    assert(all.take(items@.len() as int) =~= all);
}

/// Writes the media lines for a list of parts in archive order, as
/// [`media_output`] says: a count and a total size with `list`, otherwise a
/// line per part.
pub fn render_media(items: &[MediaPart], keys: Keys, list: bool, out: &mut String)
    ensures
        final(out)@ == old(out)@ + media_output(media_views(items@), keys, list),
{
    let ghost all = media_views(items@);
    let mut buf: Vec<char> = Vec::new();
    if list {
        if items.len() == 0 {
            return;
        }
        let mut total: u128 = 0;
        let mut i: usize = 0;
        assert(all.take(0) =~= Seq::<(Seq<char>, nat, nat)>::empty());
        while i < items.len()
            invariant
                i <= items@.len(),
                all == media_views(items@),
                total == total_size(all.take(i as int)),
                total <= i as int * u64::MAX as int,
            decreases items@.len() - i,
        {
            assert(all.take(i + 1).drop_last() =~= all.take(i as int));
            let k = items[i].1;
            assert(total + k <= (i + 1) as int * u64::MAX as int) by (nonlinear_arith)
                requires
                    total <= i as int * u64::MAX as int,
                    k <= u64::MAX;
            assert((i + 1) as int * u64::MAX as int <= u128::MAX) by (nonlinear_arith)
                requires
                    i < usize::MAX,
                    usize::MAX <= u64::MAX;
            total = total + k as u128;
            i = i + 1;
        }
        assert(all.take(items@.len() as int) =~= all);
        push_str(&mut buf, "media\t");
        push_decimal(&mut buf, items.len() as u128);
        push_str(&mut buf, " files\t");
        push_decimal(&mut buf, total);
        push_str(&mut buf, " bytes\n");
        assert(buf@ =~= media_output(all, keys, list));
    } else {
        match keys {
            Keys::Address => push_media_lines(&mut buf, items),
            Keys::Content => {
                let mut named: Vec<MediaPart> = Vec::new();
                let mut i: usize = 0;
                while i < items.len()
                    invariant
                        i <= items@.len(),
                        all == media_views(items@),
                        media_views(named@) == labelled(all).take(i as int),
                    decreases items@.len() - i,
                {
                    let m = &items[i];
                    let ghost before = media_views(named@);
                    let label = media_label(m.0.as_str());
                    named.push((label, m.1, m.2));
                    assert(all[i as int] == media_view(*m));
                    assert(media_views(named@) =~= before.push((extension_label(m.0@), m.1 as nat, m.2 as nat)));
                    assert(media_views(named@) =~= labelled(all).take(i + 1));
                    i = i + 1;
                }
                assert(labelled(all).take(items@.len() as int) =~= labelled(all));
                let sorted = sort_media_parts(named);
                push_media_lines(&mut buf, sorted.as_slice());
            },
        }
    }
    append_chars(out, buf.as_slice());
}

/// Lists the pictures and embedded objects of a package, given the bytes of
/// its file: one line per part, or with `list` their number and total size.
/// Something that is not a zip archive gives no line.
pub fn media(package: &[u8], keys: Keys, list: bool, out: &mut String) -> (res: Result<(), String>)
    ensures
        final(out)@ == old(out)@ + media_spec(package@, keys, list).0,
        match media_spec(package@, keys, list).1 {
            Some(m) => res matches Err(e) && e@ == m,
            None => res is Ok,
        },
{
    let count = match entry_count(package) {
        Ok(n) => n,
        Err(_) => {
            return Ok(());
        },
    };
    let mut items: Vec<MediaPart> = Vec::new();
    let mut i: usize = 0;
    while i < count
        invariant
            i <= count,
            zip_entry_count(package@) == Ok::<nat, Seq<char>>(count as nat),
            collect_media(package@, count as nat, 0) == match collect_media(package@, count as nat, i as nat) {
                Ok(rest) => Ok(media_views(items@) + rest),
                Err(m) => Err(m),
            },
            out@ == old(out)@,
        decreases count - i,
    {
        let listed = listed_name(package, i);
        if let Some(name) = listed {
            let cs = chars_of(name.as_str());
            if is_media(cs.as_slice()) {
                let (size, crc) = match entry_fingerprint(package, i) {
                    Ok(f) => f,
                    Err(m) => {
                        let mut msg = name.clone();
                        msg.append(": ");
                        msg.append(m.as_str());
                        return Err(msg);
                    },
                };
                let ghost mv = media_views(items@);
                items.push((name, size, crc));
                proof {
                    let q = (cs@, size as nat, crc as nat);
                    assert(media_views(items@) =~= mv.push(q));
                    match collect_media(package@, count as nat, (i + 1) as nat) {
                        Ok(rest) => {
                            assert(mv + (seq![q] + rest) =~= mv.push(q) + rest);
                        },
                        Err(_) => {},
                    }
                }
            }
        }
        i = i + 1;
    }
    render_media(items.as_slice(), keys, list, out);
    Ok(())
}

} // verus!

//! Choosing the renderer by file extension, and one whole invocation.

use vstd::prelude::*;

use crate::media::{a_package_without_pictures_gains_nothing, holds_no_media, media, media_spec};
use crate::options::{keys_for, lemma_parse_front, opt_text, parse_args, parse_spec, same_text, texts, Keys, Options, ParsedSpec};
use crate::sheet::{sheets_output, spreadsheet, Workbook};
use crate::slides::{slides, slides_spec};
use crate::word::{word, word_spec};

verus! {

/// The component that `Path::file_name` gives on Unix: the last component
/// once separators are collapsed and `.` components dropped, unless that is
/// `..`.
pub open spec fn file_name_spec(path: Seq<char>) -> Option<Seq<char>>
    decreases path.len(),
{
    let cut = last_component_start(path);
    let last = path.skip(cut);
    if last.len() == 0 || last == "."@ {
        if cut <= 0 {
            None
        } else {
            proof {
                lemma_component_start_bounds(path);
            }
            file_name_spec(path.take(cut - 1))
        }
    } else if last == ".."@ {
        None
    } else {
        Some(last)
    }
}

/// Where the text after the last `/` of `path` starts.
pub open spec fn last_component_start(path: Seq<char>) -> int
    decreases path.len(),
{
    if path.len() == 0 {
        0
    } else if path.last() == '/' {
        path.len() as int
    } else {
        last_component_start(path.drop_last())
    }
}

/// The start of the last component lies within the path.
pub proof fn lemma_component_start_bounds(path: Seq<char>)
    ensures
        0 <= last_component_start(path) <= path.len(),
    decreases path.len(),
{
    if path.len() > 0 && path.last() != '/' {
        lemma_component_start_bounds(path.drop_last());
    }
}

/// The position of the last `.` in `name`, or -1.
pub open spec fn last_dot(name: Seq<char>) -> int
    decreases name.len(),
{
    if name.len() == 0 {
        -1
    } else if name.last() == '.' {
        name.len() - 1
    } else {
        last_dot(name.drop_last())
    }
}

/// What `Path::extension` gives on Unix: the text after the last `.` of the
/// file name, unless there is no `.` or the only one starts the name.
pub open spec fn extension_spec(path: Seq<char>) -> Option<Seq<char>> {
    match file_name_spec(path) {
        None => None,
        Some(name) => if last_dot(name) <= 0 {
            None
        } else {
            Some(name.skip(last_dot(name) + 1))
        },
    }
}

/// std's `Path::new(path).extension()`, as text (lossless, since the path is
/// UTF-8). Claimed: it is `extension_spec` of the path, which restates the
/// documented rules for Unix paths.
#[verifier::external_body]
fn extension_of(path: &str) -> (res: Option<String>)
    ensures
        opt_text(res) == extension_spec(path@),
{
    std::path::Path::new(path).extension().map(|e| e.to_string_lossy().into_owned())
}

/// What `str::to_lowercase` gives: the Unicode lowercase mapping of every
/// character.
pub uninterp spec fn lowercase(s: Seq<char>) -> Seq<char>;

/// ASCII text with its capital letters made small.
pub open spec fn ascii_lowercase(s: Seq<char>) -> Seq<char> {
    s.map_values(|c: char| if 'A' <= c && c <= 'Z' { ((c as u32) + 32) as char } else { c })
}

/// Whether every character of `s` is ASCII.
pub open spec fn all_ascii(s: Seq<char>) -> bool {
    forall|i: int| 0 <= i < s.len() ==> (#[trigger] s[i] as u32) < 128
}

/// std's `str::to_lowercase`. Claimed: its result is `lowercase` of the
/// text, a function of the text alone (the mapping does not depend on a
/// locale), and on ASCII text it only makes `A` to `Z` small, as the
/// documentation of `char::to_lowercase` says.
#[verifier::external_body]
fn to_lowercase(s: &str) -> (res: String)
    ensures
        res@ == lowercase(s@),
        all_ascii(s@) ==> res@ == ascii_lowercase(s@),
{
    s.to_lowercase()
}

/// The extension of `path`, when it is ASCII, is read with its capitals made
/// small: the renderer it selects is that of its ASCII lower case.
pub open spec fn ascii_extension_read_case_blind(path: Seq<char>) -> bool {
    match extension_spec(path) {
        Some(e) => all_ascii(e) ==> dispatch_extension(path) == ascii_lowercase(e),
        None => true,
    }
}

/// The kinds of document this tool renders.
#[derive(Clone, Copy, Debug, PartialEq, Eq, Structural)]
pub enum Format {
    Spreadsheet,
    Word,
    Slides,
}

/// The extension that decides the renderer: the file's extension in lower
/// case, or nothing.
pub open spec fn dispatch_extension(path: Seq<char>) -> Seq<char> {
    match extension_spec(path) {
        Some(e) => lowercase(e),
        None => Seq::empty(),
    }
}

/// The renderer for an extension, or the message for one that has none.
pub open spec fn format_for(ext: Seq<char>) -> Result<Format, Seq<char>> {
    if ext == "xlsx"@ || ext == "xlsm"@ || ext == "xltx"@ || ext == "xltm"@ || ext == "xls"@ || ext == "xlsb"@
        || ext == "ods"@ {
        Ok(Format::Spreadsheet)
    } else if ext == "docx"@ || ext == "dotx"@ {
        Ok(Format::Word)
    } else if ext == "pptx"@ || ext == "potx"@ {
        Ok(Format::Slides)
    } else {
        Err("unsupported extension: "@ + ext)
    }
}

/// The renderer for an extension that is already in lower case.
pub fn format_for_extension(ext: &str) -> (res: Result<Format, String>)
    ensures
        match format_for(ext@) {
            Ok(f) => res == Ok::<Format, String>(f),
            Err(m) => res matches Err(e) && e@ == m,
        },
{
    if same_text(ext, "xlsx") || same_text(ext, "xlsm") || same_text(ext, "xltx") || same_text(ext, "xltm")
        || same_text(ext, "xls") || same_text(ext, "xlsb") || same_text(ext, "ods") {
        Ok(Format::Spreadsheet)
    } else if same_text(ext, "docx") || same_text(ext, "dotx") {
        Ok(Format::Word)
    } else if same_text(ext, "pptx") || same_text(ext, "potx") {
        Ok(Format::Slides)
    } else {
        let mut m = String::from_str("unsupported extension: ");
        m.append(ext);
        Err(m)
    }
}

/// The renderer that the extension of `path` selects, its case ignored.
pub fn format_of(path: &str) -> (res: Result<Format, String>)
    ensures
        match format_for(dispatch_extension(path@)) {
            Ok(f) => res == Ok::<Format, String>(f),
            Err(m) => res matches Err(e) && e@ == m,
        },
        ascii_extension_read_case_blind(path@),
{
    let ext = match extension_of(path) {
        Some(e) => to_lowercase(e.as_str()),
        None => String::new(),
    };
    format_for_extension(ext.as_str())
}

/// What was read from the file: the workbook for a spreadsheet, and the
/// bytes of the file (the package of a docx, pptx or xlsx), or why either
/// could not be read. The workbook is looked at only for a spreadsheet; the
/// bytes are rendered for a docx or pptx and listed for pictures in every
/// case.
pub struct Source {
    pub workbook: Result<Workbook, String>,
    pub package: Result<Vec<u8>, String>,
}

/// The output and the failure, if any, of the renderer that the extension
/// of `path` selects.
pub open spec fn document_spec(
    path: Seq<char>,
    filter: Option<Seq<char>>,
    list: bool,
    row: bool,
    src: Source,
) -> (Seq<char>, Option<Seq<char>>) {
    match format_for(dispatch_extension(path)) {
        Err(m) => (Seq::empty(), Some(m)),
        Ok(Format::Spreadsheet) => match src.workbook {
            Err(m) => (Seq::empty(), Some(m@)),
            Ok(b) => (sheets_output(b.sheets@, filter, list, keys_for(row)), None),
        },
        Ok(Format::Word) => match src.package {
            Err(m) => (Seq::empty(), Some(m@)),
            Ok(p) => word_spec(p@, keys_for(row)),
        },
        Ok(Format::Slides) => match src.package {
            Err(m) => (Seq::empty(), Some(m@)),
            Ok(p) => slides_spec(p@, keys_for(row)),
        },
    }
}

/// The output and the failure, if any, of rendering `path` with the given
/// sheet filter, `--list` and `--row`: the document's own lines, then, unless
/// one sheet was asked for, the lines of its pictures and embedded objects.
/// Bytes that could not be read have no pictures.
pub open spec fn render_spec(
    path: Seq<char>,
    filter: Option<Seq<char>>,
    list: bool,
    row: bool,
    src: Source,
) -> (Seq<char>, Option<Seq<char>>) {
    let doc = document_spec(path, filter, list, row, src);
    if doc.1 is Some || filter is Some {
        doc
    } else {
        match src.package {
            Err(_) => doc,
            Ok(p) => {
                let m = media_spec(p@, keys_for(row), list);
                (doc.0 + m.0, m.1)
            },
        }
    }
}

/// A package without pictures or embedded objects renders exactly as its
/// document renderer renders it, whatever else its entries hold.
pub proof fn a_package_without_pictures_renders_as_its_document(
    path: Seq<char>,
    filter: Option<Seq<char>>,
    list: bool,
    row: bool,
    src: Source,
)
    requires
        src.package matches Ok(p) ==> holds_no_media(p@),
    ensures
        render_spec(path, filter, list, row, src) == document_spec(path, filter, list, row, src),
{
    if let Ok(p) = src.package {
        a_package_without_pictures_gains_nothing(p@, keys_for(row), list);
        let d = document_spec(path, filter, list, row, src);
        assert(d.0 + Seq::<char>::empty() =~= d.0);
    }
}

/// The `--row` flag chooses the key scheme, and nothing else does: without
/// it a document is rendered with address keys, with it with content keys,
/// whatever its format.
pub proof fn the_row_flag_chooses_the_keys(path: Seq<char>, filter: Option<Seq<char>>, list: bool, src: Source)
    ensures
        format_for(dispatch_extension(path)) == Ok::<Format, Seq<char>>(Format::Spreadsheet) && src.workbook is Ok
            ==> document_spec(path, filter, list, false, src) == (
            sheets_output(src.workbook->Ok_0.sheets@, filter, list, Keys::Address),
            None::<Seq<char>>,
        ) && document_spec(path, filter, list, true, src) == (
            sheets_output(src.workbook->Ok_0.sheets@, filter, list, Keys::Content),
            None::<Seq<char>>,
        ),
        format_for(dispatch_extension(path)) == Ok::<Format, Seq<char>>(Format::Word) && src.package is Ok
            ==> document_spec(path, filter, list, false, src) == word_spec(src.package->Ok_0@, Keys::Address)
            && document_spec(path, filter, list, true, src) == word_spec(src.package->Ok_0@, Keys::Content),
        format_for(dispatch_extension(path)) == Ok::<Format, Seq<char>>(Format::Slides) && src.package is Ok
            ==> document_spec(path, filter, list, false, src) == slides_spec(src.package->Ok_0@, Keys::Address)
            && document_spec(path, filter, list, true, src) == slides_spec(src.package->Ok_0@, Keys::Content),
        src.package is Ok && filter is None && document_spec(path, filter, list, false, src).1 is None
            ==> render_spec(path, filter, list, false, src).0 == document_spec(path, filter, list, false, src).0
            + media_spec(src.package->Ok_0@, Keys::Address, list).0,
        src.package is Ok && filter is None && document_spec(path, filter, list, true, src).1 is None
            ==> render_spec(path, filter, list, true, src).0 == document_spec(path, filter, list, true, src).0
            + media_spec(src.package->Ok_0@, Keys::Content, list).0,
{
}

/// The renderer that the extension selects, on what was read.
fn render_document(path: &str, opts: &Options, src: &Source, out: &mut String) -> (res: Result<(), String>)
    ensures
        ascii_extension_read_case_blind(path@),
        final(out)@ == old(out)@ + document_spec(path@, opt_text(opts.sheet), opts.list, opts.row, *src).0,
        match document_spec(path@, opt_text(opts.sheet), opts.list, opts.row, *src).1 {
            Some(m) => res matches Err(e) && e@ == m,
            None => res is Ok,
        },
{
    match format_of(path) {
        Err(m) => Err(m),
        Ok(Format::Spreadsheet) => match &src.workbook {
            Err(m) => Err(m.clone()),
            Ok(b) => {
                spreadsheet(b, opts, out);
                Ok(())
            },
        },
        Ok(Format::Word) => match &src.package {
            Err(m) => Err(m.clone()),
            Ok(p) => word(p.as_slice(), opts.keys(), out),
        },
        Ok(Format::Slides) => match &src.package {
            Err(m) => Err(m.clone()),
            Ok(p) => slides(p.as_slice(), opts.keys(), out),
        },
    }
}

/// Dispatch on the file extension: xlsx, xlsm, xltx, xltm, xls, xlsb and ods
/// are spreadsheets, docx and dotx documents, pptx and potx presentations.
/// Unless one sheet was asked for, the pictures and embedded objects of the
/// package follow.
pub fn render(path: &str, opts: &Options, src: &Source, out: &mut String) -> (res: Result<(), String>)
    ensures
        ascii_extension_read_case_blind(path@),
        final(out)@ == old(out)@ + render_spec(path@, opt_text(opts.sheet), opts.list, opts.row, *src).0,
        match render_spec(path@, opt_text(opts.sheet), opts.list, opts.row, *src).1 {
            Some(m) => res matches Err(e) && e@ == m,
            None => res is Ok,
        },
{
    let ghost start = out@;
    render_document(path, opts, src, out)?;
    if opts.sheet.is_some() {
        return Ok(());
    }
    match &src.package {
        Err(_) => Ok(()),
        Ok(p) => {
            let ghost mid = out@;
            let r = media(p.as_slice(), opts.keys(), opts.list, out);
            assert(out@ =~= start + (mid.subrange(start.len() as int, mid.len() as int) + (out@.subrange(
                mid.len() as int,
                out@.len() as int,
            ))));
            r
        },
    }
}

/// What one invocation writes to standard output for a parsed command line:
/// the rendering, then the failure, if any, as a marked line. A damaged file
/// still leaves through standard output, so that git keeps the diff.
pub open spec fn run_output(parsed: (Seq<char>, Option<Seq<char>>, bool, bool), src: Source) -> Seq<char> {
    let r = render_spec(parsed.0, parsed.1, parsed.2, parsed.3, src);
    match r.1 {
        Some(e) => r.0 + "!! oyomi: "@ + e + "\n"@,
        None => r.0,
    }
}

/// An invocation renders with exactly the options it parsed: its output is
/// the rendering of the parsed path with the parsed sheet filter, `--list`
/// and `--row`, followed by the failure line if rendering failed; and adding
/// `--list` (or `--row`) to a command line renders the same path with that
/// option set and the others as they were.
pub proof fn an_invocation_renders_with_the_options_it_parsed(args: Seq<Seq<char>>, src: Source)
    ensures
        parse_spec(args) matches Ok((p, sheet, list, row)) ==> run_output((p, sheet, list, row), src) == (match render_spec(
            p,
            sheet,
            list,
            row,
            src,
        ).1 {
            Some(e) => render_spec(p, sheet, list, row, src).0 + "!! oyomi: "@ + e + "\n"@,
            None => render_spec(p, sheet, list, row, src).0,
        }),
        parse_spec(args) matches Ok((p, sheet, list, row)) ==> parse_spec(seq!["--list"@] + args) == Ok::<
            ParsedSpec,
            Seq<char>,
        >((p, sheet, true, row)) && parse_spec(seq!["--row"@] + args) == Ok::<ParsedSpec, Seq<char>>(
            (p, sheet, list, true),
        ),
{
    reveal_strlit("--sheet");
    reveal_strlit("--list");
    reveal_strlit("--row");
    assert("--sheet"@.len() == 7 && "--list"@.len() == 6 && "--row"@.len() == 5);
    if let Ok((p, sheet, list, row)) = parse_spec(args) {
        lemma_parse_front("--list"@, args);
        lemma_parse_front("--row"@, args);
    }
}

/// Run one invocation: the arguments, what was read for the file they
/// name, and the two output streams. Returns the process exit code: 2 for a
/// command line that does not parse (its message on `err`), 0 otherwise, a
/// rendering failure included.
pub fn run(args: &[String], src: &Source, out: &mut String, err: &mut String) -> (code: i32)
    ensures
        match parse_spec(texts(args@)) {
            Err(m) => code == 2 && final(err)@ == old(err)@ + m + "\n"@ && final(out)@ == old(out)@,
            Ok(parsed) => code == 0 && final(err)@ == old(err)@ && final(out)@ == old(out)@ + run_output(parsed, *src)
                && ascii_extension_read_case_blind(parsed.0),
        },
{
    match parse_args(args) {
        Err(m) => {
            err.append(m.as_str());
            err.append("\n");
            2
        },
        Ok((path, opts)) => {
            if let Err(e) = render(path.as_str(), &opts, src, out) {
                out.append("!! oyomi: ");
                out.append(e.as_str());
                out.append("\n");
            }
            0
        },
    }
}

} // verus!

use std::io::Write;

use oyomi::{render, spreadsheet, Grid, Options, Sheet, Source, Workbook};
use zip::write::SimpleFileOptions;

/// A range whose top-left cell is `start`, rows given top to bottom; `None`
/// is an empty cell. This is what the reader hands over for a worksheet.
fn grid(start: (u32, u32), rows: &[&[Option<&str>]]) -> Grid {
    let width = rows.iter().map(|r| r.len()).max().unwrap_or(0);
    Grid {
        start: Some(start),
        height: rows.len(),
        width,
        rows: rows
            .iter()
            .map(|r| r.iter().map(|c| c.map(|s| s.to_string())).collect())
            .collect(),
    }
}

fn book(sheets: Vec<(&str, Result<Grid, String>)>) -> Source {
    Source {
        workbook: Ok(Workbook {
            sheets: sheets
                .into_iter()
                .map(|(name, content)| Sheet { name: name.to_string(), content })
                .collect(),
        }),
        package: Err(String::from("no package was read")),
    }
}

fn package(bytes: Vec<u8>) -> Source {
    Source {
        workbook: Err(String::from("no workbook was read")),
        package: Ok(bytes),
    }
}

fn out(path: &str, opts: &Options, src: &Source) -> String {
    let mut buf = String::new();
    render(path, opts, src, &mut buf).unwrap();
    buf
}

fn cells() -> Options {
    Options::default()
}

fn rows() -> Options {
    Options {
        row: true,
        ..Options::default()
    }
}

fn pack(parts: &[(&str, String)]) -> Vec<u8> {
    let mut buf = Vec::new();
    {
        let mut z = zip::ZipWriter::new(std::io::Cursor::new(&mut buf));
        let opts = SimpleFileOptions::default();
        for (part, body) in parts {
            z.start_file(*part, opts).unwrap();
            z.write_all(body.as_bytes()).unwrap();
        }
        z.finish().unwrap();
    }
    buf
}

fn docx(body: &[String]) -> Vec<u8> {
    let doc = format!(
        r#"<?xml version="1.0" encoding="UTF-8" standalone="yes"?>
<w:document xmlns:w="http://schemas.openxmlformats.org/wordprocessingml/2006/main"><w:body>{}</w:body></w:document>"#,
        body.concat()
    );
    pack(&[("word/document.xml", doc)])
}

fn para(text: &str) -> String {
    format!(r#"<w:p><w:r><w:t xml:space="preserve">{}</w:t></w:r></w:p>"#, text)
}

fn slide_xml(paragraphs: &[&str]) -> String {
    let ps: String = paragraphs
        .iter()
        .map(|t| format!(r#"<a:p><a:r><a:t>{}</a:t></a:r></a:p>"#, t))
        .collect();
    format!(
        r#"<?xml version="1.0" encoding="UTF-8" standalone="yes"?>
<p:sld xmlns:p="http://schemas.openxmlformats.org/presentationml/2006/main" xmlns:a="http://schemas.openxmlformats.org/drawingml/2006/main"><p:cSld><p:spTree>{ps}</p:spTree></p:cSld></p:sld>"#
    )
}

#[test]
fn cell_keys_carry_sheet_and_address() {
    let f = book(vec![(
        "Items",
        Ok(grid(
            (0, 0),
            &[
                &[Some("Group"), Some("Id"), Some("42")],
                &[Some("group-01"), None, Some("true")],
            ],
        )),
    )]);

    assert_eq!(
        out("addr.xlsx", &cells(), &f),
        "Items!A1\tGroup\n\
         Items!B1\tId\n\
         Items!C1\t42\n\
         Items!A2\tgroup-01\n\
         Items!C2\ttrue\n"
    );
}

#[test]
fn addresses_follow_the_used_range_offset() {
    // Data starting away from A1 must still report its real address.
    let mut row: Vec<Option<&str>> = vec![None; 26];
    row[0] = Some("left");
    row[25] = Some("far right");
    let f = book(vec![("S", Ok(grid((2, 2), &[&row])))]);

    assert_eq!(out("offset.xlsx", &cells(), &f), "S!C3\tleft\nS!AB3\tfar right\n");
}

#[test]
fn row_keys_drop_the_row_number() {
    let f = book(vec![("Items", Ok(grid((0, 0), &[&[Some("Id"), None, Some("Kind")]])))]);

    assert_eq!(out("rowkeys.xlsx", &rows(), &f), "Items\tA=Id\tC=Kind\n");
}

#[test]
fn empty_rows_produce_no_line() {
    let f = book(vec![("S", Ok(grid((0, 0), &[&[Some("x")], &[None], &[Some("y")]])))]);

    assert_eq!(out("gaps.xlsx", &rows(), &f), "S\tA=x\nS\tA=y\n");
    assert_eq!(out("gaps.xlsx", &cells(), &f), "S!A1\tx\nS!A3\ty\n");
}

#[test]
fn tabs_and_newlines_stay_on_one_line() {
    // XML normalises CR to LF before the reader sees it, so the carriage
    // return of the cell arrives as a newline.
    let f = book(vec![("S", Ok(grid((0, 0), &[&[Some("a\nb\tc\\d\ne")]])))]);

    assert_eq!(out("escape.xlsx", &cells(), &f), "S!A1\ta\\nb\\tc\\\\d\\ne\n");
}

#[test]
fn rendered_dates_pass_through_unchanged() {
    let f = book(vec![("S", Ok(grid((0, 0), &[&[Some("2022-01-01 00:00:00")]])))]);

    assert_eq!(out("date.xlsx", &cells(), &f), "S!A1\t2022-01-01 00:00:00\n");
}

#[test]
fn rendered_cell_errors_pass_through_unchanged() {
    let f = book(vec![("S", Ok(grid((0, 0), &[&[Some("#ERR(Div0)")]])))]);

    assert_eq!(out("err.xlsx", &cells(), &f), "S!A1\t#ERR(Div0)\n");
}

#[test]
fn list_reports_dimensions_and_counts() {
    let f = book(vec![
        ("First", Ok(grid((0, 0), &[&[Some("x"), Some("y")]]))),
        ("Second", Ok(grid((0, 0), &[&[Some("z")]]))),
    ]);

    let opts = Options {
        list: true,
        ..Options::default()
    };
    assert_eq!(
        out("list.xlsx", &opts, &f),
        "First\t1x2\t2 cells\nSecond\t1x1\t1 cells\n"
    );
}

#[test]
fn sheet_filter_selects_one_sheet() {
    let f = book(vec![
        ("First", Ok(grid((0, 0), &[&[Some("first")]]))),
        ("Second", Ok(grid((0, 0), &[&[Some("second")]]))),
    ]);

    let opts = Options {
        sheet: Some("Second".into()),
        ..Options::default()
    };
    assert_eq!(out("filter.xlsx", &opts, &f), "Second!A1\tsecond\n");

    let missing = Options {
        sheet: Some("Nope".into()),
        ..Options::default()
    };
    assert_eq!(out("filter.xlsx", &missing, &f), "");
}

#[test]
fn an_unreadable_sheet_does_not_hide_the_others() {
    let f = book(vec![
        ("Good", Ok(grid((0, 0), &[&[Some("kept")]]))),
        ("Broken", Err(String::from("sheet part is missing from the package"))),
    ]);

    let s = out("broken.xlsx", &cells(), &f);
    assert!(s.contains("Good!A1\tkept\n"), "{s}");
    assert!(s.contains("!! sheet Broken:"), "{s}");
    assert_eq!(
        s,
        "Good!A1\tkept\n!! sheet Broken: sheet part is missing from the package\n"
    );
}

#[test]
fn inserting_rows_leaves_the_row_keyed_output_a_superset() {
    let before = book(vec![("S", Ok(grid((0, 0), &[&[Some("h")], &[Some("one")], &[Some("two")]])))]);
    let after = book(vec![(
        "S",
        Ok(grid(
            (0, 0),
            &[&[Some("h")], &[Some("one")], &[Some("inserted")], &[Some("two")]],
        )),
    )]);

    // With content keys an insertion only adds lines: the old rendering is a
    // subsequence of the new one, which is exactly what lets diff stay small.
    assert!(is_subsequence(&out("v1.xlsx", &rows(), &before), &out("v2.xlsx", &rows(), &after)));
    // With address keys it is not, because every row below the insertion is
    // renumbered.
    assert!(!is_subsequence(&out("v1.xlsx", &cells(), &before), &out("v2.xlsx", &cells(), &after)));
}

#[test]
fn the_extension_chooses_the_renderer() {
    let d = package(docx(&[para("word")]));
    assert_eq!(out("dispatch.docx", &rows(), &d), "p\t\tword\n");

    let p = package(pack(&[("ppt/slides/slide1.xml", slide_xml(&["slide"]))]));
    assert_eq!(out("dispatch.pptx", &rows(), &p), "slide001.body\tslide\n");

    // Template extensions take the same path as their document counterparts.
    let dt = package(docx(&[para("template")]));
    assert_eq!(out("dispatch.dotx", &rows(), &dt), "p\t\ttemplate\n");
    let pt = package(pack(&[("ppt/slides/slide1.xml", slide_xml(&["template"]))]));
    assert_eq!(out("dispatch.potx", &rows(), &pt), "slide001.body\ttemplate\n");
}

#[test]
fn unsupported_and_missing_files_report_why() {
    let none = Source {
        workbook: Err(String::from("No such file or directory (os error 2)")),
        package: Err(String::from("No such file or directory (os error 2)")),
    };
    assert_eq!(
        render("x.txt", &cells(), &none, &mut String::new()).unwrap_err(),
        "unsupported extension: txt"
    );
    assert!(render("x", &cells(), &none, &mut String::new())
        .unwrap_err()
        .contains("unsupported extension"));
    assert!(render("no-such-file.xlsx", &cells(), &none, &mut String::new()).is_err());
}

#[test]
fn an_empty_range_gives_no_cells_and_a_zero_size() {
    let empty = Grid { start: None, height: 0, width: 0, rows: Vec::new() };
    let f = book(vec![("Blank", Ok(empty))]);
    assert_eq!(out("blank.xlsx", &cells(), &f), "");
    assert_eq!(out("blank.xlsx", &rows(), &f), "");
    let list = Options {
        list: true,
        ..Options::default()
    };
    assert_eq!(out("blank.xlsx", &list, &f), "Blank\t0x0\t0 cells\n");
}

#[test]
fn spreadsheet_appends_to_what_is_there() {
    let src = book(vec![("S", Ok(grid((9, 701), &[&[Some("v"), Some("w")]])))]);
    let b = match &src.workbook {
        Ok(b) => b,
        Err(_) => unreachable!(),
    };
    let mut s = String::from("before\n");
    spreadsheet(b, &cells(), &mut s);
    assert_eq!(s, "before\nS!ZZ10\tv\nS!AAA10\tw\n");
    let mut r = String::new();
    spreadsheet(b, &rows(), &mut r);
    assert_eq!(r, "S\tZZ=v\tAAA=w\n");
}

fn is_subsequence(a: &str, b: &str) -> bool {
    let mut it = b.lines();
    a.lines().all(|line| it.any(|c| c == line))
}

#[test]
fn widening_the_range_keeps_row_lines() {
    let narrow = book(vec![("S", Ok(grid((0, 2), &[&[Some("x"), None, Some("y")]])))]);
    let wide = book(vec![(
        "S",
        Ok(grid((0, 0), &[&[None, None, Some("x"), None, Some("y"), None], &[None, Some("new"), None, None, None, None]])),
    )]);
    let a = out("narrow.xlsx", &rows(), &narrow);
    let b = out("wide.xlsx", &rows(), &wide);
    assert_eq!(a, "S\tC=x\tE=y\n");
    assert_eq!(b, "S\tC=x\tE=y\nS\tB=new\n");
}

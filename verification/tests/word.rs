use std::io::Write;

use oyomi::{
    part_fault_text, read_events, render, word, word_events, word_xml, Keys, Options, PartFault, Source, XmlEvent,
    DOCUMENT_PART,
};
use zip::write::SimpleFileOptions;

fn pack_bytes(parts: &[(&str, Vec<u8>)]) -> Vec<u8> {
    let mut buf = Vec::new();
    {
        let mut z = zip::ZipWriter::new(std::io::Cursor::new(&mut buf));
        let opts = SimpleFileOptions::default();
        for (part, body) in parts {
            z.start_file(*part, opts).unwrap();
            z.write_all(body).unwrap();
        }
        z.finish().unwrap();
    }
    buf
}

fn pack(parts: &[(&str, String)]) -> Vec<u8> {
    let owned: Vec<(&str, Vec<u8>)> = parts.iter().map(|(p, b)| (*p, b.as_bytes().to_vec())).collect();
    pack_bytes(&owned)
}

fn xml_escape(s: &str) -> String {
    s.replace('&', "&amp;").replace('<', "&lt;").replace('>', "&gt;")
}

fn para(text: &str) -> String {
    format!(r#"<w:p><w:r><w:t xml:space="preserve">{}</w:t></w:r></w:p>"#, xml_escape(text))
}

fn para_styled(style: &str, text: &str) -> String {
    format!(
        r#"<w:p><w:pPr><w:pStyle w:val="{style}"/></w:pPr><w:r><w:t xml:space="preserve">{}</w:t></w:r></w:p>"#,
        xml_escape(text)
    )
}

fn para_deleted(text: &str) -> String {
    format!(
        r#"<w:p><w:del><w:r><w:delText xml:space="preserve">{}</w:delText></w:r></w:del></w:p>"#,
        xml_escape(text)
    )
}

fn table(cells: &[&str]) -> String {
    let tcs: String = cells.iter().map(|c| format!("<w:tc>{}</w:tc>", para(c))).collect();
    format!("<w:tbl><w:tr>{tcs}</w:tr></w:tbl>")
}

fn para_with_empty_elements(text: &str) -> String {
    format!(
        r#"<w:p><w:pPr><w:pStyle w:themeShade="1" w:val="Body"/><w:spacing w:after="0"/></w:pPr><w:r><w:br/><w:t xml:space="preserve">{}</w:t></w:r></w:p>"#,
        xml_escape(text)
    )
}

fn para_raw(xml: &str) -> String {
    xml.to_string()
}

fn document_xml(body: &[String]) -> String {
    format!(
        r#"<?xml version="1.0" encoding="UTF-8" standalone="yes"?>
<w:document xmlns:w="http://schemas.openxmlformats.org/wordprocessingml/2006/main"><w:body>{}</w:body></w:document>"#,
        body.concat()
    )
}

fn docx(body: &[String]) -> Vec<u8> {
    pack(&[
        ("[Content_Types].xml", String::from(r#"<?xml version="1.0" encoding="UTF-8" standalone="yes"?><Types xmlns="http://schemas.openxmlformats.org/package/2006/content-types"/>"#)),
        ("_rels/.rels", String::from(r#"<Relationships xmlns="http://schemas.openxmlformats.org/package/2006/relationships"/>"#)),
        ("word/document.xml", document_xml(body)),
    ])
}

fn out(package: &[u8], keys: Keys) -> String {
    let mut buf = String::new();
    word(package, keys, &mut buf).unwrap();
    buf
}

#[test]
fn paragraph_keys_number_the_paragraphs_and_keep_the_style() {
    let f = docx(&[para_styled("Heading1", "Overview"), para("The system records the event.")]);

    assert_eq!(
        out(&f, Keys::Address),
        "p0001\tHeading1\tOverview\n\
         p0002\t\tThe system records the event.\n"
    );
}

#[test]
fn table_cells_are_keyed_by_their_coordinates() {
    let f = docx(&[para("before"), table(&["left", "right"]), para("after")]);

    assert_eq!(
        out(&f, Keys::Address),
        "p0001\t\tbefore\n\
         t1.r001.c01\t\tleft\n\
         t1.r001.c02\t\tright\n\
         p0004\t\tafter\n"
    );
}

#[test]
fn content_keys_say_only_what_kind_of_line_it_is() {
    let f = docx(&[para_styled("Heading1", "Overview"), table(&["cell"])]);

    assert_eq!(out(&f, Keys::Content), "p\tHeading1\tOverview\ntc\t\tcell\n");
}

#[test]
fn deleted_text_is_kept_and_marked() {
    let f = docx(&[para_deleted("removed sentence")]);

    assert_eq!(out(&f, Keys::Content), "p\t\t<del>removed sentence</del>\n");
}

#[test]
fn blank_paragraphs_produce_no_line() {
    let f = docx(&[para(""), para("   "), para("kept")]);

    assert_eq!(out(&f, Keys::Content), "p\t\tkept\n");
}

#[test]
fn inserting_paragraphs_leaves_the_content_keyed_output_a_superset() {
    let before = [para("one"), para("two"), para("three")];
    let after = [para("one"), para("inserted"), para("two"), para("three")];
    let v1 = docx(&before);
    let v2 = docx(&after);

    assert!(is_subsequence(&out(&v1, Keys::Content), &out(&v2, Keys::Content)));
    assert!(!is_subsequence(&out(&v1, Keys::Address), &out(&v2, Keys::Address)));
}

#[test]
fn a_package_without_a_document_part_reports_why() {
    let f = pack(&[("_rels/.rels", String::from("<x/>"))]);
    let e = word(&f, Keys::Address, &mut String::new()).unwrap_err();
    assert!(e.contains("word/document.xml"), "{e}");
}

#[test]
fn malformed_xml_reports_why() {
    let f = pack(&[("word/document.xml", String::from("<w:body><w:p></w:body>"))]);
    assert!(word(&f, Keys::Address, &mut String::new()).is_err());
}

#[test]
fn a_file_that_is_not_a_zip_reports_why() {
    let f = b"plain text, not a package".to_vec();
    assert!(word(&f, Keys::Address, &mut String::new()).is_err());
}

#[test]
fn empty_elements_other_than_a_style_are_ignored() {
    let f = docx(&[para_with_empty_elements("line")]);
    assert_eq!(out(&f, Keys::Content), "p\tBody\tline\n");
}

#[test]
fn word_an_unknown_entity_reports_why() {
    let f = docx(&[para_raw("<w:p><w:r><w:t>&nosuch;</w:t></w:r></w:p>")]);
    assert!(word(&f, Keys::Content, &mut String::new()).is_err());
}

#[test]
fn a_part_that_is_not_utf8_reports_why() {
    let f = pack_bytes(&[("word/document.xml", vec![0xff, 0xfe, 0x00, 0x01])]);
    assert!(word(&f, Keys::Content, &mut String::new()).is_err());
}

#[test]
fn a_missing_file_reports_why() {
    // The file could not be read, so what reaches the renderer is the reason.
    let src = Source {
        workbook: Err(String::from("not read")),
        package: Err(String::from("No such file or directory (os error 2)")),
    };
    let opts = Options { row: true, ..Options::default() };
    let e = render("no-such-file.docx", &opts, &src, &mut String::new()).unwrap_err();
    assert_eq!(e, "No such file or directory (os error 2)");
}

#[test]
fn lines_before_a_failure_stay_written() {
    let xml = document_xml(&[para("first"), para_raw("<w:p><w:r><w:t>&nosuch;</w:t></w:r></w:p>"), para("never")]);
    let mut buf = String::new();
    let e = word_xml(&xml, Keys::Address, &mut buf).unwrap_err();
    assert_eq!(buf, "p0001\t\tfirst\n");
    assert!(e.contains("nosuch"), "{e}");
}

#[test]
fn a_missing_document_part_is_named_in_the_message() {
    let f = pack(&[("_rels/.rels", String::from("<x/>"))]);
    let e = word(&f, Keys::Address, &mut String::new()).unwrap_err();
    assert!(e.starts_with("word/document.xml: "), "{e}");
}

#[test]
fn events_render_without_a_package() {
    let evs = vec![
        XmlEvent::Start("w:p".into()),
        XmlEvent::Empty(
            "w:pStyle".into(),
            vec![None, Some(("w:val".into(), "Body".into())), Some(("w:val".into(), "Title".into()))],
        ),
        XmlEvent::Text(Ok("  Hello & welcome  ".into())),
        XmlEvent::End("w:p".into()),
        XmlEvent::Start("w:tbl".into()),
        XmlEvent::Start("w:tr".into()),
        XmlEvent::Start("w:tc".into()),
        XmlEvent::Start("w:p".into()),
        XmlEvent::Text(Ok("a\tb".into())),
        XmlEvent::End("w:p".into()),
        XmlEvent::End("w:tbl".into()),
        XmlEvent::Eof,
        XmlEvent::Start("w:p".into()),
        XmlEvent::Text(Ok("after the end".into())),
        XmlEvent::End("w:p".into()),
    ];
    let mut buf = String::new();
    word_events(&evs, Keys::Address, &mut buf).unwrap();
    assert_eq!(buf, "p0001\tTitle\tHello & welcome\nt1.r001.c01\t\ta\\tb\n");

    let mut buf = String::new();
    let e = word_events(&[XmlEvent::Fault("broken".into())], Keys::Content, &mut buf).unwrap_err();
    assert_eq!(e, "broken");
    assert_eq!(buf, "");

    let evs = vec![
        XmlEvent::Start("w:p".into()),
        XmlEvent::Text(Ok("kept".into())),
        XmlEvent::End("w:p".into()),
        XmlEvent::Text(Err("bad reference".into())),
    ];
    let mut buf = String::new();
    let e = word_events(&evs, Keys::Content, &mut buf).unwrap_err();
    assert_eq!(e, "bad reference");
    assert_eq!(buf, "p\t\tkept\n");
}

#[test]
fn the_reader_reports_events_in_document_order() {
    let evs = read_events("<a x=\"1\"><b/>t&lt;</a>");
    assert_eq!(evs.len(), 5);
    assert!(matches!(&evs[0], XmlEvent::Start(n) if n == "a"));
    assert!(matches!(&evs[1], XmlEvent::Empty(n, a) if n == "b" && a.is_empty()));
    assert!(matches!(&evs[2], XmlEvent::Text(Ok(t)) if t == "t<"));
    assert!(matches!(&evs[3], XmlEvent::End(n) if n == "a"));
    assert!(matches!(&evs[4], XmlEvent::Eof));

    let bad = read_events("<a></b>");
    assert!(matches!(bad.last(), Some(XmlEvent::Fault(_))));

    let attrs = read_events(r#"<s k="v &amp; w" q="1" q="2"/>"#);
    match &attrs[0] {
        XmlEvent::Empty(n, a) => {
            assert_eq!(n, "s");
            assert_eq!(a.len(), 3);
            assert_eq!(a[0], Some(("k".to_string(), "v &amp; w".to_string())));
            assert_eq!(a[1], Some(("q".to_string(), "1".to_string())));
            assert_eq!(a[2], None);
        }
        other => panic!("{other:?}"),
    }

    let unresolved = read_events("<a>&nosuch;</a>");
    assert!(matches!(&unresolved[1], XmlEvent::Text(Err(_))));
}

#[test]
fn a_duplicated_style_attribute_keeps_the_first_value() {
    let xml = document_xml(&[String::from(
        r#"<w:p><w:pPr><w:pStyle w:val="First" w:val="Second"/></w:pPr><w:r><w:t>x</w:t></w:r></w:p>"#,
    )]);
    let mut buf = String::new();
    word_xml(&xml, Keys::Content, &mut buf).unwrap();
    // A duplicated attribute does not parse, so the first value stays.
    assert_eq!(buf, "p\tFirst\tx\n");
}

fn is_subsequence(a: &str, b: &str) -> bool {
    let mut it = b.lines();
    a.lines().all(|line| it.any(|c| c == line))
}

#[test]
fn a_part_that_cannot_be_read_is_reported_by_kind() {
    assert_eq!(
        part_fault_text(DOCUMENT_PART, PartFault::Entry("specified file not found in archive".into())),
        "word/document.xml: specified file not found in archive"
    );
    assert_eq!(part_fault_text(DOCUMENT_PART, PartFault::Archive("not a zip".into())), "not a zip");
    assert_eq!(part_fault_text(DOCUMENT_PART, PartFault::Content("bad utf-8".into())), "bad utf-8");
}

#[test]
fn a_paragraph_with_line_breaks_stays_one_line() {
    let f = docx(&[para("first\nsecond\tthird")]);
    let text = out(&f, Keys::Address);
    assert_eq!(text, "p0001\t\tfirst\\nsecond\\tthird\n");
    assert_eq!(text.lines().count(), 1);
}

#[test]
fn inserting_before_a_table_or_at_the_end_adds_only_its_line() {
    let base = [para("one"), table(&["cell"]), para("two")];
    let before_table = [para("one"), para("inserted"), table(&["cell"]), para("two")];
    let at_end = [para("one"), table(&["cell"]), para("two"), para("inserted")];
    let v1 = out(&docx(&base), Keys::Content);
    for v in [&before_table[..], &at_end[..]] {
        let v2 = out(&docx(v), Keys::Content);
        assert!(is_subsequence(&v1, &v2), "{v2}");
        assert_eq!(v2.lines().count(), v1.lines().count() + 1);
        assert!(v2.contains("p\t\tinserted\n"));
    }
}

#[test]
fn the_key_schemes_write_the_same_paragraphs() {
    let f = docx(&[para_styled("Title", "head"), table(&["a", "b"]), para("tail")]);
    let address = out(&f, Keys::Address);
    let content = out(&f, Keys::Content);
    assert_eq!(address, "p0001\tTitle\thead\nt1.r001.c01\t\ta\nt1.r001.c02\t\tb\np0004\t\ttail\n");
    assert_eq!(content, "p\tTitle\thead\ntc\t\ta\ntc\t\tb\np\t\ttail\n");
    for (a, c) in address.lines().zip(content.lines()) {
        assert_eq!(a.split_once('\t').unwrap().1, c.split_once('\t').unwrap().1);
    }
}

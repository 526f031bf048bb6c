use std::io::Write;

use oyomi::{render_slide_parts, slide_events, slides, sort_slide_parts, Keys, XmlEvent};
use zip::write::SimpleFileOptions;

fn pack_bytes(parts: &[(&str, Vec<u8>)]) -> Vec<u8> {
    let mut buf = Vec::new();
    {
        let mut z = zip::ZipWriter::new(std::io::Cursor::new(&mut buf));
        let opts = SimpleFileOptions::default();
        for (part, body) in parts {
            z.start_file(*part, opts).unwrap();
            z.write_all(body).unwrap();
        }
        z.finish().unwrap();
    }
    buf
}

fn pack(parts: &[(&str, String)]) -> Vec<u8> {
    let owned: Vec<(&str, Vec<u8>)> = parts.iter().map(|(p, b)| (*p, b.as_bytes().to_vec())).collect();
    pack_bytes(&owned)
}

fn xml_escape(s: &str) -> String {
    s.replace('&', "&amp;").replace('<', "&lt;").replace('>', "&gt;")
}

fn slide_xml(paragraphs: &[&str]) -> String {
    let ps: String = paragraphs
        .iter()
        .map(|t| format!(r#"<a:p><a:r><a:t>{}</a:t></a:r></a:p>"#, xml_escape(t)))
        .collect();
    format!(
        r#"<?xml version="1.0" encoding="UTF-8" standalone="yes"?>
<p:sld xmlns:p="http://schemas.openxmlformats.org/presentationml/2006/main" xmlns:a="http://schemas.openxmlformats.org/drawingml/2006/main"><p:cSld><p:spTree>{ps}</p:spTree></p:cSld></p:sld>"#
    )
}

/// `parts` are `(zip entry name, slide xml)`, written in the given order.
fn pptx(parts: &[(&str, String)]) -> Vec<u8> {
    let mut all: Vec<(&str, String)> = vec![
        ("[Content_Types].xml", String::from(r#"<Types xmlns="http://schemas.openxmlformats.org/package/2006/content-types"/>"#)),
        ("_rels/.rels", String::from(r#"<Relationships xmlns="http://schemas.openxmlformats.org/package/2006/relationships"/>"#)),
    ];
    for (p, b) in parts {
        all.push((p, b.clone()));
    }
    pack(&all)
}

/// A zip holding one entry that the reader refuses to open: the encrypted
/// flag is set and the compression method is the AES one.
fn zip_with_unreadable_entry(entry: &str) -> Vec<u8> {
    fn le16(v: &mut Vec<u8>, n: u16) {
        v.extend_from_slice(&n.to_le_bytes());
    }
    fn le32(v: &mut Vec<u8>, n: u32) {
        v.extend_from_slice(&n.to_le_bytes());
    }
    let aes: u16 = 99;
    let encrypted: u16 = 1;
    let name = entry.as_bytes();
    let mut z = Vec::new();

    le32(&mut z, 0x0403_4b50);
    le16(&mut z, 20);
    le16(&mut z, encrypted);
    le16(&mut z, aes);
    le16(&mut z, 0);
    le16(&mut z, 0);
    le32(&mut z, 0);
    le32(&mut z, 0);
    le32(&mut z, 0);
    le16(&mut z, name.len() as u16);
    le16(&mut z, 0);
    z.extend_from_slice(name);

    let cd_offset = z.len() as u32;
    le32(&mut z, 0x0201_4b50);
    le16(&mut z, 20);
    le16(&mut z, 20);
    le16(&mut z, encrypted);
    le16(&mut z, aes);
    le16(&mut z, 0);
    le16(&mut z, 0);
    le32(&mut z, 0);
    le32(&mut z, 0);
    le32(&mut z, 0);
    le16(&mut z, name.len() as u16);
    le16(&mut z, 0);
    le16(&mut z, 0);
    le16(&mut z, 0);
    le16(&mut z, 0);
    le32(&mut z, 0);
    le32(&mut z, 0);
    z.extend_from_slice(name);
    let cd_size = z.len() as u32 - cd_offset;

    le32(&mut z, 0x0605_4b50);
    le16(&mut z, 0);
    le16(&mut z, 0);
    le16(&mut z, 1);
    le16(&mut z, 1);
    le32(&mut z, cd_size);
    le32(&mut z, cd_offset);
    le16(&mut z, 0);
    z
}

fn out(package: &[u8], keys: Keys) -> String {
    let mut buf = String::new();
    slides(package, keys, &mut buf).unwrap();
    buf
}

#[test]
fn slides_are_ordered_by_number_not_by_name() {
    // Written to the package in the wrong order on purpose: as text, "slide10"
    // sorts before "slide2".
    let f = pptx(&[
        ("ppt/slides/slide10.xml", slide_xml(&["tenth"])),
        ("ppt/slides/slide2.xml", slide_xml(&["second"])),
        ("ppt/slides/slide1.xml", slide_xml(&["first"])),
    ]);

    assert_eq!(
        out(&f, Keys::Content),
        "slide001.body\tfirst\n\
         slide002.body\tsecond\n\
         slide010.body\ttenth\n"
    );
}

#[test]
fn paragraph_ordinals_appear_only_with_address_keys() {
    let f = pptx(&[("ppt/slides/slide1.xml", slide_xml(&["title", "body text"]))]);

    assert_eq!(
        out(&f, Keys::Address),
        "slide001.body.p001\ttitle\n\
         slide001.body.p002\tbody text\n"
    );
    assert_eq!(
        out(&f, Keys::Content),
        "slide001.body\ttitle\n\
         slide001.body\tbody text\n"
    );
}

#[test]
fn notes_are_labelled_and_follow_their_slide() {
    let f = pptx(&[
        ("ppt/notesSlides/notesSlide1.xml", slide_xml(&["say this"])),
        ("ppt/slides/slide1.xml", slide_xml(&["on screen"])),
    ]);

    assert_eq!(
        out(&f, Keys::Content),
        "slide001.body\ton screen\n\
         slide001.note\tsay this\n"
    );
}

#[test]
fn blank_paragraphs_and_unrelated_parts_are_skipped() {
    let f = pptx(&[
        ("ppt/slideLayouts/slideLayout1.xml", slide_xml(&["layout"])),
        ("docProps/app.xml", String::from("<x/>")),
        ("ppt/slides/slide1.xml", slide_xml(&["", "  ", "kept"])),
    ]);

    assert_eq!(out(&f, Keys::Content), "slide001.body\tkept\n");
}

#[test]
fn a_package_with_no_slides_renders_nothing() {
    let f = pptx(&[]);
    assert_eq!(out(&f, Keys::Content), "");
}

#[test]
fn a_part_named_without_digits_falls_back_to_zero() {
    let f = pptx(&[("ppt/slides/slide.xml", slide_xml(&["unnumbered"]))]);
    assert_eq!(out(&f, Keys::Content), "slide000.body\tunnumbered\n");
}

#[test]
fn malformed_slide_xml_reports_why() {
    let f = pptx(&[("ppt/slides/slide1.xml", String::from("<a:p></p:sld>"))]);
    assert!(slides(&f, Keys::Content, &mut String::new()).is_err());
}

#[test]
fn a_missing_or_unreadable_file_reports_why() {
    assert!(slides(b"", Keys::Content, &mut String::new()).is_err());
    assert!(slides(b"not a package", Keys::Content, &mut String::new()).is_err());
}

#[test]
fn slides_an_unknown_entity_reports_why() {
    let f = pptx(&[(
        "ppt/slides/slide1.xml",
        String::from("<p:sld><a:p><a:t>&nosuch;</a:t></a:p></p:sld>"),
    )]);
    assert!(slides(&f, Keys::Content, &mut String::new()).is_err());
}

#[test]
fn a_slide_part_that_is_not_utf8_reports_why() {
    let f = pack_bytes(&[("ppt/slides/slide1.xml", vec![0xff, 0xfe, 0x00, 0x01])]);
    let e = slides(&f, Keys::Content, &mut String::new()).unwrap_err();
    assert!(e.starts_with("ppt/slides/slide1.xml: "), "{e}");
}

#[test]
fn an_entry_the_reader_cannot_open_reports_why() {
    let f = zip_with_unreadable_entry("ppt/slides/slide1.xml");
    let e = slides(&f, Keys::Content, &mut String::new()).unwrap_err();
    assert!(!e.is_empty(), "{e}");
}

#[test]
fn slides_before_a_broken_one_stay_written() {
    let f = pptx(&[
        ("ppt/slides/slide1.xml", slide_xml(&["fine"])),
        ("ppt/slides/slide2.xml", String::from("<a:p></p:sld>")),
        ("ppt/slides/slide3.xml", slide_xml(&["never"])),
    ]);
    let mut buf = String::new();
    assert!(slides(&f, Keys::Content, &mut buf).is_err());
    assert_eq!(buf, "slide001.body\tfine\n");
}

#[test]
fn equal_numbers_keep_the_archive_order() {
    let parts = vec![
        (2u32, true, String::from("n2")),
        (1u32, false, String::from("s1a")),
        (2u32, false, String::from("s2")),
        (1u32, false, String::from("s1b")),
        (1u32, true, String::from("n1")),
    ];
    let sorted = sort_slide_parts(parts);
    let names: Vec<&str> = sorted.iter().map(|p| p.2.as_str()).collect();
    assert_eq!(names, vec!["s1a", "s1b", "n1", "s2", "n2"]);
}

#[test]
fn parts_render_in_the_order_given() {
    let parts = vec![
        (7u32, false, slide_xml(&["seven"])),
        (3u32, true, slide_xml(&["three notes"])),
    ];
    let mut buf = String::new();
    render_slide_parts(&parts, Keys::Address, &mut buf).unwrap();
    assert_eq!(buf, "slide007.body.p001\tseven\nslide003.note.p001\tthree notes\n");
}

#[test]
fn slide_events_trim_and_escape() {
    let evs = vec![
        XmlEvent::Start("a:p".into()),
        XmlEvent::Text(Ok("  two\u{a0}".into())),
        XmlEvent::Other,
        XmlEvent::Text(Ok("lines\n".into())),
        XmlEvent::End("a:p".into()),
        XmlEvent::Start("a:p".into()),
        XmlEvent::End("a:p".into()),
        XmlEvent::Start("a:p".into()),
        XmlEvent::Text(Ok("x".into())),
        XmlEvent::End("a:p".into()),
    ];
    let mut buf = String::new();
    slide_events(&evs, 12, false, Keys::Address, &mut buf).unwrap();
    assert_eq!(buf, "slide012.body.p001\ttwo\u{a0}lines\nslide012.body.p003\tx\n");
}

fn is_subsequence(a: &str, b: &str) -> bool {
    let mut it = b.lines();
    a.lines().all(|line| it.any(|c| c == line))
}

#[test]
fn inserting_a_slide_paragraph_adds_only_its_line() {
    let v1 = pptx(&[("ppt/slides/slide1.xml", slide_xml(&["one", "two", "three"]))]);
    let v2 = pptx(&[("ppt/slides/slide1.xml", slide_xml(&["one", "inserted", "two", "three"]))]);
    let render = |f: &[u8], keys: Keys| {
        let mut buf = String::new();
        slides(f, keys, &mut buf).unwrap();
        buf
    };
    let (a, b) = (render(&v1, Keys::Content), render(&v2, Keys::Content));
    assert_eq!(
        b,
        "slide001.body\tone\nslide001.body\tinserted\nslide001.body\ttwo\nslide001.body\tthree\n"
    );
    assert!(is_subsequence(&a, &b));
    assert_eq!(b.lines().count(), a.lines().count() + 1);
    assert!(!is_subsequence(&render(&v1, Keys::Address), &render(&v2, Keys::Address)));
}

#[test]
fn a_slide_paragraph_with_line_breaks_stays_one_line() {
    let evs = vec![
        XmlEvent::Start("a:p".into()),
        XmlEvent::Text(Ok("up\r\ndown".into())),
        XmlEvent::End("a:p".into()),
    ];
    let mut buf = String::new();
    slide_events(&evs, 1, true, Keys::Content, &mut buf).unwrap();
    assert_eq!(buf, "slide001.note\tup\\ndown\n");
    assert_eq!(buf.lines().count(), 1);
}

#[test]
fn appending_a_paragraph_at_the_end_of_a_text_body_adds_only_its_line() {
    let body = |ps: &[&str]| {
        let inner: String = ps.iter().map(|t| format!("<a:p><a:r><a:t>{t}</a:t></a:r></a:p>")).collect();
        format!(r#"<p:sld xmlns:p="p" xmlns:a="a"><p:sp><p:txBody>{inner}</p:txBody></p:sp><p:sp><p:txBody><a:p><a:r><a:t>other</a:t></a:r></a:p></p:txBody></p:sp></p:sld>"#)
    };
    let v1 = pptx(&[("ppt/slides/slide1.xml", body(&["one"]))]);
    let v2 = pptx(&[("ppt/slides/slide1.xml", body(&["one", "added"]))]);
    let mut a = String::new();
    slides(&v1, Keys::Content, &mut a).unwrap();
    let mut b = String::new();
    slides(&v2, Keys::Content, &mut b).unwrap();
    assert_eq!(b, "slide001.body\tone\nslide001.body\tadded\nslide001.body\tother\n");
    assert!(is_subsequence(&a, &b));
    assert_eq!(b.lines().count(), a.lines().count() + 1);
}

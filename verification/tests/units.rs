use oyomi::{
    col_letters, esc, format_for_extension, format_of, is_whitespace, parse_args, slide_part_kind, trailing_number,
    Format, Keys, Options, USAGE,
};

#[test]
fn columns_are_bijective_base_26() {
    for (n, want) in [
        (0, "A"),
        (25, "Z"),
        (26, "AA"),
        (27, "AB"),
        (51, "AZ"),
        (52, "BA"),
        (701, "ZZ"),
        (702, "AAA"),
        (16383, "XFD"), // the last column Excel offers
    ] {
        assert_eq!(col_letters(n), want, "column {n}");
    }
}

#[test]
fn escaping_keeps_a_value_on_one_line() {
    assert_eq!(esc("plain"), "plain");
    assert_eq!(esc("a\tb"), "a\\tb");
    assert_eq!(esc("a\nb"), "a\\nb");
    assert_eq!(esc("a\r\nb"), "a\\nb");
    assert_eq!(esc("a\rb"), "ab");
    // The backslash goes first, so an escape introduced here is not re-escaped.
    assert_eq!(esc("a\\nb"), "a\\\\nb");
    assert_eq!(esc(""), "");
}

#[test]
fn options_choose_the_key_scheme() {
    assert_eq!(Options::default().keys(), Keys::Address);
    assert_eq!(
        Options {
            row: true,
            ..Options::default()
        }
        .keys(),
        Keys::Content
    );
}

fn args(v: &[&str]) -> Vec<String> {
    v.iter().map(|s| s.to_string()).collect()
}

#[test]
fn arguments_parse_in_any_order() {
    let (path, opts) = parse_args(&args(&["--row", "a.xlsx", "--sheet", "S", "--list"])).unwrap();
    assert_eq!(path, "a.xlsx");
    assert_eq!(opts.sheet.as_deref(), Some("S"));
    assert!(opts.list);
    assert_eq!(opts.keys(), Keys::Content);

    let (path, opts) = parse_args(&args(&["b.docx"])).unwrap();
    assert_eq!(path, "b.docx");
    assert!(opts.sheet.is_none());
    assert!(!opts.list);
    assert_eq!(opts.keys(), Keys::Address);

    // The last path wins rather than becoming a silent second input.
    let (path, _) = parse_args(&args(&["first.xlsx", "second.xlsx"])).unwrap();
    assert_eq!(path, "second.xlsx");
}

#[test]
fn bad_arguments_say_what_is_wrong() {
    assert_eq!(parse_args(&args(&[])).unwrap_err(), USAGE);
    assert_eq!(
        parse_args(&args(&["--nope", "a.xlsx"])).unwrap_err(),
        "unknown option: --nope"
    );
    assert_eq!(
        parse_args(&args(&["a.xlsx", "--sheet"])).unwrap_err(),
        "--sheet needs a sheet name"
    );
}

#[test]
fn keys_are_comparable_and_printable() {
    assert_ne!(Keys::Address, Keys::Content);
    assert_eq!(format!("{:?}", Keys::Content), "Content");
    assert_eq!(
        format!("{:?}", Options::default().clone().keys()),
        "Address"
    );
}

#[test]
fn the_sheet_option_takes_the_next_argument_whatever_it_is() {
    let (path, opts) = parse_args(&args(&["--sheet", "--list", "x.xlsx"])).unwrap();
    assert_eq!(path, "x.xlsx");
    assert_eq!(opts.sheet.as_deref(), Some("--list"));
    assert!(!opts.list);
}

#[test]
fn a_single_dash_is_a_path_and_a_double_dash_is_an_option() {
    let (path, _) = parse_args(&args(&["-"])).unwrap();
    assert_eq!(path, "-");
    assert_eq!(parse_args(&args(&["--"])).unwrap_err(), "unknown option: --");
}

#[test]
fn slide_numbers_come_from_the_end_of_the_name() {
    assert_eq!(trailing_number("ppt/slides/slide12.xml"), 12);
    assert_eq!(trailing_number("ppt/slides/slide007.xml"), 7);
    assert_eq!(trailing_number("ppt/slides/slide.xml"), 0);
    // Every trailing ".xml" goes, as `trim_end_matches` removes them all.
    assert_eq!(trailing_number("ppt/slides/slide3.xml.xml"), 3);
    // Too large for a u32: no number.
    assert_eq!(trailing_number("ppt/slides/slide4294967296.xml"), 0);
    assert_eq!(trailing_number("ppt/slides/slide4294967295.xml"), 4294967295);
    assert_eq!(trailing_number("42"), 42);
    assert_eq!(trailing_number(""), 0);
}

#[test]
fn the_extension_is_read_case_blind() {
    assert_eq!(format_of("a/B.XLSX"), Ok(Format::Spreadsheet));
    assert_eq!(format_of("b.Docx"), Ok(Format::Word));
    assert_eq!(format_of("c.potx"), Ok(Format::Slides));
    assert_eq!(format_of("d.ods"), Ok(Format::Spreadsheet));
    assert_eq!(format_of("dir.docx/"), Ok(Format::Word));
    assert_eq!(format_of(".docx"), Err("unsupported extension: ".to_string()));
    assert_eq!(format_of("x.TXT"), Err("unsupported extension: txt".to_string()));
    assert_eq!(format_of("noext"), Err("unsupported extension: ".to_string()));
}

#[test]
fn white_space_is_unicode_white_space() {
    for c in [' ', '\t', '\n', '\r', '\u{b}', '\u{c}', '\u{85}', '\u{a0}', '\u{3000}', '\u{2009}'] {
        assert!(is_whitespace(c), "{c:?}");
        assert_eq!(is_whitespace(c), c.is_whitespace());
    }
    for c in ['a', '0', '\u{200b}', '\u{feff}', '_'] {
        assert!(!is_whitespace(c), "{c:?}");
        assert_eq!(is_whitespace(c), c.is_whitespace());
    }
    for u in 0u32..0x3100 {
        if let Some(c) = char::from_u32(u) {
            assert_eq!(is_whitespace(c), c.is_whitespace(), "{u:#x}");
        }
    }
}

#[test]
fn a_whole_argument_reads_the_same_wherever_it_stands() {
    let orders: [&[&str]; 6] = [
        &["--list", "a.xlsx", "--sheet", "S", "--row"],
        &["a.xlsx", "--list", "--sheet", "S", "--row"],
        &["a.xlsx", "--sheet", "S", "--list", "--row"],
        &["--sheet", "S", "--list", "a.xlsx", "--row"],
        &["--row", "--sheet", "S", "a.xlsx", "--list"],
        &["--sheet", "S", "--row", "--list", "a.xlsx"],
    ];
    for order in orders {
        let (path, opts) = parse_args(&args(order)).unwrap();
        assert_eq!(path, "a.xlsx", "{order:?}");
        assert_eq!(opts.sheet.as_deref(), Some("S"), "{order:?}");
        assert!(opts.list, "{order:?}");
        assert!(opts.row, "{order:?}");
    }
    // Right after --sheet the flag is the sheet's name instead.
    let (_, opts) = parse_args(&args(&["a.xlsx", "--sheet", "--list"])).unwrap();
    assert_eq!(opts.sheet.as_deref(), Some("--list"));
    assert!(!opts.list);
}

#[test]
fn each_extension_names_its_renderer() {
    for e in ["xlsx", "xlsm", "xltx", "xltm", "xls", "xlsb", "ods"] {
        assert_eq!(format_for_extension(e), Ok(Format::Spreadsheet), "{e}");
    }
    for e in ["docx", "dotx"] {
        assert_eq!(format_for_extension(e), Ok(Format::Word), "{e}");
    }
    for e in ["pptx", "potx"] {
        assert_eq!(format_for_extension(e), Ok(Format::Slides), "{e}");
    }
    // The extension is expected in lower case already.
    assert_eq!(format_for_extension("XLSX"), Err("unsupported extension: XLSX".to_string()));
    assert_eq!(format_for_extension(""), Err("unsupported extension: ".to_string()));
}

#[test]
fn part_names_say_which_parts_are_slides() {
    assert_eq!(slide_part_kind("ppt/slides/slide12.xml"), Some((12, false)));
    assert_eq!(slide_part_kind("ppt/notesSlides/notesSlide3.xml"), Some((3, true)));
    assert_eq!(slide_part_kind("ppt/slides/slide.xml"), Some((0, false)));
    assert_eq!(slide_part_kind("ppt/slides/_rels/slide1.xml.rels"), None);
    assert_eq!(slide_part_kind("ppt/slideLayouts/slideLayout1.xml"), None);
    assert_eq!(slide_part_kind("ppt/slides/slide1.XML"), None);
    assert_eq!(slide_part_kind("docProps/app.xml"), None);
}

/// Reads an escaped value back, left to right.
fn unesc(s: &str) -> String {
    let mut out = String::new();
    let mut it = s.chars().peekable();
    while let Some(c) = it.next() {
        if c == '\\' {
            match it.peek() {
                Some('\\') => { it.next(); out.push('\\'); }
                Some('t') => { it.next(); out.push('\t'); }
                Some('n') => { it.next(); out.push('\n'); }
                _ => out.push(c),
            }
        } else {
            out.push(c);
        }
    }
    out
}

#[test]
fn escaping_can_be_undone() {
    for s in ["plain", "a\tb", "a\nb", "a\\nb", "a\\\\tb\\", "\\", "", "tab\t\\t"] {
        assert_eq!(unesc(&esc(s)), s, "{s:?}");
    }
    assert_ne!(esc("a\\nb"), esc("a\nb"));
    // A carriage return is the one character escaping drops.
    assert_eq!(unesc(&esc("a\r\nb")), "a\nb");
}

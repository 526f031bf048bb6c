use oyomi::{run, Grid, Sheet, Source, Workbook, USAGE};

fn run_with(args: &[&str], src: &Source) -> (i32, String, String) {
    let argv: Vec<String> = args.iter().map(|s| s.to_string()).collect();
    let (mut out, mut err) = (String::new(), String::new());
    let code = run(&argv, src, &mut out, &mut err);
    (code, out, err)
}

fn nothing_read() -> Source {
    Source {
        workbook: Err(String::from("not read")),
        package: Err(String::from("not read")),
    }
}

#[test]
fn a_readable_file_is_rendered_and_exits_zero() {
    let src = Source {
        workbook: Ok(Workbook {
            sheets: vec![Sheet {
                name: String::from("S"),
                content: Ok(Grid {
                    start: Some((0, 0)),
                    height: 1,
                    width: 1,
                    rows: vec![vec![Some(String::from("value"))]],
                }),
            }],
        }),
        package: Err(String::from("not read")),
    };
    let (code, out, err) = run_with(&["--row", "cli.xlsx"], &src);

    assert_eq!(code, 0);
    assert_eq!(out, "S\tA=value\n");
    assert_eq!(err, "");
}

#[test]
fn a_damaged_file_still_exits_zero() {
    // git drops the whole diff if a textconv driver fails, so the error has to
    // travel as content on stdout instead of as an exit code.
    let src = Source {
        workbook: Err(String::from("Xlsx error: Zip error: invalid Zip archive: Invalid zip header")),
        package: Err(String::from("not read")),
    };
    let (code, out, err) = run_with(&["damaged.xlsx"], &src);

    assert_eq!(code, 0);
    assert!(out.starts_with("!! oyomi: "), "{out}");
    assert_eq!(err, "");

    let (code, out, err) = run_with(&["damaged.docx"], &Source {
        workbook: Err(String::from("not read")),
        package: Ok(b"not a package at all".to_vec()),
    });
    assert_eq!(code, 0);
    assert!(out.starts_with("!! oyomi: "), "{out}");
    assert!(out.ends_with('\n'));
    assert_eq!(err, "");
}

#[test]
fn an_unsupported_extension_still_exits_zero() {
    let (code, out, _) = run_with(&["notes.txt"], &nothing_read());
    assert_eq!(code, 0);
    assert_eq!(out, "!! oyomi: unsupported extension: txt\n");
}

#[test]
fn bad_usage_exits_two_and_writes_to_stderr() {
    let (code, out, err) = run_with(&[], &nothing_read());
    assert_eq!(code, 2);
    assert_eq!(out, "");
    assert_eq!(err, format!("{}\n", USAGE));

    let (code, _, err) = run_with(&["--nope"], &nothing_read());
    assert_eq!(code, 2);
    assert_eq!(err, "unknown option: --nope\n");
}

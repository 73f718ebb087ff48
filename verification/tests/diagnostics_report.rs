use lune::diagnostics::render_u64;
use lune::diagnostics::Diagnostic;

#[test]
fn renders_numbers_in_decimal() {
    assert_eq!(render_u64(0), "0");
    assert_eq!(render_u64(7), "7");
    assert_eq!(render_u64(907), "907");
    assert_eq!(render_u64(u64::MAX), "18446744073709551615");
}

#[test]
fn renders_a_full_report() {
    let d = Diagnostic {
        message: String::from("attempt to index nil"),
        source: String::from("main"),
        line: Some(12),
        column: Some(8),
        trace: vec![String::from("function foo"), String::from("main chunk")],
    };
    assert_eq!(
        d.render(),
        "script error: attempt to index nil\n  in main:12:8\n  function foo\n  main chunk\n"
    );
}

#[test]
fn renders_a_line_without_a_column() {
    let d = Diagnostic {
        message: String::from("bad argument"),
        source: String::from("init"),
        line: Some(3),
        column: None,
        trace: vec![],
    };
    assert_eq!(d.render(), "script error: bad argument\n  in init:3\n");
}

#[test]
fn renders_without_line_or_trace() {
    let d = Diagnostic {
        message: String::from("boom"),
        source: String::from("script"),
        line: None,
        column: None,
        trace: vec![],
    };
    assert_eq!(d.render(), "script error: boom\n  in script\n");
}

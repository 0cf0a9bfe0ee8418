use crusts::auto_curs::{Diagnostic, Level, SpanLocation};
use crusts::utils::{compiler_diagnostics, keep_compiler_messages};

fn span_json(file: &str, line: usize, expansion: Option<&str>) -> String {
    let expansion = match expansion {
        Some(e) => format!(
            "{{\"span\":{},\"macro_decl_name\":\"println!\",\"def_site_span\":null}}",
            span_json(e, 1, None)
        ),
        None => "null".to_string(),
    };
    format!(
        "{{\"file_name\":\"{file}\",\"byte_start\":0,\"byte_end\":1,\"line_start\":{line},\"line_end\":{line},\"column_start\":1,\"column_end\":2,\"is_primary\":true,\"text\":[],\"label\":null,\"suggested_replacement\":null,\"suggestion_applicability\":null,\"expansion\":{expansion}}}"
    )
}

fn message_json(level: &str, spans: &[String]) -> String {
    format!(
        "{{\"reason\":\"compiler-message\",\"package_id\":\"p 0.1.0\",\"manifest_path\":\"/p/Cargo.toml\",\"target\":{{\"name\":\"p\",\"kind\":[\"lib\"],\"crate_types\":[\"lib\"],\"src_path\":\"/p/src/lib.rs\"}},\"message\":{{\"message\":\"m\",\"code\":null,\"level\":\"{level}\",\"spans\":[{}],\"children\":[],\"rendered\":null}}}}",
        spans.join(",")
    )
}

fn view(d: &Diagnostic) -> (Level, Vec<(String, usize, Option<String>)>) {
    (
        d.level,
        d.spans
            .iter()
            .map(|s| (s.file_name.clone(), s.line_start, s.expansion_file_name.clone()))
            .collect(),
    )
}

#[test]
fn compiler_messages_are_read_from_cargo_output() {
    let error = message_json(
        "error",
        &[span_json("src/lib.rs", 3, None), span_json("/rustc/x/macros.rs", 7, Some("src/main.rs"))],
    );
    let warning = message_json("warning", &[span_json("src/a.rs", 9, None)]);
    let out = format!(
        "{error}\n   Compiling p v0.1.0\n{{\"reason\":\"build-finished\",\"success\":false}}\n{warning}\r\n"
    );
    let r: Vec<_> = compiler_diagnostics(&out).iter().map(view).collect();
    assert_eq!(
        r,
        vec![
            (
                Level::Error,
                vec![
                    ("src/lib.rs".to_string(), 3, None),
                    ("/rustc/x/macros.rs".to_string(), 7, Some("src/main.rs".to_string())),
                ]
            ),
            (Level::Warning, vec![("src/a.rs".to_string(), 9, None)]),
        ]
    );
}

#[test]
fn last_line_without_line_feed_is_read() {
    let note = message_json("note", &[]);
    let r: Vec<_> = compiler_diagnostics(&format!("x\n{note}")).iter().map(view).collect();
    assert_eq!(r, vec![(Level::Note, vec![])]);
    assert!(compiler_diagnostics("").is_empty());
    assert!(compiler_diagnostics("\n\nnot json\n").is_empty());
}

#[test]
fn all_levels_are_kept() {
    let levels = ["error: internal compiler error", "error", "warning", "failure-note", "note", "help"];
    let out: Vec<String> = levels.iter().map(|l| message_json(l, &[])).collect();
    let r: Vec<Level> = compiler_diagnostics(&out.join("\n")).iter().map(|d| d.level).collect();
    assert_eq!(
        r,
        vec![Level::Ice, Level::Error, Level::Warning, Level::FailureNote, Level::Note, Level::Help]
    );
}

#[test]
fn present_messages_are_kept_in_order() {
    let d = |line: usize| Diagnostic {
        level: Level::Error,
        spans: vec![SpanLocation { file_name: "a.rs".to_string(), line_start: line, expansion_file_name: None }],
    };
    let r: Vec<_> = keep_compiler_messages(vec![None, Some(d(1)), None, Some(d(2))]).iter().map(view).collect();
    assert_eq!(
        r,
        vec![
            (Level::Error, vec![("a.rs".to_string(), 1, None)]),
            (Level::Error, vec![("a.rs".to_string(), 2, None)]),
        ]
    );
    assert!(keep_compiler_messages(vec![None]).is_empty());
}

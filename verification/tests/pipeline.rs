use crusts::cli::{pipeline, Checkpoint, Cli, PipelineStep};
use crusts::constants::{rules, PlatformConfig};
use crusts::crown;
use crusts::crusts::{exe_file_name, path_variable, rule_list, txl_arguments};
use crusts::metrics::count_functions;
use crusts::utils::{
    compiler_messages, filename_and_filepath, get_filename_and_filepath, has_extension,
    is_file_with_ext, select_compiler_messages,
};

fn cli(skip_c2rust: bool, skip_txl_rules: bool, metrics: bool) -> Cli {
    Cli {
        skip_c2rust,
        skip_txl_rules,
        skip_crown: false,
        skip_inlay_hints: false,
        custom_txl: None,
        metrics,
        auto_curs: false,
    }
}

#[test]
fn pipeline_with_metrics() {
    assert_eq!(
        pipeline(&cli(false, false, true)),
        vec![
            PipelineStep::CollectMetrics(Checkpoint::Start),
            PipelineStep::ConvertC,
            PipelineStep::CollectMetrics(Checkpoint::C2Rust),
            PipelineStep::ApplyRules,
            PipelineStep::CollectMetrics(Checkpoint::Txl),
        ]
    );
    assert_eq!(Checkpoint::C2Rust.name(), "c2rust");
    assert_eq!(Checkpoint::Start.name(), "original");
    assert_eq!(Checkpoint::Txl.name(), "txl");
}

#[test]
fn pipeline_without_metrics_or_conversion() {
    assert_eq!(pipeline(&cli(true, false, false)), vec![PipelineStep::ApplyRules]);
    assert_eq!(
        pipeline(&cli(false, true, true)),
        vec![
            PipelineStep::CollectMetrics(Checkpoint::Start),
            PipelineStep::ConvertC,
            PipelineStep::CollectMetrics(Checkpoint::C2Rust),
        ]
    );
    assert!(pipeline(&cli(true, true, false)).is_empty());
}

#[test]
fn file_extensions() {
    assert!(is_file_with_ext("./src/main.rs", "rs"));
    assert!(is_file_with_ext("archive.tar.gz", "gz"));
    assert!(!is_file_with_ext("archive.tar.gz", "tar"));
    assert!(!is_file_with_ext(".rs", "rs"));
    assert!(!is_file_with_ext("Makefile", "rs"));
    assert!(!is_file_with_ext("src/", "rs"));
}

#[test]
fn file_name_and_folder() {
    assert_eq!(
        get_filename_and_filepath("rules/mine.txl"),
        ("mine.txl".to_string(), "rules".to_string())
    );
    assert_eq!(get_filename_and_filepath("mine.txl"), ("mine.txl".to_string(), "".to_string()));
    assert_eq!(get_filename_and_filepath("/"), ("".to_string(), "".to_string()));
}

#[test]
fn txl_rule_names_and_arguments() {
    assert_eq!(exe_file_name("mine.txl"), "mine.x");
    assert_eq!(exe_file_name("a.b.txl"), "a.x");
    assert_eq!(exe_file_name("rule"), "rule.x");
    assert_eq!(path_variable("/home/u/.cargo/bin", "/usr/bin"), "/home/u/.cargo/bin/Rust:/home/u/.cargo/bin:/usr/bin");
    assert_eq!(
        txl_arguments("./src/main.rs", "/h/.cargo/bin"),
        vec!["./src/main.rs".to_string(), "-".to_string(), "/h/.cargo/bin/Rust".to_string()]
    );
}

#[test]
fn rule_list_appends_the_users_rule() {
    let standard: Vec<String> = rules().iter().map(|r| r.to_string()).collect();
    assert_eq!(standard.len(), 11);
    assert_eq!(standard[0], "formalizeCode.x");
    assert_eq!(standard[10], "unsafe.x");
    assert_eq!(rule_list(None), standard);
    let mut with_mine = standard.clone();
    with_mine.push("mine.x".to_string());
    assert_eq!(rule_list(Some("mine.x".to_string())), with_mine);
}

#[test]
fn platform_settings() {
    let c = PlatformConfig::macos();
    assert_eq!(c.bear, "bear");
    assert_eq!(c.bear_args, &["--", "make"]);
    assert_eq!(c.url, "http://bertrust.s3.amazonaws.com/crusts-macosx.tar.gz");
    assert_eq!(PlatformConfig::linux().url, "http://bertrust.s3.amazonaws.com/crusts-linux.tar.gz");
}

#[test]
fn functions_reported_by_tree_grepper() {
    let out = "src/a.rs:3:1:f:fn a() {}\nsrc/a.rs:3:1:_m:unsafe\nsrc/b.rs:9:1:f:unsafe fn b() {}\n";
    assert_eq!(count_functions(out), 2);
    assert_eq!(count_functions(""), 0);
}

#[test]
fn crown_runs_only_when_installed() {
    let c = crown::run(true).unwrap();
    assert_eq!(c.program, "bash");
    assert_eq!(c.args, vec!["/home/c00834010/dev/crown/run.sh".to_string()]);
    assert!(crown::run(false).is_none());
}

#[test]
fn compiler_messages_are_selected_from_cargo_output() {
    let out = "{\"reason\":\"compiler-artifact\",\"x\":1}\n  {\"reason\":\"compiler-message\",\"message\":{}}  \n\n{\"reason\":7}\n{\"reason\":\"compiler-message\"}\n";
    let r = compiler_messages(out).unwrap();
    assert_eq!(
        r,
        vec![
            "{\"reason\":\"compiler-message\",\"message\":{}}".to_string(),
            "{\"reason\":\"compiler-message\"}".to_string(),
        ]
    );
    assert_eq!(compiler_messages("{\"reason\":\"compiler-message\"}\nnot json\n"), None);
    assert_eq!(compiler_messages(""), Some(vec![]));
}

#[test]
fn extension_comparison() {
    assert!(has_extension(Some("rs".to_string()), "rs"));
    assert!(!has_extension(Some("rsx".to_string()), "rs"));
    assert!(!has_extension(None, "rs"));
    assert!(!has_extension(Some(String::new()), "rs"));
}

#[test]
fn missing_path_parts_become_empty() {
    assert_eq!(
        filename_and_filepath(Some("a.txl".to_string()), None),
        ("a.txl".to_string(), "".to_string())
    );
    assert_eq!(
        filename_and_filepath(None, Some("dir".to_string())),
        ("".to_string(), "dir".to_string())
    );
}

#[test]
fn compiler_messages_selected_by_reason() {
    let entries = vec![
        ("a".to_string(), Some(Some("compiler-message".to_string()))),
        ("b".to_string(), Some(Some("build-finished".to_string()))),
        ("c".to_string(), Some(None)),
        ("d".to_string(), Some(Some("compiler-message".to_string()))),
    ];
    assert_eq!(select_compiler_messages(entries), Some(vec!["a".to_string(), "d".to_string()]));
    let bad = vec![
        ("a".to_string(), Some(Some("compiler-message".to_string()))),
        ("x".to_string(), None),
    ];
    assert_eq!(select_compiler_messages(bad), None);
    assert_eq!(select_compiler_messages(vec![]), Some(vec![]));
}

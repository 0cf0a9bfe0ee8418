use crusts::auto_curs::{
    add_unsafe_keyword, closest_removed_prediction, error_spans, readd_required_unsafe_keywords,
    error_lines_in_file, give_back_all, give_backs_can_apply, predictions_from_records,
    predictions_to_remove, readd_in_file, removals_can_apply, remove_unsafe_predictions,
    span_file_name, Diagnostic, Level, Prediction, SpanLocation,
};

#[test]
fn test_add_unsafe_keyword() {
    // The file as `writeln!(file, "fn some_function() {{}}")` leaves it.
    let content = format!("fn some_function() {{}}\n");
    let modified_content =
        add_unsafe_keyword(&content, "unsafe fn some_function() {{}}".to_string(), 0);
    assert_eq!(modified_content, "unsafe fn some_function() {{}}");
}

// Add unsafe keyword to a function that doesn't have it
#[test]
fn test_add_unsafe_keyword_no_unsafe() {
    let content = format!("fn some_function() {{}}\n");
    let modified_content =
        add_unsafe_keyword(&content, "unsafe fn some_function() {{}}".to_string(), 0);
    assert_eq!(modified_content, "unsafe fn some_function() {{}}");
}

// Don't modify a function that already has the unsafe keyword
#[test]
fn test_add_unsafe_keyword_already_unsafe() {
    let content = format!("unsafe fn another_function() {{}}\n");
    let modified_content = add_unsafe_keyword(
        &content,
        "unsafe fn another_function() {{}}".to_string(),
        0,
    );
    assert_eq!(modified_content, "unsafe fn another_function() {}\n");
}

#[test]
fn add_unsafe_keyword_joins_lines_without_final_newline() {
    let content = "fn a() {}\r\nfn b() {}\nfn c() {}\n";
    let r = add_unsafe_keyword(content, "unsafe fn b() {}".to_string(), 1);
    assert_eq!(r, "fn a() {}\nunsafe fn b() {}\nfn c() {}");
}

#[test]
fn prediction_record_is_read() {
    let s = "src/main.rs,12,5,x,y,Safe,true";
    assert!(Prediction::is_record(s));
    let p = Prediction::from_str(s);
    assert_eq!(p.file_path, "src/main.rs");
    assert_eq!(p.line, 11);
    assert_eq!(p.col, 4);
    assert!(p.prediction);
    assert!(p.actual);
}

#[test]
fn prediction_unsafe_class_and_plus_sign() {
    let p = Prediction::from_str("a.rs,+3,1,,,Unsafe,false");
    assert_eq!(p.line, 2);
    assert_eq!(p.col, 0);
    assert!(!p.prediction);
    assert!(!p.actual);
}

#[test]
fn prediction_records_that_cannot_be_read() {
    assert!(!Prediction::is_record("a.rs,0,1,,,Safe,true"));
    assert!(!Prediction::is_record("a.rs,1,1,,,Safe,True"));
    assert!(!Prediction::is_record("a.rs,1,1,,,Safe"));
    assert!(!Prediction::is_record("a.rs,x1,1,,,Safe,true"));
    assert!(!Prediction::is_record("a.rs,1,,,,Safe,true"));
    assert!(!Prediction::is_record("a.rs,99999999999999999999999,1,,,Safe,true"));
    assert!(Prediction::is_record("a.rs,1,1,,,Safe,false,extra"));
}

fn prediction(line: usize, prediction: bool, actual: bool) -> Prediction {
    Prediction { file_path: "f.rs".to_string(), line, col: 0, prediction, actual }
}

#[test]
fn only_safe_predictions_of_unsafe_functions_are_removed() {
    let ps = vec![
        prediction(1, true, true),
        prediction(2, true, false),
        prediction(3, false, false),
        prediction(4, true, false),
        prediction(5, false, true),
    ];
    let r = predictions_to_remove(ps);
    let lines: Vec<usize> = r.iter().map(|p| p.line).collect();
    assert_eq!(lines, vec![2, 4]);
}

#[test]
fn only_the_predicted_line_loses_its_unsafe() {
    let content = "unsafe fn f() {}\nunsafe fn g() {}\n";
    let ps = vec![
        Prediction { file_path: "a.rs".to_string(), line: 0, col: 0, prediction: true, actual: false },
        Prediction { file_path: "a.rs".to_string(), line: 1, col: 0, prediction: false, actual: false },
    ];
    let (text, removed) = remove_unsafe_predictions(ps, "a.rs", content);
    assert_eq!(removed, vec![(0, "unsafe fn f() {}".to_string())]);
    assert_eq!(text, " fn f() {}\nunsafe fn g() {}\n");
}

#[test]
fn removals_are_applied_in_turn() {
    let content = "unsafe fn f() {}\r\nfn h() {}\nunsafe fn g() {}";
    let ps = vec![
        prediction(2, true, false),
        prediction(1, true, false),
        prediction(0, true, true),
        prediction(0, true, false),
    ];
    let (text, removed) = remove_unsafe_predictions(ps, "f.rs", content);
    assert_eq!(
        removed,
        vec![(2, "unsafe fn g() {}".to_string()), (0, "unsafe fn f() {}".to_string())]
    );
    assert_eq!(text, " fn f() {}\nfn h() {}\n fn g() {}\n");
}

#[test]
fn a_file_without_removals_is_left_as_it_was() {
    let content = "fn f() {}";
    let (text, removed) = remove_unsafe_predictions(vec![prediction(0, true, false)], "f.rs", content);
    assert_eq!(text, "fn f() {}");
    assert!(removed.is_empty());
    let (text, removed) = remove_unsafe_predictions(vec![], "f.rs", "x\r\n");
    assert_eq!(text, "x\r\n");
    assert!(removed.is_empty());
}

#[test]
fn remove_unsafe_cuts_the_first_unsafe_of_the_line() {
    let content = "fn a() {}\npub unsafe fn b() {}\n";
    let p = Prediction { file_path: "f.rs".to_string(), line: 1, col: 4, prediction: true, actual: false };
    let (new_content, (line, removed)) = p.remove_unsafe(content).unwrap();
    assert_eq!(new_content, "fn a() {}\npub  fn b() {}\n");
    assert_eq!(line, 1);
    assert_eq!(removed, "unsafe fn b() {}");
}

#[test]
fn remove_unsafe_leaves_a_line_without_unsafe_after_the_column() {
    let content = "unsafe fn a() {}\n";
    let p = Prediction { file_path: "f.rs".to_string(), line: 0, col: 7, prediction: true, actual: false };
    assert_eq!(p.remove_unsafe(content), None);
}

#[test]
fn remove_unsafe_counts_the_column_in_bytes() {
    let content = "/* é */ unsafe fn a() {}";
    let p = Prediction { file_path: "f.rs".to_string(), line: 0, col: 9, prediction: true, actual: false };
    let (new_content, (_, removed)) = p.remove_unsafe(content).unwrap();
    assert_eq!(removed, "unsafe fn a() {}");
    assert_eq!(new_content, "/* é */  fn a() {}\n");
}

#[test]
fn closest_removed_prediction_takes_the_greatest_line_not_after() {
    let removed = vec![
        (3, "a".to_string()),
        (10, "b".to_string()),
        (7, "c".to_string()),
        (10, "d".to_string()),
    ];
    assert_eq!(closest_removed_prediction(&removed, 9), Some(2));
    assert_eq!(closest_removed_prediction(&removed, 10), Some(1));
    assert_eq!(closest_removed_prediction(&removed, 100), Some(1));
    assert_eq!(closest_removed_prediction(&removed, 2), None);
    assert_eq!(closest_removed_prediction(&removed, 3), Some(0));
}

#[test]
fn readd_gives_each_line_back_once() {
    let removed = vec![(3, "unsafe fn a()".to_string()), (10, "unsafe fn b()".to_string())];
    let errors = vec![12, 4, 11, 1, 5, 10];
    let r = readd_required_unsafe_keywords(&removed, &errors);
    assert_eq!(r, vec![(10, "unsafe fn b()".to_string()), (3, "unsafe fn a()".to_string())]);
}

#[test]
fn readd_without_errors_gives_nothing_back() {
    let removed = vec![(3, "unsafe fn a()".to_string())];
    assert!(readd_required_unsafe_keywords(&removed, &vec![]).is_empty());
    assert!(readd_required_unsafe_keywords(&removed, &vec![1, 2]).is_empty());
}

fn span(file: &str, line: usize, expansion: Option<&str>) -> SpanLocation {
    SpanLocation {
        file_name: file.to_string(),
        line_start: line,
        expansion_file_name: expansion.map(|e| e.to_string()),
    }
}

#[test]
fn error_spans_keep_only_errors_in_order() {
    let messages = vec![
        Diagnostic { level: Level::Error, spans: vec![span("a.rs", 1, None), span("a.rs", 2, None)] },
        Diagnostic { level: Level::Warning, spans: vec![span("b.rs", 3, None)] },
        Diagnostic { level: Level::Ice, spans: vec![span("d.rs", 5, None)] },
        Diagnostic { level: Level::Error, spans: vec![span("c.rs", 4, None)] },
    ];
    let r = error_spans(messages);
    let got: Vec<(String, usize)> = r.iter().map(|s| (s.file_name.clone(), s.line_start)).collect();
    assert_eq!(
        got,
        vec![("a.rs".to_string(), 1), ("a.rs".to_string(), 2), ("c.rs".to_string(), 4)]
    );
}

#[test]
fn span_file_name_follows_expansions_out_of_std() {
    assert_eq!(span_file_name(&span("src/lib.rs", 1, Some("x.rs"))), "src/lib.rs");
    assert_eq!(
        span_file_name(&span("/rustc/abc/library/core/src/macros.rs", 1, Some("src/main.rs"))),
        "src/main.rs"
    );
}

#[test]
fn giving_back_a_removed_unsafe_restores_the_line() {
    let content = "fn a() {}\nunsafe fn b() {}\n";
    let p = Prediction { file_path: "f.rs".to_string(), line: 1, col: 0, prediction: true, actual: false };
    let (written, (line, removed)) = p.remove_unsafe(content).unwrap();
    assert_eq!(written, "fn a() {}\n fn b() {}\n");
    assert_eq!(add_unsafe_keyword(&written, removed, line), "fn a() {}\nunsafe fn b() {}");
}

#[test]
fn giving_back_from_a_later_column_keeps_only_the_cut_text() {
    let content = "pub unsafe fn b() {}\n";
    let p = Prediction { file_path: "f.rs".to_string(), line: 0, col: 4, prediction: true, actual: false };
    let (written, (line, removed)) = p.remove_unsafe(content).unwrap();
    assert_eq!(add_unsafe_keyword(&written, removed, line), "unsafe fn b() {}");
}

#[test]
fn giving_back_restores_the_lines_of_the_file() {
    let content = "fn a() {}\nunsafe fn b() {}\nfn c() {}\n";
    let p = Prediction { file_path: "f.rs".to_string(), line: 1, col: 0, prediction: true, actual: false };
    let (written, (line, removed)) = p.remove_unsafe(content).unwrap();
    let back = add_unsafe_keyword(&written, removed, line);
    let before: Vec<&str> = content.lines().collect();
    let after: Vec<&str> = back.lines().collect();
    assert_eq!(after, before);
}

#[test]
fn removals_apply_only_to_one_file_and_existing_lines() {
    let content = "unsafe fn f() {}\n";
    let ok = vec![prediction(0, true, false), prediction(7, false, false)];
    assert!(removals_can_apply(&ok, "f.rs", content));
    let other_file = vec![Prediction { file_path: "g.rs".to_string(), line: 0, col: 0, prediction: true, actual: false }];
    assert!(!removals_can_apply(&other_file, "f.rs", content));
    assert!(!removals_can_apply(&vec![prediction(1, true, false)], "f.rs", content));
    let mid_char = vec![Prediction { file_path: "f.rs".to_string(), line: 0, col: 1, prediction: true, actual: false }];
    assert!(!removals_can_apply(&mid_char, "f.rs", "\u{e9}unsafe fn f() {}"));
    assert!(removals_can_apply(&vec![], "f.rs", ""));
}

#[test]
fn model_output_is_read_into_predictions() {
    let records = vec![
        "src/a.rs,3,5,x,y,Safe,true".to_string(),
        "src/b.rs,1,1,x,y,Unsafe,false".to_string(),
    ];
    let ps = predictions_from_records(&records).unwrap();
    let got: Vec<(String, usize, usize, bool, bool)> =
        ps.iter().map(|p| (p.file_path.clone(), p.line, p.col, p.prediction, p.actual)).collect();
    assert_eq!(
        got,
        vec![("src/a.rs".to_string(), 2, 4, true, true), ("src/b.rs".to_string(), 0, 0, false, false)]
    );
    let bad = vec!["src/a.rs,3,5,x,y,Safe,true".to_string(), "src/a.rs,0,5,x,y,Safe,true".to_string()];
    assert!(predictions_from_records(&bad).is_none());
    assert_eq!(predictions_from_records(&vec![]).map(|v| v.len()), Some(0));
}

#[test]
fn error_lines_are_taken_from_the_file_only() {
    let spans = vec![span("src/a.rs", 2, None), span("src/b.rs", 5, None), span("x", 9, None)];
    let names = vec!["/p/src/a.rs".to_string(), "/p/src/b.rs".to_string(), "/p/src/a.rs".to_string()];
    assert_eq!(error_lines_in_file(&spans, &names, "/p/src/a.rs"), vec![2, 9]);
    assert!(error_lines_in_file(&spans, &names, "/p/src/c.rs").is_empty());
}

#[test]
fn entries_are_given_back_in_turn() {
    let content = " fn f() {}\nfn h() {}\n fn g() {}\n";
    let entries = vec![(2, "unsafe fn g() {}".to_string()), (0, "unsafe fn f() {}".to_string())];
    assert!(give_backs_can_apply(content, &entries));
    assert_eq!(give_back_all(content, &entries), "unsafe fn f() {}\nfn h() {}\nunsafe fn g() {}");
    assert!(!give_backs_can_apply(content, &vec![(3, "x".to_string())]));
    assert_eq!(give_back_all(content, &vec![]), content);
}

#[test]
fn only_errors_of_the_file_give_back() {
    let content = " fn f() {}\nfn h() {}\n fn g() {}\n";
    let removed = vec![(0, "unsafe fn f() {}".to_string()), (2, "unsafe fn g() {}".to_string())];
    let spans = vec![span("src/a.rs", 1, None), span("src/b.rs", 3, None), span("src/a.rs", 1, None)];
    let names = vec!["/p/a.rs".to_string(), "/p/b.rs".to_string(), "/p/a.rs".to_string()];
    assert_eq!(
        readd_in_file(content, "/p/a.rs", &spans, &names, &removed),
        "unsafe fn f() {}\nfn h() {}\n fn g() {}"
    );
    assert_eq!(readd_in_file(content, "/p/c.rs", &spans, &names, &removed), content);
}

#[test]
fn giving_back_restores_a_last_line_ending_in_a_carriage_return() {
    let content = "fn a() {}\nunsafe fn b() {}\r";
    let p = Prediction { file_path: "f.rs".to_string(), line: 1, col: 0, prediction: true, actual: false };
    let (written, (line, removed)) = p.remove_unsafe(content).unwrap();
    let back = add_unsafe_keyword(&written, removed, line);
    let before: Vec<&str> = content.lines().collect();
    let after: Vec<&str> = back.lines().collect();
    assert_eq!(after, before);
}

use upgrade_assistant::category::{Category, Code};
use upgrade_assistant::converge::{CycleAction, Driver, RunOutcome};
use upgrade_assistant::boundary::within_boundary;
use upgrade_assistant::parse::{parse_line, parse_lines, extract_workspace_root, DecodeError};
use upgrade_assistant::patch::patch_file;
use upgrade_assistant::plan::{collect_plan, plan_eq, DiagnosticRecord, EditPlan, FileEdits, Message};
use upgrade_assistant::span::Span;

fn suffix() -> Vec<u8> {
    b"Snafu".to_vec()
}

fn rename(start: usize, end: usize) -> Category<(usize, usize)> {
    Category::ContextSelectorRename((start, end))
}

fn with_arg(start: usize, end: usize) -> Category<(usize, usize)> {
    Category::WithContextArgument((start, end))
}

#[test]
fn legacy_error_suffix_is_stripped() {
    let content = b"FooError".to_vec();
    let anchors = vec![rename(0, 8)];
    let fp = patch_file(&content, &anchors, &suffix(), false).unwrap();
    assert_eq!(fp.new_content, b"FooSnafu".to_vec());
    assert!(fp.write);
}

#[test]
fn legacy_context_suffix_is_stripped() {
    let content = b"FooContext".to_vec();
    let anchors = vec![rename(0, 10)];
    let fp = patch_file(&content, &anchors, &suffix(), false).unwrap();
    assert_eq!(fp.new_content, b"FooSnafu".to_vec());
}

#[test]
fn rename_is_idempotent() {
    let content = b"FooSnafu".to_vec();
    let anchors = vec![rename(0, 8)];
    let fp = patch_file(&content, &anchors, &suffix(), false).unwrap();
    assert_eq!(fp.new_content, content);
}

#[test]
fn rename_applied_twice_converges() {
    let content = b"FooError rest".to_vec();
    let anchors = vec![rename(0, 8)];
    let once = patch_file(&content, &anchors, &suffix(), false).unwrap().new_content;
    assert_eq!(once, b"FooSnafu rest".to_vec());
    // re-apply at the adjusted end offset, where the suffix now ends
    let anchors2 = vec![rename(0, 8)];
    let twice = patch_file(&once, &anchors2, &suffix(), false).unwrap().new_content;
    assert_eq!(twice, once);
}

#[test]
fn placeholder_is_inserted_between_pipes() {
    let content = b"|| x.fail()".to_vec();
    let anchors = vec![with_arg(0, 2)];
    let fp = patch_file(&content, &anchors, &suffix(), false).unwrap();
    assert_eq!(fp.new_content, b"|_| x.fail()".to_vec());
}

#[test]
fn splice_changes_nothing_outside_the_anchors() {
    let content = b"xxError yyError".to_vec();
    let anchors = vec![rename(2, 7), rename(10, 15)];
    let fp = patch_file(&content, &anchors, &suffix(), false).unwrap();
    assert_eq!(fp.new_content, b"xxSnafu yySnafu".to_vec());
}

#[test]
fn later_edit_does_not_shift_earlier_offsets() {
    // mixed categories: offsets of both anchors are in original coordinates
    let content = b"ab || cdError".to_vec();
    let anchors = vec![with_arg(3, 5), rename(8, 13)];
    let fp = patch_file(&content, &anchors, &suffix(), false).unwrap();
    assert_eq!(fp.new_content, b"ab |_| cdSnafu".to_vec());
}

#[test]
fn out_of_bounds_anchor_is_rejected() {
    let content = b"short".to_vec();
    let anchors = vec![rename(0, 99)];
    assert!(patch_file(&content, &anchors, &suffix(), false).is_none());
}

#[test]
fn dry_run_still_computes_content_but_never_writes() {
    let content = b"FooError".to_vec();
    let anchors = vec![rename(0, 8)];
    let fp = patch_file(&content, &anchors, &suffix(), true).unwrap();
    assert_eq!(fp.new_content, b"FooSnafu".to_vec());
    assert!(!fp.write);
}

#[test]
fn rename_codes_are_recognized() {
    for c in ["E0412", "E0422", "E0423", "E0425", "E0432", "E0574"] {
        let code = Code { code: c.to_string() };
        assert!(code.is_context_selector_rename(), "{c}");
        assert!(!code.is_with_context_argument(), "{c}");
    }
}

#[test]
fn argument_code_is_recognized() {
    let code = Code { code: "E0593".to_string() };
    assert!(!code.is_context_selector_rename());
    assert!(code.is_with_context_argument());
}

#[test]
fn unknown_code_yields_no_category() {
    let code = Code { code: "E9999".to_string() };
    assert_eq!(code.categorize(7), None);
}

#[test]
fn categorize_picks_the_matching_branch() {
    let rename_code = Code { code: "E0425".to_string() };
    assert_eq!(rename_code.categorize(1), Some(Category::ContextSelectorRename(1)));
    let arg_code = Code { code: "E0593".to_string() };
    assert_eq!(arg_code.categorize(2), Some(Category::WithContextArgument(2)));
}

#[test]
fn category_accessors_keep_branch_and_payload() {
    let c = Category::ContextSelectorRename(5);
    assert_eq!(*c.as_ref().unify(), 5);
    assert_eq!(c.unify(), 5);
    assert_eq!(c.map(|x: i32| x + 1), Category::ContextSelectorRename(6));
    let w = Category::WithContextArgument(3);
    assert_eq!(w.map(|x: i32| x * 2), Category::WithContextArgument(6));
}

fn span(start: usize, end: usize, file: &str, primary: bool) -> Span {
    Span { byte_start: start, byte_end: end, file_name: file.as_bytes().to_vec(), is_primary: primary }
}

fn msg(code: Option<&str>, spans: Vec<Span>) -> DiagnosticRecord {
    DiagnosticRecord::CompilerMessage(Message {
        code: code.map(|c| Code { code: c.to_string() }),
        spans,
    })
}

#[test]
fn collector_dedups_groups_and_orders() {
    let records = vec![
        msg(Some("E0412"), vec![
            span(10, 15, "b.rs", true),
            span(0, 5, "a.rs", true),
            span(7, 9, "a.rs", false), // secondary span of a rename: ignored
        ]),
        msg(Some("E0593"), vec![
            span(3, 5, "a.rs", false),
            span(3, 5, "a.rs", true), // primary span of an argument: ignored
        ]),
        // byte-identical duplicate of the first message: deduplicated
        msg(Some("E0412"), vec![span(0, 5, "a.rs", true)]),
        DiagnosticRecord::Other,
        msg(None, vec![span(1, 2, "c.rs", true)]),
        msg(Some("E9999"), vec![span(1, 2, "c.rs", true)]),
    ];
    let plan = collect_plan(&records);
    assert_eq!(plan.files.len(), 2);
    assert_eq!(plan.files[0].file_name, b"a.rs".to_vec());
    assert_eq!(plan.files[0].anchors, vec![rename(0, 5), with_arg(3, 5)]);
    assert_eq!(plan.files[1].file_name, b"b.rs".to_vec());
    assert_eq!(plan.files[1].anchors, vec![rename(10, 15)]);
}

#[test]
fn empty_records_yield_empty_plan() {
    let records: Vec<DiagnosticRecord> = vec![DiagnosticRecord::Other];
    let plan = collect_plan(&records);
    assert!(plan.is_empty());
}

fn plan_of(file: &str, anchors: Vec<Category<(usize, usize)>>) -> EditPlan {
    EditPlan { files: vec![FileEdits { file_name: file.as_bytes().to_vec(), anchors }] }
}

#[test]
fn plan_equality_compares_files_and_anchors() {
    let a = plan_of("a.rs", vec![rename(0, 5)]);
    let b = plan_of("a.rs", vec![rename(0, 5)]);
    let c = plan_of("a.rs", vec![rename(0, 6)]);
    let d = plan_of("b.rs", vec![rename(0, 5)]);
    let e = plan_of("a.rs", vec![with_arg(0, 5)]);
    assert!(plan_eq(&a, &b));
    assert!(!plan_eq(&a, &c));
    assert!(!plan_eq(&a, &d));
    assert!(!plan_eq(&a, &e));
}

#[test]
fn loop_stops_with_success_when_plan_empties() {
    let mut d = Driver::new(false, 5);
    let p1 = plan_of("a.rs", vec![rename(0, 5)]);
    let p2 = plan_of("a.rs", vec![rename(9, 12)]);
    let empty = EditPlan { files: Vec::new() };
    assert_eq!(d.on_cycle(p1), CycleAction::RunAnother);
    assert_eq!(d.on_cycle(p2), CycleAction::RunAnother);
    assert_eq!(d.on_cycle(empty), CycleAction::Stop(RunOutcome::Converged));
}

#[test]
fn loop_stops_without_progress_on_a_repeated_plan() {
    let mut d = Driver::new(false, 5);
    let p1 = plan_of("a.rs", vec![rename(0, 5)]);
    let p1_again = plan_of("a.rs", vec![rename(0, 5)]);
    assert_eq!(d.on_cycle(p1), CycleAction::RunAnother);
    assert_eq!(d.on_cycle(p1_again), CycleAction::Stop(RunOutcome::NoProgress));
}

#[test]
fn loop_stops_at_the_iteration_ceiling() {
    let mut d = Driver::new(false, 1);
    assert_eq!(d.on_cycle(plan_of("a.rs", vec![rename(0, 1)])), CycleAction::RunAnother);
    assert_eq!(d.on_cycle(plan_of("a.rs", vec![rename(1, 2)])), CycleAction::RunAnother);
    assert_eq!(
        d.on_cycle(plan_of("a.rs", vec![rename(2, 3)])),
        CycleAction::Stop(RunOutcome::CeilingExceeded)
    );
}

#[test]
fn dry_run_performs_exactly_one_cycle() {
    let mut d = Driver::new(true, 5);
    let p1 = plan_of("a.rs", vec![rename(0, 5)]);
    assert_eq!(d.on_cycle(p1), CycleAction::Stop(RunOutcome::DryRunComplete));
}

#[test]
fn compiler_message_line_is_decoded() {
    let line = r#"{"reason":"compiler-message","message":{"code":{"code":"E0412"},"spans":[{"byte_start":0,"byte_end":5,"file_name":"a.rs","is_primary":true}]}}"#;
    match parse_line(line) {
        Ok(DiagnosticRecord::CompilerMessage(m)) => {
            assert_eq!(m.code.unwrap().code, "E0412");
            assert_eq!(m.spans.len(), 1);
            assert_eq!(m.spans[0].byte_start, 0);
            assert_eq!(m.spans[0].byte_end, 5);
            assert_eq!(m.spans[0].file_name, b"a.rs".to_vec());
            assert!(m.spans[0].is_primary);
        }
        other => panic!("unexpected: {:?}", other.map(|_| ())),
    }
}

#[test]
fn other_records_are_dropped() {
    let line = r#"{"reason":"build-finished","success":true}"#;
    assert!(matches!(parse_line(line), Ok(DiagnosticRecord::Other)));
}

#[test]
fn invalid_json_is_a_fatal_syntax_error() {
    assert_eq!(parse_line("not json at all").unwrap_err(), DecodeError::Syntax);
}

#[test]
fn malformed_message_is_a_fatal_shape_error() {
    let no_message = r#"{"reason":"compiler-message"}"#;
    assert_eq!(parse_line(no_message).unwrap_err(), DecodeError::Shape);
    let no_reason = r#"{"success":true}"#;
    assert_eq!(parse_line(no_reason).unwrap_err(), DecodeError::Shape);
    let bad_span = r#"{"reason":"compiler-message","message":{"code":null,"spans":[{"byte_start":-1,"byte_end":5,"file_name":"a.rs","is_primary":true}]}}"#;
    assert_eq!(parse_line(bad_span).unwrap_err(), DecodeError::Shape);
}

#[test]
fn null_code_is_no_code() {
    let line = r#"{"reason":"compiler-message","message":{"code":null,"spans":[]}}"#;
    match parse_line(line) {
        Ok(DiagnosticRecord::CompilerMessage(m)) => {
            assert!(m.code.is_none());
            assert!(m.spans.is_empty());
        }
        _ => panic!("expected a compiler message"),
    }
}

#[test]
fn one_bad_line_fails_the_whole_batch() {
    let lines = vec![
        r#"{"reason":"build-finished"}"#.to_string(),
        "garbage".to_string(),
    ];
    assert_eq!(parse_lines(&lines).unwrap_err(), DecodeError::Syntax);
    let good = vec![r#"{"reason":"build-finished"}"#.to_string()];
    assert_eq!(parse_lines(&good).unwrap().len(), 1);
}

#[test]
fn workspace_root_is_extracted_from_metadata() {
    let out = r#"{"packages":[],"workspace_root":"/my/project"}"#;
    assert_eq!(extract_workspace_root(out), Some(b"/my/project".to_vec()));
    assert_eq!(extract_workspace_root("{}"), None);
    assert_eq!(extract_workspace_root("nope"), None);
}

#[test]
fn boundary_accepts_paths_inside_and_rejects_outside() {
    assert!(within_boundary(&b"/w/src/main.rs".to_vec(), &b"/w".to_vec()));
    assert!(within_boundary(&b"/w/src".to_vec(), &b"/w/".to_vec()));
    assert!(within_boundary(&b"/w".to_vec(), &b"/w".to_vec()));
    assert!(!within_boundary(&b"/wx/file.rs".to_vec(), &b"/w".to_vec()));
    assert!(!within_boundary(&b"/other/file.rs".to_vec(), &b"/w".to_vec()));
}

#[test]
fn same_range_under_both_categories_keeps_both_anchors() {
    // a rename diagnostic (primary span) and an argument diagnostic
    // (secondary span) at one byte range: distinct locations, both kept,
    // the argument anchor first
    let records = vec![
        msg(Some("E0412"), vec![span(3, 5, "a.rs", true)]),
        msg(Some("E0593"), vec![span(3, 5, "a.rs", false)]),
    ];
    let plan = collect_plan(&records);
    assert_eq!(plan.files.len(), 1);
    assert_eq!(plan.files[0].anchors, vec![with_arg(3, 5), rename(3, 5)]);
}

#[test]
fn strip_that_undercuts_an_earlier_anchor_is_rejected() {
    // the right anchor's strip removes bytes the left anchor's cut needs:
    // the anchors do not overlap, yet the splice cannot stay in bounds
    let content = b"xyError".to_vec();
    let anchors = vec![rename(1, 3), rename(3, 7)];
    assert!(patch_file(&content, &anchors, &suffix(), false).is_none());
}

#[test]
fn boundary_trailing_separators_are_normalized() {
    assert!(within_boundary(&b"/w/src".to_vec(), &b"/w//".to_vec()));
    assert!(within_boundary(&b"/w".to_vec(), &b"/w///".to_vec()));
    assert!(!within_boundary(&b"/wx".to_vec(), &b"/w//".to_vec()));
    // a boundary of nothing but separators admits every absolute path
    assert!(within_boundary(&b"/anything".to_vec(), &b"/".to_vec()));
    assert!(within_boundary(&b"/anything".to_vec(), &b"".to_vec()));
}

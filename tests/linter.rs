use xgovw_lint::document::{parse_fields, process};
use xgovw_lint::linter::{default_lints, directory_of, resolve_external, Linter, RegistryError, Report, RunError, Source};
use xgovw_lint::preamble::{split_preamble, SplitError};
use xgovw_lint::rules::{document_file_name, label_tier, labels_up_to, Email, Lint, RequiresStatus};
use xgovw_lint::text::{parse_u64, str_lt, trim_str};
use xgovw_lint::tree::{reconcile_lines, BodyNode};

fn flow() -> Vec<Vec<String>> {
    vec![
        vec!["Draft".to_string()],
        vec!["Candidate".to_string()],
        vec!["Final".to_string(), "Elected".to_string()],
    ]
}

fn requires_status() -> Lint {
    Lint::RequiresStatus(RequiresStatus {
        references: "requires".to_string(),
        status: "status".to_string(),
        flow: flow(),
    })
}

fn tiered_linter() -> Linter {
    Linter::new()
        .clear_lints()
        .add_lint("preamble-requires-status", requires_status())
        .unwrap()
}

/// Runs the three passes the way a host does, fetching from a fixed table
/// and counting fetches.
fn run(linter: &Linter, files: &[(&str, &str)]) -> (Result<Vec<Report>, RunError>, Vec<String>) {
    let read = |p: &str| files.iter().find(|(n, _)| *n == p).map(|(_, t)| t.to_string());
    let fetched: Vec<String> = linter
        .sources
        .iter()
        .map(|s| match s {
            Source::File(p) => read(p).unwrap(),
            Source::Inline { .. } => String::new(),
        })
        .collect();
    let found = match linter.discover(&fetched) {
        Ok(d) => d,
        Err(e) => return (Err(e), vec![]),
    };
    let mut calls = Vec::new();
    let mut ext = Vec::new();
    for p in &found.paths {
        calls.push(p.clone());
        let fetched = read(p).ok_or_else(|| "no such file".to_string());
        ext.push(resolve_external(p.clone(), fetched));
    }
    (linter.validate(&fetched, &ext), calls)
}

fn rule_diagnostics(reports: &[Report]) -> usize {
    reports.iter().map(|r| r.rules.iter().map(|v| v.len()).sum::<usize>()).sum()
}

const FINAL_ONE: &str = "---\nid: 1\nstatus: Final\n---\nbody\n";
const DRAFT_TWO: &str = "---\nid: 2\nstatus: Draft\nrequires: 1\n---\nbody\n";
const DRAFT_ONE: &str = "---\nid: 1\nstatus: Draft\n---\nbody\n";
const FINAL_TWO: &str = "---\nid: 2\nstatus: Final\nrequires: 1\n---\nbody\n";

#[test]
fn split_preamble_separates_parts() {
    let (p, b) = split_preamble("---\na: b\nc: d\n---\nhello\n").unwrap();
    assert_eq!(p, "a: b\nc: d");
    assert_eq!(b, "hello\n");
}

#[test]
fn split_preamble_empty_preamble() {
    let (p, b) = split_preamble("---\n---\nx").unwrap();
    assert_eq!(p, "");
    assert_eq!(b, "x");
}

#[test]
fn split_preamble_errors() {
    assert_eq!(split_preamble("a: b\n---\n"), Err(SplitError::MissingStart));
    assert_eq!(split_preamble(""), Err(SplitError::MissingStart));
    assert_eq!(split_preamble("---x\na: b\n---\n"), Err(SplitError::LeadingGarbage));
    assert_eq!(split_preamble("---\na: b\n"), Err(SplitError::MissingEnd));
    assert_eq!(split_preamble("---"), Err(SplitError::MissingEnd));
    assert_eq!(split_preamble("---\na: b\n----\n"), Err(SplitError::MissingEnd));
}

#[test]
fn fields_keep_order_and_lines() {
    let (fields, bad) = parse_fields("id: 7\nauthor:  Ann \nbroken line\nstatus: Draft");
    assert_eq!(fields.len(), 3);
    assert_eq!(fields[0].name, "id");
    assert_eq!(fields[0].line, 2);
    assert_eq!(fields[1].value, "Ann");
    assert_eq!(fields[1].raw_value, "  Ann ");
    assert_eq!(fields[1].source, "author:  Ann ");
    assert_eq!(fields[2].name, "status");
    assert_eq!(fields[2].line, 5);
    assert_eq!(bad.len(), 1);
    assert_eq!(bad[0].0, 4);
    assert_eq!(bad[0].1, "broken line");
}

#[test]
fn malformed_field_line_is_reported_and_rest_kept() {
    let (doc, diags) = process(&None, "---\nid: 1\noops\nstatus: Final\n---\n");
    let doc = doc.unwrap();
    assert_eq!(doc.fields.len(), 2);
    assert_eq!(diags.len(), 1);
    assert_eq!(diags[0].slices[0].line_start, 3);
    assert_eq!(diags[0].slices[0].source, "oops");
    assert_eq!(doc.text, "---\nid: 1\noops\nstatus: Final\n---\n");
}

#[test]
fn missing_opening_fence_gives_one_diagnostic() {
    let (doc, diags) = process(&Some("a.md".to_string()), "id: 1\n---\n");
    assert!(doc.is_none());
    assert_eq!(diags.len(), 1);
    assert_eq!(diags[0].message, "first line must be `---` exactly");
    assert!(diags[0].footer.is_empty());
    assert_eq!(diags[0].slices[0].source, "id: 1");
}

#[test]
fn carriage_return_gets_a_hint() {
    let (doc, diags) = process(&None, "---\r\nid: 1\r\n---\r\n");
    assert!(doc.is_none());
    assert_eq!(diags.len(), 1);
    assert_eq!(diags[0].footer.len(), 1);
    assert!(diags[0].footer[0].contains("carriage return"));
}

#[test]
fn missing_closing_fence_gives_one_diagnostic() {
    let (doc, diags) = process(&None, "---\nid: 1\n");
    assert!(doc.is_none());
    assert_eq!(diags.len(), 1);
    assert_eq!(diags[0].message, "preamble must be followed by a line containing `---` exactly");
}

#[test]
fn body_lines_are_shifted_past_preamble() {
    let nodes = vec![
        BodyNode { kind: "document".to_string(), parent: None, line: 1 },
        BodyNode { kind: "paragraph".to_string(), parent: Some(0), line: 3 },
        BodyNode { kind: "text".to_string(), parent: Some(1), line: 0 },
        BodyNode { kind: "orphan".to_string(), parent: None, line: 0 },
    ];
    // Two preamble lines: one newline between them.
    let lines = reconcile_lines(&nodes, "id: 1\nstatus: Final");
    assert_eq!(lines, vec![5, 7, 7, 5]);
}

#[test]
fn file_names_are_zero_padded() {
    assert_eq!(document_file_name(1), "xgov-0001.md");
    assert_eq!(document_file_name(0), "xgov-0000.md");
    assert_eq!(document_file_name(42), "xgov-0042.md");
    assert_eq!(document_file_name(999), "xgov-0999.md");
    assert_eq!(document_file_name(1000), "xgov-1000.md");
    assert_eq!(document_file_name(12345), "xgov-12345.md");
}

#[test]
fn numbers_parse_like_u64() {
    assert_eq!(parse_u64("17"), Some(17));
    assert_eq!(parse_u64("+5"), Some(5));
    assert_eq!(parse_u64("18446744073709551615"), Some(u64::MAX));
    assert_eq!(parse_u64("18446744073709551616"), None);
    assert_eq!(parse_u64(""), None);
    assert_eq!(parse_u64("+"), None);
    assert_eq!(parse_u64("-1"), None);
    assert_eq!(parse_u64("1a"), None);
}

#[test]
fn trimming_and_order() {
    assert_eq!(trim_str(" \t a b \r"), "a b");
    assert_eq!(trim_str("   "), "");
    assert!(str_lt("abc", "abd"));
    assert!(str_lt("ab", "abc"));
    assert!(!str_lt("abc", "abc"));
    assert!(!str_lt("b", "a"));
}

#[test]
fn directories_keep_trailing_slash() {
    assert_eq!(directory_of("docs/xgov-0002.md"), "docs/");
    assert_eq!(directory_of("xgov-0002.md"), "");
    assert_eq!(directory_of("/a/b/c.md"), "/a/b/");
}

#[test]
fn tiers_follow_the_flow() {
    let f = flow();
    assert_eq!(label_tier(&f, "Draft"), 1);
    assert_eq!(label_tier(&f, "Candidate"), 2);
    assert_eq!(label_tier(&f, "Elected"), 3);
    assert_eq!(label_tier(&f, "Unknown"), 0);
    assert_eq!(labels_up_to(&f, 2), vec!["Candidate".to_string(), "Draft".to_string()]);
    assert_eq!(
        labels_up_to(&f, 3),
        vec!["Candidate".to_string(), "Draft".to_string(), "Elected".to_string(), "Final".to_string()]
    );
}

#[test]
fn default_registry_holds_email_rule() {
    let d = default_lints();
    assert_eq!(d.len(), 1);
    assert_eq!(d[0].0, "preamble-email");
    let l = Linter::new();
    assert_eq!(l.slugs, vec!["preamble-email".to_string()]);
    let l = Linter::default();
    assert_eq!(l.slugs, vec!["preamble-email".to_string()]);
    assert!(l.sources.is_empty());
}

#[test]
fn registering_same_slug_twice_fails() {
    let l = Linter::new().add_lint("b-rule", requires_status()).unwrap();
    let r = l.add_lint("b-rule", Lint::Email(Email("email".to_string())));
    assert_eq!(r.err(), Some(RegistryError::DuplicateSlug("b-rule".to_string())));
}

#[test]
fn rules_are_kept_in_slug_order() {
    let l = Linter::new()
        .clear_lints()
        .add_lint("zeta", requires_status())
        .unwrap()
        .add_lint("alpha", Lint::Email(Email("email".to_string())))
        .unwrap()
        .add_lint("mid", Lint::Email(Email("contact".to_string())))
        .unwrap();
    assert_eq!(l.slugs, vec!["alpha".to_string(), "mid".to_string(), "zeta".to_string()]);
    let l = l.remove_lint("mid").unwrap();
    assert_eq!(l.slugs, vec!["alpha".to_string(), "zeta".to_string()]);
}

#[test]
fn removing_unknown_slug_fails() {
    let r = Linter::new().remove_lint("nope");
    assert_eq!(r.err(), Some(RegistryError::UnknownSlug("nope".to_string())));
}

#[test]
fn empty_registry_or_sources_stop_the_run() {
    let l = Linter::new().clear_lints().check_file("xgov-0001.md".to_string());
    assert_eq!(l.discover(&vec![String::new()]).err(), Some(RunError::NoLints));
    let l = Linter::new();
    assert_eq!(l.discover(&vec![]).err(), Some(RunError::NoSources));
    assert_eq!(l.validate(&vec![], &vec![]).err(), Some(RunError::NoSources));
}

#[test]
fn sources_know_their_origin() {
    let s = Source::Inline { origin: Some("label".to_string()), text: "x".to_string() };
    assert!(s.is_string());
    assert_eq!(s.origin(), Some("label".to_string()));
    let f = Source::File("a/b.md".to_string());
    assert!(!f.is_string());
    assert_eq!(f.origin(), Some("a/b.md".to_string()));
    let n = Source::Inline { origin: None, text: "x".to_string() };
    assert_eq!(n.origin(), None);
}

#[test]
fn inline_source_requesting_external_is_a_policy_violation() {
    let l = tiered_linter().check_slice(Some("inline".to_string()), DRAFT_TWO.to_string());
    let (r, calls) = run(&l, &[]);
    assert_eq!(
        r.err(),
        Some(RunError::SliceFetched {
            lint: "preamble-requires-status".to_string(),
            origin: Some("inline".to_string()),
        })
    );
    assert!(calls.is_empty());
}

#[test]
fn inline_source_without_references_is_checked() {
    let l = tiered_linter().check_slice(None, FINAL_ONE.to_string());
    let (r, _) = run(&l, &[]);
    let reports = r.unwrap();
    assert_eq!(reports.len(), 1);
    assert_eq!(rule_diagnostics(&reports), 0);
}

#[test]
fn same_external_is_fetched_once() {
    let three = "---\nid: 3\nstatus: Draft\nrequires: 1\n---\n";
    let l = tiered_linter()
        .check_file("d/xgov-0002.md".to_string())
        .check_file("d/xgov-0003.md".to_string());
    let files = [("d/xgov-0001.md", FINAL_ONE), ("d/xgov-0002.md", DRAFT_TWO), ("d/xgov-0003.md", three)];
    let (r, calls) = run(&l, &files);
    assert_eq!(calls, vec!["d/xgov-0001.md".to_string()]);
    assert!(r.is_ok());
}

#[test]
fn broken_document_is_skipped_and_others_checked() {
    let l = tiered_linter()
        .check_file("xgov-0009.md".to_string())
        .check_file("xgov-0002.md".to_string());
    let files = [("xgov-0009.md", "no fence\n"), ("xgov-0002.md", FINAL_TWO), ("xgov-0001.md", DRAFT_ONE)];
    let reports = run(&l, &files).0.unwrap();
    assert!(reports[0].document.is_none());
    assert_eq!(reports[0].parse.len(), 1);
    assert!(reports[0].rules.is_empty());
    assert!(reports[1].document.is_some());
    assert_eq!(reports[1].rules.len(), 1);
    assert_eq!(reports[1].rules[0].len(), 1);
}

#[test]
fn less_advanced_requirement_is_flagged() {
    let l = tiered_linter().check_file("xgov-0002.md".to_string());
    let files = [("xgov-0001.md", DRAFT_ONE), ("xgov-0002.md", FINAL_TWO)];
    let reports = run(&l, &files).0.unwrap();
    assert_eq!(rule_diagnostics(&reports), 1);
    let d = &reports[0].rules[0][0];
    assert_eq!(d.rule.as_deref(), Some("preamble-requires-status"));
    assert_eq!(
        d.message,
        "preamble header `requires` contains items not stable enough for a `status` of `Final`"
    );
    assert_eq!(d.slices[0].line_start, 4);
    assert_eq!(d.slices[0].source, "requires: 1");
    assert_eq!(d.slices[0].annotations.len(), 1);
    assert_eq!((d.slices[0].annotations[0].start, d.slices[0].annotations[0].end), (9, 11));
    assert_eq!(
        d.footer,
        vec!["valid `status` values for this proposal are: `Draft`".to_string()]
    );
}

#[test]
fn more_advanced_requirement_is_accepted() {
    let l = tiered_linter().check_file("xgov-0002.md".to_string());
    let files = [("xgov-0001.md", FINAL_ONE), ("xgov-0002.md", DRAFT_TWO)];
    let reports = run(&l, &files).0.unwrap();
    assert_eq!(rule_diagnostics(&reports), 0);
}

#[test]
fn equally_advanced_requirement_is_accepted() {
    let two = "---\nid: 2\nstatus: Elected\nrequires: 1\n---\nbody\n";
    let l = tiered_linter().check_file("xgov-0002.md".to_string());
    let files = [("xgov-0001.md", FINAL_ONE), ("xgov-0002.md", two)];
    let reports = run(&l, &files).0.unwrap();
    assert_eq!(rule_diagnostics(&reports), 0);
}

#[test]
fn end_to_end_status_change_clears_diagnostic() {
    let one = "---\nid: 1\nstatus: Candidate\n---\nbody\n";
    let l = tiered_linter().check_file("xgov-0002.md".to_string());
    let files = [("xgov-0001.md", one), ("xgov-0002.md", FINAL_TWO)];
    assert_eq!(rule_diagnostics(&run(&l, &files).0.unwrap()), 1);
    let two = "---\nid: 2\nstatus: Candidate\nrequires: 1\n---\nbody\n";
    let l = tiered_linter().check_file("xgov-0002.md".to_string());
    let files = [("xgov-0001.md", one), ("xgov-0002.md", two)];
    assert_eq!(rule_diagnostics(&run(&l, &files).0.unwrap()), 0);
}

#[test]
fn unreadable_requirement_is_reported_per_reference() {
    let two = "---\nid: 2\nstatus: Final\nrequires: 1, x, 7\n---\n";
    let l = tiered_linter().check_file("xgov-0002.md".to_string());
    let files = [("xgov-0001.md", FINAL_ONE), ("xgov-0002.md", two)];
    let (r, calls) = run(&l, &files);
    assert_eq!(calls, vec!["xgov-0001.md".to_string(), "xgov-0007.md".to_string()]);
    let reports = r.unwrap();
    let diags = &reports[0].rules[0];
    assert_eq!(diags.len(), 1);
    assert_eq!(diags[0].message, "unable to read file `xgov-0007.md`: no such file");
    assert_eq!(diags[0].slices[0].annotations[0].label, "required from here");
    assert_eq!((diags[0].slices[0].annotations[0].start, diags[0].slices[0].annotations[0].end), (15, 17));
}

#[test]
fn email_rule_checks_shape() {
    let l = Linter::new()
        .check_slice(None, "---\nemail: ann@example.com\n---\n".to_string())
        .check_slice(None, "---\nemail: not-an-address\n---\n".to_string())
        .check_slice(None, "---\nemail: @example.com\n---\n".to_string())
        .check_slice(None, "---\nid: 1\n---\n".to_string());
    let reports = run(&l, &[]).0.unwrap();
    assert_eq!(reports[0].rules[0].len(), 0);
    assert_eq!(reports[1].rules[0].len(), 1);
    assert_eq!(reports[1].rules[0][0].message, "email must match the expected format");
    assert_eq!(reports[1].rules[0][0].footer, vec!["test@example.com".to_string()]);
    assert_eq!(reports[2].rules[0].len(), 1);
    assert_eq!(reports[3].rules[0].len(), 0);
}

#[test]
fn externals_keep_their_failures() {
    let ok = resolve_external("a/xgov-0001.md".to_string(), Ok(FINAL_ONE.to_string()));
    assert_eq!(ok.path, "a/xgov-0001.md");
    assert_eq!(ok.outcome.unwrap().fields.len(), 2);
    let bad = resolve_external("b.md".to_string(), Ok("no fence".to_string()));
    assert!(bad.outcome.is_err());
    let gone = resolve_external("c.md".to_string(), Err("denied".to_string()));
    assert_eq!(gone.outcome.err(), Some("denied".to_string()));
}

#[test]
fn unsplittable_requirement_is_reported() {
    let l = tiered_linter().check_file("xgov-0002.md".to_string());
    let files = [("xgov-0001.md", "status: Final\n"), ("xgov-0002.md", FINAL_TWO)];
    let reports = run(&l, &files).0.unwrap();
    let diags = &reports[0].rules[0];
    assert_eq!(diags.len(), 1);
    assert!(diags[0].message.starts_with("unable to read file `xgov-0001.md`: "));
}

#[test]
fn parsed_body_lines_count_from_document_start() {
    let (doc, _) = process(&None, "---\na: b\n---\n# Title\n\ntext\n");
    let doc = doc.unwrap();
    let kinds: Vec<&str> = doc.nodes.iter().map(|n| n.kind.as_str()).collect();
    assert_eq!(kinds, vec!["document", "heading", "text", "paragraph", "text"]);
    assert_eq!(doc.nodes[1].parent, Some(0));
    assert_eq!(doc.nodes[4].parent, Some(3));
    assert_eq!(doc.lines, vec![4, 4, 4, 6, 6]);
}

#[test]
fn carriage_return_hint_goes_by_byte() {
    // 'x' takes one byte and 'é' two, so the carriage return is the fourth byte.
    let (doc, diags) = process(&None, "x\u{e9}\rX\n");
    assert!(doc.is_none());
    assert_eq!(
        diags[0].footer,
        vec!["found a carriage return (CR), use Unix-style line endings (LF) instead".to_string()]
    );
    let (_, diags) = process(&None, "xyz\r\n");
    assert_eq!(diags[0].footer.len(), 1);
    let (_, diags) = process(&None, "xyzw\r\n");
    assert!(diags[0].footer.is_empty());
    assert_eq!(diags[0].slices[0].source, "xyzw");
}

#[test]
fn trimming_removes_unicode_white_space() {
    assert_eq!(trim_str("\u{a0}1\u{3000}"), "1");
    let two = "---\nid: 2\nstatus: Final\nrequires: 1\u{a0}\n---\n";
    let l = tiered_linter().check_file("xgov-0002.md".to_string());
    let files = [("xgov-0001.md", DRAFT_ONE), ("xgov-0002.md", two)];
    assert_eq!(rule_diagnostics(&run(&l, &files).0.unwrap()), 1);
}

#[test]
fn configuration_is_checked_without_texts() {
    assert_eq!(Linter::new().check_config(), Err(RunError::NoSources));
    let l = Linter::new().clear_lints().check_file("a.md".to_string());
    assert_eq!(l.check_config(), Err(RunError::NoLints));
    let l = Linter::new().check_file("a.md".to_string());
    assert_eq!(l.check_config(), Ok(()));
}

#[test]
fn tier_diagnostic_names_its_source() {
    let l = tiered_linter().check_file("d/xgov-0002.md".to_string());
    let files = [("d/xgov-0001.md", DRAFT_ONE), ("d/xgov-0002.md", FINAL_TWO)];
    let reports = run(&l, &files).0.unwrap();
    let d = &reports[0].rules[0][0];
    assert_eq!(d.slices[0].origin.as_deref(), Some("d/xgov-0002.md"));
    assert_eq!(d.slices[0].annotations[0].label, "has a less advanced status");
}

#[test]
fn footer_is_empty_when_no_label_qualifies() {
    let one = "---\nid: 1\nstatus: Unknown\n---\n";
    let l = tiered_linter().check_file("xgov-0002.md".to_string());
    let files = [("xgov-0001.md", one), ("xgov-0002.md", FINAL_TWO)];
    let reports = run(&l, &files).0.unwrap();
    let d = &reports[0].rules[0][0];
    assert!(d.footer.is_empty());
}

#[test]
fn email_range_counts_bytes() {
    let l = Linter::new()
        .clear_lints()
        .add_lint("mail", Lint::Email(Email("\u{e9}".to_string())))
        .unwrap()
        .check_slice(None, "---\n\u{e9}:x\n---\n".to_string());
    let reports = run(&l, &[]).0.unwrap();
    let a = &reports[0].rules[0][0].slices[0].annotations[0];
    assert_eq!((a.start, a.end), (3, 4));
    assert_eq!(a.label, "unrecognized email");
}

#[test]
fn tier_ranges_count_bytes() {
    let two = "---\nid: 2\nstatus: Final\nrequires: \u{a0}1, 9\n---\n";
    let l = tiered_linter().check_file("xgov-0002.md".to_string());
    let files = [("xgov-0001.md", DRAFT_ONE), ("xgov-0002.md", two)];
    let reports = run(&l, &files).0.unwrap();
    let diags = &reports[0].rules[0];
    assert_eq!(diags.len(), 2);
    // "requires:" is 9 bytes; " \u{a0}1" is 4 bytes, then ",", then " 9".
    let unread = &diags[0].slices[0].annotations[0];
    assert_eq!((unread.start, unread.end), (14, 16));
    let flagged = &diags[1].slices[0].annotations[0];
    assert_eq!((flagged.start, flagged.end), (9, 13));
}

#[test]
fn lone_carriage_return_stays_in_first_line() {
    let (_, diags) = process(&None, "abc\r");
    assert_eq!(diags[0].slices[0].source, "abc\r");
    let (_, diags) = process(&None, "abc\r\nrest");
    assert_eq!(diags[0].slices[0].source, "abc");
}

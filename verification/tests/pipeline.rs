use buildcost::experiment::Experiment;
use buildcost::mutation::{splice_noop, MutationGuard};
use buildcost::ranking::{sort_experiments, worst_experiment};
use buildcost::report::report_costs;
use buildcost::scanner::{find_mutation_points, is_rs_file, make_experiments, scan_tree, SourceFile};

fn experiment(path: &str, offset: usize, measured_cost: Option<u64>) -> Experiment {
    Experiment { path: String::from(path), offset, measured_cost }
}

#[test]
fn scan_two_function_file() {
    let offsets = find_mutation_points(b"fn a() { x(); } fn b() { y(); }");
    assert_eq!(offsets, vec![8, 24]);
}

#[test]
fn scan_is_deterministic() {
    let text = b"fn one() { a(); }\nfn two() { b(); }\n";
    let first = find_mutation_points(text);
    let second = find_mutation_points(text);
    assert_eq!(first, second);
}

#[test]
fn scan_offsets_sit_just_past_a_brace() {
    let text = b"fn main() {\n    helper();\n}\n\nfn helper() {\n}\n";
    let offsets = find_mutation_points(text);
    assert_eq!(offsets.len(), 2);
    for &o in &offsets {
        assert!(o >= 1 && o <= text.len());
        assert_eq!(text[o - 1], b'{');
    }
    assert_eq!(offsets, vec![11, 42]);
}

#[test]
fn scan_skips_a_signature_without_a_brace_on_its_line() {
    let offsets = find_mutation_points(b"fn a()\nfn b() {}");
    assert_eq!(offsets, vec![15]);
}

#[test]
fn scan_does_not_report_a_consumed_opening_twice() {
    let offsets = find_mutation_points(b"fn fn a() { }");
    assert_eq!(offsets, vec![11]);
}

#[test]
fn scan_of_empty_text_is_empty() {
    let offsets = find_mutation_points(b"");
    assert!(offsets.is_empty());
}

#[test]
fn recognizes_source_file_names() {
    assert!(is_rs_file(b"main.rs"));
    assert!(is_rs_file(b"lib.rs"));
    assert!(is_rs_file(b"a.tar.rs"));
    assert!(!is_rs_file(b".rs"));
    assert!(!is_rs_file(b"rs"));
    assert!(!is_rs_file(b"main.rc"));
    assert!(!is_rs_file(b"main_rs"));
}

#[test]
fn experiments_carry_path_offset_and_no_cost() {
    let path = String::from("src/lib.rs");
    let es = make_experiments(&path, b"fn a() { x(); } fn b() { y(); }");
    assert_eq!(es.len(), 2);
    assert_eq!(es[0].path, "src/lib.rs");
    assert_eq!(es[0].offset, 8);
    assert_eq!(es[0].measured_cost, None);
    assert_eq!(es[1].path, "src/lib.rs");
    assert_eq!(es[1].offset, 24);
    assert_eq!(es[1].measured_cost, None);
}

#[test]
fn tree_scan_keeps_visit_order() {
    let files = vec![
        SourceFile { path: String::from("src/a.rs"), contents: b"fn a() { }".to_vec() },
        SourceFile { path: String::from("src/b.rs"), contents: b"fn b() { }\nfn c() { }".to_vec() },
    ];
    let es = scan_tree(&files);
    assert_eq!(es.len(), 3);
    assert_eq!(es[0].path, "src/a.rs");
    assert_eq!(es[0].offset, 8);
    assert_eq!(es[1].path, "src/b.rs");
    assert_eq!(es[1].offset, 8);
    assert_eq!(es[2].path, "src/b.rs");
    assert_eq!(es[2].offset, 19);
}

#[test]
fn mutation_splices_the_noop_at_the_offset() {
    let out = splice_noop(b"abcdef", 3);
    assert_eq!(out, b"abc0;def".to_vec());
    assert_eq!(out.len(), b"abcdef".len() + 2);
    assert_eq!(&out[..3], b"abc");
    assert_eq!(&out[3..5], b"0;");
    assert_eq!(&out[5..], b"def");
}

#[test]
fn mutation_at_the_ends() {
    assert_eq!(splice_noop(b"xy", 0), b"0;xy".to_vec());
    assert_eq!(splice_noop(b"xy", 2), b"xy0;".to_vec());
    assert_eq!(splice_noop(b"", 0), b"0;".to_vec());
}

#[test]
fn restore_returns_the_pristine_bytes() {
    let content = b"fn a() { x(); } fn b() { y(); }".to_vec();
    let (guard, mutated) = MutationGuard::begin(content.clone(), 8);
    assert_eq!(mutated, b"fn a() {0; x(); } fn b() { y(); }".to_vec());
    // Whatever the action between the two writes did or failed to do, the
    // restoring content is byte-identical to the pristine copy.
    let restored = guard.restore();
    assert_eq!(restored, content);
}

#[test]
fn ranking_puts_absent_before_present_and_presents_ascending() {
    let v = vec![
        experiment("a.rs", 1, Some(5)),
        experiment("b.rs", 2, None),
        experiment("c.rs", 3, Some(3)),
        experiment("d.rs", 4, None),
        experiment("e.rs", 5, Some(5)),
    ];
    let sorted = sort_experiments(v);
    assert_eq!(sorted.len(), 5);
    let costs: Vec<Option<u64>> = sorted.iter().map(|e| e.measured_cost).collect();
    assert_eq!(costs, vec![None, None, Some(3), Some(5), Some(5)]);
    // Same experiments, rearranged only.
    let mut paths: Vec<String> = sorted.iter().map(|e| e.path.clone()).collect();
    paths.sort();
    assert_eq!(paths, vec!["a.rs", "b.rs", "c.rs", "d.rs", "e.rs"]);
}

#[test]
fn worst_is_the_last_of_the_sorted_set() {
    let v = vec![
        experiment("a.rs", 1, None),
        experiment("b.rs", 2, Some(10)),
        experiment("c.rs", 3, Some(90)),
    ];
    let sorted = sort_experiments(v);
    let worst = worst_experiment(&sorted);
    assert_eq!(worst.path, "c.rs");
    assert_eq!(worst.measured_cost, Some(90));
}

#[test]
fn sorting_nothing_yields_nothing() {
    let sorted = sort_experiments(Vec::new());
    assert!(sorted.is_empty());
    assert!(report_costs(&sorted).is_empty());
}

#[test]
fn report_keeps_present_costs_in_order() {
    let v = vec![
        experiment("a.rs", 1, None),
        experiment("b.rs", 2, Some(2)),
        experiment("c.rs", 3, None),
        experiment("d.rs", 4, Some(7)),
    ];
    let costs = report_costs(&v);
    assert_eq!(costs, vec![2, 7]);
}

#[test]
fn recording_a_measurement_leaves_the_point_alone() {
    let mut e = experiment("a.rs", 42, None);
    e.record_measurement(Some(1000));
    assert_eq!(e.path, "a.rs");
    assert_eq!(e.offset, 42);
    assert_eq!(e.measured_cost, Some(1000));
    e.record_measurement(None);
    assert_eq!(e.measured_cost, None);
}

#[test]
fn two_function_scenario_end_to_end() {
    let text = b"fn a() { x(); } fn b() { y(); }";
    let path = String::from("src/lib.rs");
    let mut es = make_experiments(&path, text);
    assert_eq!(es.len(), 2);
    assert_eq!(es[0].offset, 8);
    assert_eq!(es[1].offset, 24);

    // First experiment: the mutated file during measurement, the original
    // afterward; its build succeeds.
    let (guard, mutated) = MutationGuard::begin(text.to_vec(), es[0].offset);
    assert_eq!(mutated, b"fn a() {0; x(); } fn b() { y(); }".to_vec());
    es[0].record_measurement(Some(12345));
    assert_eq!(guard.restore(), text.to_vec());

    // Second experiment: its build fails, so its cost stays absent.
    es[1].record_measurement(None);

    let sorted = sort_experiments(es);
    assert_eq!(sorted[0].measured_cost, None);
    assert_eq!(sorted[1].measured_cost, Some(12345));
    // The report omits the failed experiment and keeps the first.
    assert_eq!(report_costs(&sorted), vec![12345]);
}

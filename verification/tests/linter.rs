use php_linter::directive::{get_disabled_lints, trim_str, DisabledSet};
use php_linter::lints::multiple_items::MultipleItems;
use php_linter::lints::no_assignment_inside_condition::NoAssignmentInsideCondition;
use php_linter::lints::no_long_array_syntax::NoLongArraySyntax;
use php_linter::lints::Lint;
use php_linter::errors::LintError;
use php_linter::report::sort_findings;
use php_linter::tree::ParsedFile;
use php_linter::{lint_files, procces, should_lint};

fn run(path: &str, source: &str) -> Vec<LintError> {
    procces(String::from(path), String::from(source)).expect("source should parse")
}

fn messages_at(found: &[LintError], message: &str) -> Vec<usize> {
    found.iter().filter(|e| e.message == message).map(|e| e.line).collect()
}

#[test]
fn should_lint_matches_php_extension() {
    assert!(should_lint("index.php"));
    assert!(should_lint("a/b/weird.name.php"));
    assert!(!should_lint("index.phtml"));
    assert!(!should_lint("php"));
    assert!(!should_lint(""));
    assert!(!should_lint("index.php.bak"));
}

#[test]
fn single_class_yields_no_multiple_items_finding() {
    let found = run("a.php", "<?php\nclass A {}\n");
    assert_eq!(messages_at(&found, "multiple items"), Vec::<usize>::new());
}

#[test]
fn declarations_after_the_first_are_reported_at_their_lines() {
    // Declarations start on lines 3, 10 and 25; the first is exempt.
    let mut source = String::from("<?php\n\nclass A {}\n");
    while source.lines().count() < 9 {
        source.push('\n');
    }
    source.push_str("trait B {}\n");
    while source.lines().count() < 24 {
        source.push('\n');
    }
    source.push_str("interface C {}\n");
    let found = run("a.php", &source);
    assert_eq!(messages_at(&found, "multiple items"), vec![10, 25]);
}

#[test]
fn long_array_syntax_is_reported_once_per_expression() {
    let found = run("a.php", "<?php\n$x = array(1, 2, 3);\n");
    assert_eq!(messages_at(&found, "long array syntax"), vec![2]);
}

#[test]
fn short_array_syntax_is_not_reported() {
    let found = run("a.php", "<?php\n$x = [1, 2, 3];\n");
    assert_eq!(messages_at(&found, "long array syntax"), Vec::<usize>::new());
}

#[test]
fn assignment_inside_condition_is_reported() {
    let found = run("a.php", "<?php\nif ($x = foo()) { bar(); }\n");
    assert_eq!(messages_at(&found, "assignment syntax in condition"), vec![2]);
}

#[test]
fn comparison_inside_condition_is_not_reported() {
    let found = run("a.php", "<?php\nif ($x == foo()) { bar(); }\n");
    assert_eq!(messages_at(&found, "assignment syntax in condition"), Vec::<usize>::new());
}

#[test]
fn only_the_first_assignment_in_one_condition_is_reported() {
    let found = run("a.php", "<?php\nif ($a = 1 && $b = 2) { bar(); }\n");
    assert_eq!(messages_at(&found, "assignment syntax in condition"), vec![2]);
}

#[test]
fn assignments_in_two_conditions_are_reported_separately() {
    let found = run(
        "a.php",
        "<?php\nif ($a = 1) { x(); }\nif ($b = 2) { y(); }\n",
    );
    assert_eq!(messages_at(&found, "assignment syntax in condition"), vec![2, 3]);
}

#[test]
fn disable_directive_suppresses_named_rules_only() {
    let source = "<?php\n// linter-ignore: no-long-array-syntax, multiple-items\nclass A {}\nclass B {}\n$x = array(1);\nif ($y = 1) { z(); }\n";
    let found = run("a.php", source);
    assert_eq!(messages_at(&found, "multiple items"), Vec::<usize>::new());
    assert_eq!(messages_at(&found, "long array syntax"), Vec::<usize>::new());
    assert_eq!(messages_at(&found, "assignment syntax in condition"), vec![6]);
}

#[test]
fn multiple_directive_comments_union_their_lists() {
    let source = "<?php\n// linter-ignore: multiple-items\n// linter-ignore: no-long-array-syntax\nclass A {}\nclass B {}\n$x = array(1);\n";
    let found = run("a.php", source);
    assert!(found.is_empty());
}

#[test]
fn later_comments_do_not_disable_anything() {
    let source = "<?php\n$x = 1;\n// linter-ignore: no-long-array-syntax\n$y = array(1);\n";
    let found = run("a.php", source);
    assert_eq!(messages_at(&found, "long array syntax"), vec![4]);
}

#[test]
fn disabled_set_reads_the_leading_comment_run() {
    let source = "<?php\n// linter-ignore: multiple-items , no-long-array-syntax\nclass A {}\n";
    let parsed = ParsedFile::parse(String::from("a.php"), String::from(source))
        .expect("source should parse");
    let disabled = get_disabled_lints(&parsed);
    assert!(disabled.contains(&String::from("multiple-items")));
    assert!(disabled.contains(&String::from("no-long-array-syntax")));
    assert!(!disabled.contains(&String::from("no-assignment-inside-condition")));
    assert!(!disabled.contains(&String::from("")));
}

#[test]
fn empty_directive_list_disables_nothing() {
    let source = "<?php\n// linter-ignore:\nclass A {}\nclass B {}\n";
    let found = run("a.php", source);
    assert_eq!(messages_at(&found, "multiple items"), vec![4]);
    let parsed = ParsedFile::parse(String::from("a.php"), String::from(source))
        .expect("source should parse");
    let disabled: DisabledSet = get_disabled_lints(&parsed);
    assert!(!disabled.contains(&String::from("")));
}

#[test]
fn trim_strips_surrounding_whitespace_only() {
    assert_eq!(trim_str("  multiple-items\t"), "multiple-items");
    assert_eq!(trim_str(""), "");
    assert_eq!(trim_str(" \t\r\n"), "");
    assert_eq!(trim_str("a b"), "a b");
}

#[test]
fn render_formats_message_file_and_line() {
    let e = LintError {
        message: String::from("long array syntax"),
        file: String::from("src/a.php"),
        line: 42,
    };
    assert_eq!(e.render(), "long array syntax at src/a.php:42");
}

#[test]
fn render_handles_multi_digit_lines() {
    let e = LintError { message: String::from("m"), file: String::from("f"), line: 95031 };
    assert_eq!(e.render(), "m at f:95031");
}

#[test]
fn sort_orders_by_file_then_line() {
    let mk = |f: &str, l: usize| LintError {
        message: String::from("m"),
        file: String::from(f),
        line: l,
    };
    let v = vec![mk("b.php", 1), mk("a.php", 9), mk("a.php", 2), mk("b.php", 1), mk("a.php", 9)];
    let sorted = sort_findings(v);
    let keys: Vec<(String, usize)> = sorted.iter().map(|e| (e.file.clone(), e.line)).collect();
    assert_eq!(
        keys,
        vec![
            (String::from("a.php"), 2),
            (String::from("a.php"), 9),
            (String::from("a.php"), 9),
            (String::from("b.php"), 1),
            (String::from("b.php"), 1),
        ]
    );
}

#[test]
fn sort_keeps_first_come_order_for_equal_keys() {
    let mk = |m: &str| LintError { message: String::from(m), file: String::from("a.php"), line: 7 };
    let v = vec![mk("first"), mk("second"), mk("third")];
    let sorted = sort_findings(v);
    let msgs: Vec<String> = sorted.iter().map(|e| e.message.clone()).collect();
    assert_eq!(msgs, vec![
        String::from("first"),
        String::from("second"),
        String::from("third"),
    ]);
}

#[test]
fn lint_files_reports_across_files_in_sorted_order() {
    let files = vec![
        (String::from("z.php"), String::from("<?php\n$x = array(1);\n")),
        (String::from("a.php"), String::from("<?php\nclass A {}\nclass B {}\n")),
    ];
    let report = lint_files(&files);
    let lines: Vec<String> = report.iter().map(|e| e.render()).collect();
    assert_eq!(lines, vec![
        String::from("multiple items at a.php:3"),
        String::from("long array syntax at z.php:2"),
    ]);
}

#[test]
fn two_runs_over_the_same_tree_give_the_identical_report() {
    let files = vec![
        (String::from("z.php"), String::from("<?php\nif ($a = 1) { x(); }\n$y = array(2);\n")),
        (String::from("a.php"), String::from("<?php\nclass A {}\ntrait B {}\n")),
    ];
    let first: Vec<String> = lint_files(&files).iter().map(|e| e.render()).collect();
    let second: Vec<String> = lint_files(&files).iter().map(|e| e.render()).collect();
    assert_eq!(first, second);
}

#[test]
fn every_rule_applies_under_an_empty_disabled_set() {
    let disabled = DisabledSet::empty();
    assert!(MultipleItems.should_apply(&disabled));
    assert!(NoLongArraySyntax.should_apply(&disabled));
    assert!(NoAssignmentInsideCondition.should_apply(&disabled));
}

#[test]
fn interleaved_arrival_orders_sort_to_the_identical_report() {
    let mk = |f: &str, m: &str, l: usize| LintError {
        message: String::from(m),
        file: String::from(f),
        line: l,
    };
    // Two files' batches, in their per-file order.
    let a1 = || mk("a.php", "multiple items", 3);
    let a2 = || mk("a.php", "long array syntax", 3);
    let b1 = || mk("b.php", "long array syntax", 1);
    let one_worker = vec![a1(), a2(), b1()];
    let interleaved = vec![b1(), a1(), a2()];
    let r1: Vec<String> = sort_findings(one_worker).iter().map(|e| e.render()).collect();
    let r2: Vec<String> = sort_findings(interleaved).iter().map(|e| e.render()).collect();
    assert_eq!(r1, r2);
    assert_eq!(r1, vec![
        String::from("multiple items at a.php:3"),
        String::from("long array syntax at a.php:3"),
        String::from("long array syntax at b.php:1"),
    ]);
}

#[test]
fn directive_names_must_match_exactly() {
    let source = "<?php\n// linter-ignore: no-long-array\n$x = array(1);\n";
    let found = run("a.php", source);
    assert_eq!(messages_at(&found, "long array syntax"), vec![3]);
}

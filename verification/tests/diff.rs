use std::collections::BTreeSet;

use lcov::report::section::Key as LcovKey;
use lcov::{Reader, Report as LcovReport};
use lcov_diff::records::{
    BranchKey, BranchValue, FunctionKey, FunctionValue, LineKey, LineValue,
};
use lcov_diff::section::{Section, SectionKey};
use lcov_diff::table::{DeepCopy, Diff, Key, Table};
use lcov_diff::{diff_reports, DiffError, IgnoreError, PostProcessOptions, Report};

fn keys_of(reports: Vec<&LcovReport>) -> BTreeSet<LcovKey> {
    let mut keys = BTreeSet::new();
    for report in reports {
        for key in report.sections.keys() {
            keys.insert(key.clone());
        }
    }
    keys
}

fn model_of(report: &LcovReport, keys: &BTreeSet<LcovKey>) -> Report {
    let mut out = Report::new();
    for (key, value) in &report.sections {
        let mut section = Section::new();
        for (k, v) in &value.functions {
            section.functions.insert(
                FunctionKey { name: k.name.clone() },
                FunctionValue { start_line: v.start_line, count: v.count },
            );
        }
        for (k, v) in &value.branches {
            section.branches.insert(
                BranchKey { line: k.line, block: k.block, branch: k.branch },
                BranchValue { taken: v.taken },
            );
        }
        for (k, v) in &value.lines {
            section.lines.insert(
                LineKey { line: k.line },
                LineValue { count: v.count, checksum: v.checksum.clone() },
            );
        }
        out.sections.insert(
            SectionKey {
                rank: keys.iter().position(|k| k == key).unwrap() as u64,
                test_name: key.test_name.clone(),
                source_file: key.source_file.to_str().unwrap().to_string(),
            },
            section,
        );
    }
    out
}

fn lcov_of(report: &Report) -> LcovReport {
    let mut out = LcovReport::new();
    for i in 0..report.sections.len() {
        let key = report.sections.key_at(i);
        let section = report.sections.value_at(i);
        let mut value = lcov::report::section::Value::default();
        for j in 0..section.functions.len() {
            let v = section.functions.value_at(j);
            value.functions.insert(
                lcov::report::section::function::Key {
                    name: section.functions.key_at(j).name.clone(),
                },
                lcov::report::section::function::Value { start_line: v.start_line, count: v.count },
            );
        }
        for j in 0..section.branches.len() {
            let k = section.branches.key_at(j);
            value.branches.insert(
                lcov::report::section::branch::Key { line: k.line, block: k.block, branch: k.branch },
                lcov::report::section::branch::Value { taken: section.branches.value_at(j).taken },
            );
        }
        for j in 0..section.lines.len() {
            let v = section.lines.value_at(j);
            value.lines.insert(
                lcov::report::section::line::Key { line: section.lines.key_at(j).line },
                lcov::report::section::line::Value { count: v.count, checksum: v.checksum.clone() },
            );
        }
        out.sections.insert(
            lcov::report::section::Key {
                test_name: key.test_name.clone(),
                source_file: std::path::PathBuf::from(key.source_file.clone()),
            },
            value,
        );
    }
    out
}

fn strict() -> IgnoreError {
    IgnoreError { ignore_unmatched_line_error: false }
}

fn lenient() -> IgnoreError {
    IgnoreError { ignore_unmatched_line_error: true }
}

fn keep_all() -> PostProcessOptions {
    PostProcessOptions { drop_zeros: false }
}

fn prune() -> PostProcessOptions {
    PostProcessOptions { drop_zeros: true }
}

fn rank_of(file: &str) -> u64 {
    let mut rank = 0;
    for i in 0..8 {
        rank = rank * 256 + file.as_bytes().get(i).map_or(0, |b| u64::from(*b));
    }
    rank
}

fn section_key(file: &str) -> SectionKey {
    SectionKey { rank: rank_of(file), test_name: String::new(), source_file: file.to_string() }
}

fn function_key(name: &str) -> FunctionKey {
    FunctionKey { name: name.to_string() }
}

fn line(count: u64) -> LineValue {
    LineValue { count, checksum: None }
}

fn line_with(count: u64, checksum: &str) -> LineValue {
    LineValue { count, checksum: Some(checksum.to_string()) }
}

fn function(start_line: Option<u32>, count: u64) -> FunctionValue {
    FunctionValue { start_line, count }
}

fn report_of(sections: Vec<(&str, Section)>) -> Report {
    let mut report = Report::new();
    for (file, section) in sections {
        report.sections.insert(section_key(file), section);
    }
    report
}

fn lines_section(lines: Vec<(u32, LineValue)>) -> Section {
    let mut section = Section::new();
    for (number, value) in lines {
        section.lines.insert(LineKey { line: number }, value);
    }
    section
}

fn functions_section(functions: Vec<(&str, FunctionValue)>) -> Section {
    let mut section = Section::new();
    for (name, value) in functions {
        section.functions.insert(function_key(name), value);
    }
    section
}

fn branches_section(branches: Vec<(u32, Option<u64>)>) -> Section {
    let mut section = Section::new();
    for (number, taken) in branches {
        section.branches.insert(BranchKey { line: number, block: 0, branch: 0 }, BranchValue { taken });
    }
    section
}

fn section_of<'a>(report: &'a Report, file: &str) -> &'a Section {
    report.sections.get(&section_key(file)).unwrap()
}

fn line_of<'a>(report: &'a Report, file: &str, number: u32) -> &'a LineValue {
    section_of(report, file).lines.get(&LineKey { line: number }).unwrap()
}

fn function_of<'a>(report: &'a Report, file: &str, name: &str) -> &'a FunctionValue {
    section_of(report, file).functions.get(&function_key(name)).unwrap()
}

fn branch_of<'a>(report: &'a Report, file: &str, number: u32) -> &'a BranchValue {
    section_of(report, file).branches.get(&BranchKey { line: number, block: 0, branch: 0 }).unwrap()
}

#[test]
fn diff_report() {
    let input = "\
TN:
SF:target.c
FN:1,main
FNDA:1,main
DA:1,1
DA:3,1
DA:4,1
DA:5,1
DA:6,1
DA:7,1
DA:8,0
DA:11,1
DA:12,0
DA:14,1
DA:15,1
DA:17,1
end_of_record
";
    let reader1 = Reader::new(input.as_bytes());
    let report1 = LcovReport::from_reader(reader1).unwrap();

    let input2 = "\
TN:
SF:target.c
FN:1,main
FNDA:1,main
DA:1,1
DA:3,1
DA:4,1
DA:5,1
DA:6,1
DA:7,1
DA:8,1
DA:11,1
DA:12,0
DA:14,1
DA:15,1
DA:17,1
end_of_record
";

    let expected_lcov = "\
TN:
SF:target.c
FN:1,main
FNDA:0,main
FNF:1
FNH:0
DA:1,0
DA:3,0
DA:4,0
DA:5,0
DA:6,0
DA:7,0
DA:8,1
DA:11,0
DA:12,0
DA:14,0
DA:15,0
DA:17,0
LF:12
LH:1
end_of_record
";
    let reader2 = Reader::new(input2.as_bytes());
    let report2 = LcovReport::from_reader(reader2).unwrap();

    let expected_report = LcovReport::from_reader(Reader::new(expected_lcov.as_bytes())).unwrap();

    let ignore = IgnoreError { ignore_unmatched_line_error: false };

    let post_process_options = PostProcessOptions { drop_zeros: false };

    let keys = keys_of(vec![&report1, &report2]);
    let diff_rep = diff_reports(
        &model_of(&report2, &keys),
        &model_of(&report1, &keys),
        ignore,
        post_process_options,
    )
    .unwrap();
    let diff_rep = lcov_of(&diff_rep);

    let mut pairs = 0;
    for pair in diff_rep.into_records().zip(expected_report.into_records()) {
        assert_eq!(pair.0, pair.1);
        pairs += 1;
    }
    assert_eq!(pairs, 21);
}

#[test]
fn newly_covered_line_is_the_only_hit() {
    let mut baseline = Vec::new();
    let mut run = Vec::new();
    for number in [1u32, 3, 4, 5, 6, 7, 11, 14, 15, 17] {
        baseline.push((number, line(1)));
        run.push((number, line(1)));
    }
    baseline.push((8, line(0)));
    run.push((8, line(1)));
    baseline.push((12, line(0)));
    run.push((12, line(0)));
    let mut first_section = lines_section(run);
    first_section.functions.insert(function_key("main"), function(Some(1), 1));
    let mut second_section = lines_section(baseline);
    second_section.functions.insert(function_key("main"), function(Some(1), 1));
    let first = report_of(vec![("target.c", first_section)]);
    let second = report_of(vec![("target.c", second_section)]);

    let out = diff_reports(&first, &second, strict(), keep_all()).unwrap();

    let section = section_of(&out, "target.c");
    assert_eq!(section.lines.len(), 12);
    let mut hit = 0;
    for i in 0..section.lines.len() {
        if section.lines.value_at(i).count > 0 {
            hit += 1;
            assert_eq!(section.lines.key_at(i).line, 8);
            assert_eq!(section.lines.value_at(i).count, 1);
        }
    }
    assert_eq!(hit, 1);
    assert_eq!(*function_of(&out, "target.c", "main"), function(Some(1), 0));
}

#[test]
fn keys_of_the_second_report_are_never_added() {
    let first = report_of(vec![("a.c", lines_section(vec![(1, line(1))]))]);
    let mut extra = lines_section(vec![(1, line(0)), (2, line(5))]);
    extra.functions.insert(function_key("f"), function(None, 1));
    extra.branches.insert(BranchKey { line: 1, block: 0, branch: 0 }, BranchValue { taken: Some(1) });
    let second = report_of(vec![("a.c", extra), ("b.c", lines_section(vec![(1, line(1))]))]);

    let out = diff_reports(&first, &second, strict(), keep_all()).unwrap();

    assert_eq!(out.sections.len(), 1);
    assert_eq!(out.sections.key_at(0), &section_key("a.c"));
    assert!(out.sections.get(&section_key("b.c")).is_none());
    let section = section_of(&out, "a.c");
    assert_eq!(section.lines.len(), 1);
    assert_eq!(section.functions.len(), 0);
    assert_eq!(section.branches.len(), 0);
    assert_eq!(*line_of(&out, "a.c", 1), line(1));
}

#[test]
fn keys_of_the_first_report_all_stay() {
    let first = report_of(vec![
        ("a.c", lines_section(vec![(1, line(1)), (2, line(2))])),
        ("b.c", lines_section(vec![(7, line(3))])),
    ]);
    let second = report_of(vec![("a.c", lines_section(vec![(2, line(1))]))]);

    let out = diff_reports(&first, &second, strict(), keep_all()).unwrap();

    assert_eq!(out.sections.len(), 2);
    assert_eq!(*line_of(&out, "a.c", 1), line(1));
    assert_eq!(*line_of(&out, "a.c", 2), line(0));
    assert_eq!(*line_of(&out, "b.c", 7), line(3));
}

#[test]
fn counts_are_cleared_not_subtracted() {
    let first = report_of(vec![("a.c", lines_section(vec![(1, line(10)), (2, line(10))]))]);
    let second = report_of(vec![("a.c", lines_section(vec![(1, line(3)), (2, line(0))]))]);

    let out = diff_reports(&first, &second, strict(), keep_all()).unwrap();

    assert_eq!(*line_of(&out, "a.c", 1), line(0));
    assert_eq!(*line_of(&out, "a.c", 2), line(10));
}

#[test]
fn function_transition() {
    let first = report_of(vec![(
        "a.c",
        functions_section(vec![
            ("called", function(Some(3), 4)),
            ("quiet", function(Some(9), 4)),
            ("unplaced", function(None, 2)),
        ]),
    )]);
    let second = report_of(vec![(
        "a.c",
        functions_section(vec![
            ("called", function(Some(3), 1)),
            ("quiet", function(Some(9), 0)),
            ("unplaced", function(Some(5), 0)),
        ]),
    )]);

    let out = diff_reports(&first, &second, strict(), keep_all()).unwrap();

    assert_eq!(*function_of(&out, "a.c", "called"), function(Some(3), 0));
    assert_eq!(*function_of(&out, "a.c", "quiet"), function(Some(9), 4));
    assert_eq!(*function_of(&out, "a.c", "unplaced"), function(None, 2));
}

#[test]
fn branch_transition() {
    let first = report_of(vec![(
        "a.c",
        branches_section(vec![(1, Some(4)), (2, Some(4)), (3, Some(4)), (4, None), (5, Some(0))]),
    )]);
    let second = report_of(vec![(
        "a.c",
        branches_section(vec![(1, Some(2)), (2, Some(0)), (3, None), (4, Some(1)), (5, Some(7))]),
    )]);

    let out = diff_reports(&first, &second, strict(), keep_all()).unwrap();

    assert_eq!(branch_of(&out, "a.c", 1).taken, None);
    assert_eq!(branch_of(&out, "a.c", 2).taken, Some(4));
    assert_eq!(branch_of(&out, "a.c", 3).taken, Some(4));
    assert_eq!(branch_of(&out, "a.c", 4).taken, None);
    assert_eq!(branch_of(&out, "a.c", 5).taken, None);
}

#[test]
fn unequal_checksums_fail() {
    let first = report_of(vec![("a.c", lines_section(vec![(1, line_with(1, "abc"))]))]);
    let second = report_of(vec![("a.c", lines_section(vec![(1, line_with(0, "abd"))]))]);

    assert_eq!(diff_reports(&first, &second, strict(), keep_all()).err(), Some(DiffError::UnmatchedChecksum));
    assert_eq!(diff_reports(&first, &second, lenient(), keep_all()).err(), Some(DiffError::UnmatchedChecksum));
    assert_eq!(diff_reports(&first, &second, lenient(), prune()).err(), Some(DiffError::UnmatchedChecksum));
}

#[test]
fn equal_or_missing_checksums_pass() {
    let first = report_of(vec![(
        "a.c",
        lines_section(vec![(1, line_with(1, "abc")), (2, line_with(1, "x")), (3, line(1))]),
    )]);
    let second = report_of(vec![(
        "a.c",
        lines_section(vec![(1, line_with(1, "abc")), (2, line(0)), (3, line_with(1, "y"))]),
    )]);

    let out = diff_reports(&first, &second, strict(), keep_all()).unwrap();

    assert_eq!(*line_of(&out, "a.c", 1), line_with(0, "abc"));
    assert_eq!(*line_of(&out, "a.c", 2), line_with(1, "x"));
    assert_eq!(*line_of(&out, "a.c", 3), line(0));
}

#[test]
fn checksums_of_different_lines_are_not_compared() {
    let first = report_of(vec![("a.c", lines_section(vec![(1, line_with(1, "abc"))]))]);
    let second = report_of(vec![
        ("a.c", lines_section(vec![(2, line_with(1, "zzz"))])),
        ("b.c", lines_section(vec![(1, line_with(1, "zzz"))])),
    ]);

    let out = diff_reports(&first, &second, strict(), keep_all()).unwrap();

    assert_eq!(*line_of(&out, "a.c", 1), line_with(1, "abc"));
}

#[test]
fn unequal_start_lines_fail_unless_ignored() {
    let first = report_of(vec![(
        "a.c",
        functions_section(vec![("f", function(Some(3), 4)), ("g", function(Some(8), 2))]),
    )]);
    let second = report_of(vec![(
        "a.c",
        functions_section(vec![("f", function(Some(4), 0)), ("g", function(Some(8), 0))]),
    )]);

    assert_eq!(
        diff_reports(&first, &second, strict(), keep_all()).err(),
        Some(DiffError::UnmatchedFunctionLine)
    );
    let out = diff_reports(&first, &second, lenient(), keep_all()).unwrap();
    assert_eq!(*function_of(&out, "a.c", "f"), function(Some(3), 0));
    assert_eq!(*function_of(&out, "a.c", "g"), function(Some(8), 2));
}

#[test]
fn functions_are_diffed_before_lines() {
    let mut a = lines_section(vec![(1, line_with(1, "abc"))]);
    a.functions.insert(function_key("f"), function(Some(3), 4));
    let mut b = lines_section(vec![(1, line_with(1, "xyz"))]);
    b.functions.insert(function_key("f"), function(Some(4), 4));
    let first = report_of(vec![("a.c", a)]);
    let second = report_of(vec![("a.c", b)]);

    assert_eq!(
        diff_reports(&first, &second, strict(), keep_all()).err(),
        Some(DiffError::UnmatchedFunctionLine)
    );
    assert_eq!(diff_reports(&first, &second, lenient(), keep_all()).err(), Some(DiffError::UnmatchedChecksum));
}

#[test]
fn first_error_is_that_of_the_smallest_failing_key() {
    let first = report_of(vec![
        ("a.c", functions_section(vec![("f", function(Some(3), 4))])),
        ("b.c", lines_section(vec![(1, line_with(1, "abc"))])),
    ]);
    let listed_backwards = report_of(vec![
        ("b.c", lines_section(vec![(1, line_with(1, "xyz"))])),
        ("a.c", functions_section(vec![("f", function(Some(4), 4))])),
    ]);
    let listed_in_order = report_of(vec![
        ("a.c", functions_section(vec![("f", function(Some(4), 4))])),
        ("b.c", lines_section(vec![(1, line_with(1, "xyz"))])),
    ]);
    assert_eq!(listed_backwards.sections.key_at(0), &section_key("a.c"));

    assert_eq!(
        diff_reports(&first, &listed_backwards, strict(), keep_all()).err(),
        Some(DiffError::UnmatchedFunctionLine)
    );
    assert_eq!(
        diff_reports(&first, &listed_in_order, strict(), keep_all()).err(),
        Some(DiffError::UnmatchedFunctionLine)
    );

    let swapped = report_of(vec![
        ("b.c", functions_section(vec![("f", function(Some(3), 4))])),
        ("a.c", lines_section(vec![(1, line_with(1, "abc"))])),
    ]);
    let clashing = report_of(vec![
        ("b.c", functions_section(vec![("f", function(Some(4), 4))])),
        ("a.c", lines_section(vec![(1, line_with(1, "xyz"))])),
    ]);
    assert_eq!(
        diff_reports(&swapped, &clashing, strict(), keep_all()).err(),
        Some(DiffError::UnmatchedChecksum)
    );
}

#[test]
fn tables_stand_in_the_order_of_their_keys() {
    let section = functions_section(vec![
        ("b", function(None, 1)),
        ("a", function(None, 2)),
        ("ab", function(None, 3)),
        ("", function(None, 4)),
        ("B", function(None, 5)),
    ]);
    let names: Vec<&str> =
        (0..section.functions.len()).map(|i| section.functions.key_at(i).name.as_str()).collect();
    assert_eq!(names, vec!["", "B", "a", "ab", "b"]);
    assert!(function_key("a").before(&function_key("ab")));
    assert!(!function_key("ab").before(&function_key("a")));
    assert!(!function_key("a").before(&function_key("a")));
    assert!(function_key("a").same(&function_key("a")));
    assert!(!function_key("a").same(&function_key("ab")));

    let mut branches = Section::new();
    for (line, block, branch) in [(2u32, 0u32, 0u32), (1, 1, 0), (1, 0, 2), (1, 0, 1)] {
        branches.branches.insert(BranchKey { line, block, branch }, BranchValue { taken: None });
    }
    assert_eq!(*branches.branches.key_at(0), BranchKey { line: 1, block: 0, branch: 1 });
    assert_eq!(*branches.branches.key_at(1), BranchKey { line: 1, block: 0, branch: 2 });
    assert_eq!(*branches.branches.key_at(2), BranchKey { line: 1, block: 1, branch: 0 });
    assert_eq!(*branches.branches.key_at(3), BranchKey { line: 2, block: 0, branch: 0 });

    let lines = lines_section(vec![(9, line(1)), (3, line(1)), (5, line(1))]);
    assert_eq!(lines.lines.key_at(0).line, 3);
    assert_eq!(lines.lines.key_at(1).line, 5);
    assert_eq!(lines.lines.key_at(2).line, 9);
    assert!(section_key("a.c").before(&section_key("b.c")));
    assert!(!section_key("b.c").before(&section_key("a.c")));
}

#[test]
fn a_failed_diff_keeps_keys_and_untouched_values() {
    let mut section = lines_section(vec![(1, line(4)), (2, line_with(5, "abc")), (3, line(6))]);
    section.functions.insert(function_key("f"), function(Some(1), 2));
    let mut other = lines_section(vec![(2, line_with(1, "xyz")), (4, line(1))]);
    other.functions.insert(function_key("f"), function(Some(1), 1));

    assert_eq!(section.diff(&other, strict()), Err(DiffError::UnmatchedChecksum));

    assert_eq!(section.functions.len(), 1);
    assert_eq!(section.lines.len(), 3);
    assert_eq!(section.lines.key_at(0).line, 1);
    assert_eq!(section.lines.key_at(1).line, 2);
    assert_eq!(section.lines.key_at(2).line, 3);
    assert_eq!(*section.lines.value_at(0), line(4));
    assert_eq!(*section.lines.value_at(1), line_with(5, "abc"));
    assert_eq!(*section.lines.value_at(2), line(6));

    assert_eq!(*section.functions.value_at(0), function(Some(1), 0));

    let mut lines = lines_section(vec![(1, line(4)), (2, line_with(5, "abc")), (3, line(6))]);
    let others = lines_section(vec![(3, line(1)), (2, line_with(1, "xyz")), (1, line(1))]);
    assert_eq!(lines.lines.diff(&others.lines, strict()), Err(DiffError::UnmatchedChecksum));
    assert_eq!(*lines.lines.value_at(0), line(0));
    assert_eq!(*lines.lines.value_at(1), line_with(5, "abc"));
    assert_eq!(*lines.lines.value_at(2), line(6));

    let mut f = function(Some(1), 5);
    assert_eq!(f.diff(&function(Some(2), 7), strict()), Err(DiffError::UnmatchedFunctionLine));
    assert_eq!(f, function(Some(1), 5));
    let mut l = line_with(4, "a");
    assert_eq!(l.diff(&line_with(0, "b"), lenient()), Err(DiffError::UnmatchedChecksum));
    assert_eq!(l, line_with(4, "a"));
}

#[test]
fn sections_without_signal_are_dropped() {
    let mut mixed = lines_section(vec![(1, line(1)), (2, line(1))]);
    mixed.functions.insert(function_key("f"), function(Some(1), 1));
    let first = report_of(vec![
        ("covered.c", lines_section(vec![(1, line(1))])),
        ("new.c", mixed),
        ("zero.c", lines_section(vec![(1, line(0))])),
        ("empty.c", Section::new()),
        ("branch.c", branches_section(vec![(1, Some(0))])),
        ("cleared.c", branches_section(vec![(1, Some(2))])),
        ("function.c", functions_section(vec![("g", function(None, 3))])),
    ]);
    let second = report_of(vec![
        ("covered.c", lines_section(vec![(1, line(9))])),
        ("new.c", lines_section(vec![(1, line(1))])),
        ("cleared.c", branches_section(vec![(1, Some(1))])),
    ]);

    let out = diff_reports(&first, &second, strict(), prune()).unwrap();

    assert_eq!(out.sections.len(), 3);
    assert_eq!(out.sections.key_at(0), &section_key("branch.c"));
    assert_eq!(out.sections.key_at(1), &section_key("function.c"));
    assert_eq!(out.sections.key_at(2), &section_key("new.c"));
    assert_eq!(*line_of(&out, "new.c", 1), line(0));
    assert_eq!(*line_of(&out, "new.c", 2), line(1));
    assert_eq!(*function_of(&out, "new.c", "f"), function(Some(1), 1));
    for i in 0..out.sections.len() {
        assert!(out.sections.value_at(i).has_signal());
    }

    let kept = diff_reports(&first, &second, strict(), keep_all()).unwrap();
    assert_eq!(kept.sections.len(), 7);
}

#[test]
fn diffing_a_covered_report_against_itself_clears_it() {
    let mut section = lines_section(vec![(1, line_with(2, "abc")), (2, line(1))]);
    section.functions.insert(function_key("f"), function(Some(1), 3));
    section.branches.insert(BranchKey { line: 1, block: 0, branch: 1 }, BranchValue { taken: Some(5) });
    let report = report_of(vec![("a.c", section), ("b.c", lines_section(vec![(4, line(8))]))]);

    let out = diff_reports(&report, &report, strict(), keep_all()).unwrap();

    assert_eq!(out.sections.len(), 2);
    for i in 0..out.sections.len() {
        let section = out.sections.value_at(i);
        assert!(!section.has_signal());
        for j in 0..section.lines.len() {
            assert_eq!(section.lines.value_at(j).count, 0);
        }
        for j in 0..section.functions.len() {
            assert_eq!(section.functions.value_at(j).count, 0);
        }
        for j in 0..section.branches.len() {
            assert_eq!(section.branches.value_at(j).taken, None);
        }
    }
    assert_eq!(*line_of(&out, "a.c", 1), line_with(0, "abc"));
    assert_eq!(*function_of(&out, "a.c", "f"), function(Some(1), 0));

    let pruned = diff_reports(&report, &report, strict(), prune()).unwrap();
    assert_eq!(pruned.sections.len(), 0);
}

#[test]
fn inputs_are_left_as_they_were() {
    let first = report_of(vec![("a.c", lines_section(vec![(1, line(4))]))]);
    let second = report_of(vec![("a.c", lines_section(vec![(1, line(2))]))]);

    let out = diff_reports(&first, &second, strict(), prune()).unwrap();

    assert_eq!(out.sections.len(), 0);
    assert_eq!(*line_of(&first, "a.c", 1), line(4));
    assert_eq!(*line_of(&second, "a.c", 1), line(2));
}

#[test]
fn empty_reports() {
    let empty = Report::new();
    let full = report_of(vec![("a.c", lines_section(vec![(1, line(4))]))]);

    assert_eq!(diff_reports(&empty, &full, strict(), keep_all()).unwrap().sections.len(), 0);
    let out = diff_reports(&full, &empty, strict(), prune()).unwrap();
    assert_eq!(out.sections.len(), 1);
    assert_eq!(*line_of(&out, "a.c", 1), line(4));
}

#[test]
fn section_keys_compare_test_name_and_file() {
    let mut first = Report::new();
    first.sections.insert(
        SectionKey { rank: 1, test_name: "t1".to_string(), source_file: "a.c".to_string() },
        lines_section(vec![(1, line(4))]),
    );
    let mut second = Report::new();
    second.sections.insert(
        SectionKey { rank: 2, test_name: "t2".to_string(), source_file: "a.c".to_string() },
        lines_section(vec![(1, line(4))]),
    );

    let out = diff_reports(&first, &second, strict(), keep_all()).unwrap();

    assert_eq!(out.sections.value_at(0).lines.value_at(0).count, 4);
    assert!(!section_key("a.c").same(&section_key("b.c")));
    assert!(section_key("a.c").same(&section_key("a.c")));
}

#[test]
fn record_diffs_in_place() {
    let mut f = function(Some(2), 7);
    assert_eq!(f.diff(&function(Some(3), 0), strict()), Err(DiffError::UnmatchedFunctionLine));
    assert_eq!(f.diff(&function(None, 0), strict()), Ok(()));
    assert_eq!(f, function(Some(2), 7));
    assert_eq!(f.diff(&function(Some(3), 0), lenient()), Ok(()));
    assert_eq!(f, function(Some(2), 0));

    let mut b = BranchValue { taken: Some(3) };
    assert_eq!(b.diff(&BranchValue { taken: Some(0) }, strict()), Ok(()));
    assert_eq!(b, BranchValue { taken: Some(3) });
    assert_eq!(b.diff(&BranchValue { taken: Some(1) }, strict()), Ok(()));
    assert_eq!(b, BranchValue { taken: None });

    let mut l = line_with(6, "abc");
    assert_eq!(l.diff(&line_with(9, "abd"), lenient()), Err(DiffError::UnmatchedChecksum));
    assert_eq!(l.diff(&line_with(0, "abc"), strict()), Ok(()));
    assert_eq!(l, line_with(6, "abc"));
    assert_eq!(l.diff(&line(9), strict()), Ok(()));
    assert_eq!(l, line_with(0, "abc"));
}

#[test]
fn table_insert_replaces_under_the_same_key() {
    let mut table: Table<LineKey, LineValue> = Table::new();
    assert_eq!(table.len(), 0);
    table.insert(LineKey { line: 5 }, line(1));
    table.insert(LineKey { line: 2 }, line(2));
    table.insert(LineKey { line: 5 }, line(3));

    assert_eq!(table.len(), 2);
    assert_eq!(table.position(&LineKey { line: 2 }), Some(0));
    assert_eq!(table.position(&LineKey { line: 5 }), Some(1));
    assert_eq!(table.position(&LineKey { line: 3 }), None);
    assert_eq!(table.get(&LineKey { line: 5 }), Some(&line(3)));
    assert_eq!(table.get(&LineKey { line: 3 }), None);
    assert_eq!(*table.key_at(0), LineKey { line: 2 });

    table.remove_at(0);
    assert_eq!(table.len(), 1);
    assert_eq!(*table.key_at(0), LineKey { line: 5 });
    assert_eq!(*table.value_at(0), line(3));
}

#[test]
fn deep_copy_is_independent() {
    let source = report_of(vec![("a.c", lines_section(vec![(1, line_with(4, "abc"))]))]);
    let mut copy = source.deep_copy();
    let other = report_of(vec![("a.c", lines_section(vec![(1, line(1))]))]);

    assert_eq!(copy.diff(&other, strict()), Ok(()));
    copy.drop_empty_sections();

    assert_eq!(copy.sections.len(), 0);
    assert_eq!(*line_of(&source, "a.c", 1), line_with(4, "abc"));
}

#[test]
fn signal_of_a_section() {
    assert!(!Section::new().has_signal());
    assert!(!lines_section(vec![(1, line(0))]).has_signal());
    assert!(lines_section(vec![(1, line(0)), (2, line(1))]).has_signal());
    assert!(!functions_section(vec![("f", function(Some(1), 0))]).has_signal());
    assert!(functions_section(vec![("f", function(None, 1))]).has_signal());
    assert!(!branches_section(vec![(1, None)]).has_signal());
    assert!(branches_section(vec![(1, None), (2, Some(0))]).has_signal());
}

#[test]
fn error_messages() {
    assert_eq!(DiffError::UnmatchedFunctionLine.message(), "unmatched start line of function");
    assert_eq!(DiffError::UnmatchedChecksum.message(), "unmatched checksum");
}

#[test]
fn built_reports_are_valid() {
    let mut section = lines_section(vec![(1, line(1)), (2, line(1)), (1, line(7))]);
    section.functions.insert(function_key("f"), function(None, 1));
    section.functions.insert(function_key("f"), function(Some(2), 1));
    assert!(section.lines.is_ascending());
    assert_eq!(section.lines.len(), 2);
    assert!(section.is_valid());
    let report = report_of(vec![("a.c", section), ("b.c", Section::new()), ("a.c", Section::new())]);
    assert_eq!(report.sections.len(), 2);
    assert!(report.is_valid());
    assert_eq!(section_of(&report, "a.c").lines.len(), 0);
    assert!(Report::new().is_valid());
}

//! What holds of every diff, proved over the models of the reports.

use vstd::prelude::*;
use crate::error::DiffError;
use crate::options::{IgnoreError, PostProcessOptions};
use crate::records::{
    BranchKey, BranchValue, FunctionValue, LineKey, LineModel, LineValue, branch_taken,
    checksums_differ, start_lines_differ,
};
use crate::report::{entry_has_signal, post_processed, pruned, Report, SectionEntry};
use crate::section::{has_signal, Section, SectionModel};
use crate::table::{
    Diff, distinct_keys, has_key, index_of, law_diff_by_key, law_diff_fails_on_failing_pair,
    law_diff_keeps_keys, lemma_filtered_prefix, lemma_index_of, table_diff_error,
    table_diff_value, value_of,
};

verus! {

/// Every key of the section `out` is a key of the section `first`, kind by
/// kind.
pub open spec fn keys_within(out: SectionModel, first: SectionModel) -> bool {
    &&& forall|k: Seq<u8>| has_key(out.functions, k) ==> has_key(first.functions, k)
    &&& forall|k: BranchKey| has_key(out.branches, k) ==> has_key(first.branches, k)
    &&& forall|k: LineKey| has_key(out.lines, k) ==> has_key(first.lines, k)
}

/// The report that a successful diff of `first` against `second` returns.
pub open spec fn diff_result(
    first: Seq<SectionEntry>,
    second: Seq<SectionEntry>,
    ignore: IgnoreError,
    options: PostProcessOptions,
) -> Seq<SectionEntry> {
    post_processed(Report::diff_value(first, second, ignore), options)
}

/// A valid report holds each of its keys once, and so does each of its
/// sections.
proof fn lemma_valid_section(v: Seq<SectionEntry>, sk: u64)
    requires
        Report::valid(v),
        has_key(v, sk),
    ensures
        Section::valid(value_of(v, sk)),
        distinct_keys(v),
        distinct_keys(value_of(v, sk).functions),
        distinct_keys(value_of(v, sk).branches),
        distinct_keys(value_of(v, sk).lines),
{
    let i = index_of(v, sk);
    assert(Section::valid(v[i].1));
}

/// The diffed report holds, under a key that both reports hold, the diff
/// of the two sections.
proof fn lemma_diffed_section(
    first: Seq<SectionEntry>,
    second: Seq<SectionEntry>,
    ignore: IgnoreError,
    sk: u64,
)
    requires
        Report::valid(first),
        has_key(first, sk),
        has_key(second, sk),
    ensures
        has_key(Report::diff_value(first, second, ignore), sk),
        value_of(Report::diff_value(first, second, ignore), sk) == Section::diff_value(
            value_of(first, sk),
            value_of(second, sk),
            ignore,
        ),
{
    law_diff_by_key::<u64, Section>(first, second, ignore, sk);
}

/// The entry `e` stands under the key of a section of `first`, and its
/// functions, branches and lines under keys of that section.
pub open spec fn comes_from(first: Seq<SectionEntry>, e: SectionEntry) -> bool {
    exists|j: int| 0 <= j < first.len() && (#[trigger] first[j]).0 == e.0 && keys_within(e.1, first[j].1)
}

/// No key appears in the result that the first report did not hold: each
/// section of the result stands under the key of a section of the first
/// report, and its functions, branches and lines under keys of that
/// section.
pub proof fn law_result_keys_come_from_first(
    first: Seq<SectionEntry>,
    second: Seq<SectionEntry>,
    ignore: IgnoreError,
    options: PostProcessOptions,
)
    ensures
        forall|i: int|
            0 <= i < diff_result(first, second, ignore, options).len() ==> comes_from(
                first,
                #[trigger] diff_result(first, second, ignore, options)[i],
            ),
{
    let d = Report::diff_value(first, second, ignore);
    let out = diff_result(first, second, ignore, options);
    assert forall|j: int| 0 <= j < first.len() implies (#[trigger] d[j]).0 == first[j].0 && keys_within(
        d[j].1,
        first[j].1,
    ) by {
        let a = first[j].1;
        if has_key(second, first[j].0) {
            let b = value_of(second, first[j].0);
            law_diff_keeps_keys::<Seq<u8>, FunctionValue>(a.functions, b.functions, ignore);
            law_diff_keeps_keys::<BranchKey, BranchValue>(a.branches, b.branches, ignore);
            law_diff_keeps_keys::<LineKey, LineValue>(a.lines, b.lines, ignore);
        }
    }
    assert forall|i: int| 0 <= i < out.len() implies comes_from(first, #[trigger] out[i]) by {
        if options.drop_zeros {
            lemma_filtered_prefix(d, entry_has_signal(), d.len() as int);
            assert(d.take(d.len() as int) =~= d);
            let n = choose|n: int| 0 <= n < d.len() && #[trigger] d[n] == out[i];
            assert(first[n].0 == out[i].0 && keys_within(out[i].1, first[n].1));
        } else {
            assert(first[i].0 == out[i].0 && keys_within(out[i].1, first[i].1));
        }
    }
}

/// Pruning keeps exactly the sections that carry a signal, each as it was.
pub proof fn law_pruning_keeps_sections_with_signal(v: Seq<SectionEntry>)
    requires
        distinct_keys(v),
    ensures
        distinct_keys(pruned(v)),
        forall|i: int| 0 <= i < pruned(v).len() ==> has_signal((#[trigger] pruned(v)[i]).1),
        forall|sk: u64|
            has_key(pruned(v), sk) <==> has_key(v, sk) && has_signal(#[trigger] value_of(v, sk)),
        forall|sk: u64|
            has_key(pruned(v), sk) ==> #[trigger] value_of(pruned(v), sk) == value_of(v, sk),
{
    let f = pruned(v);
    lemma_filtered_prefix(v, entry_has_signal(), v.len() as int);
    assert(v.take(v.len() as int) =~= v);
    assert forall|sk: u64| has_key(f, sk) implies has_key(v, sk) && has_signal(
        #[trigger] value_of(v, sk),
    ) && value_of(f, sk) == value_of(v, sk) by {
        let m = index_of(f, sk);
        let n = choose|n: int| 0 <= n < v.len() && #[trigger] v[n] == f[m];
        lemma_index_of(v, n);
        lemma_index_of(f, m);
    }
    assert forall|sk: u64|
        has_key(v, sk) && has_signal(#[trigger] value_of(v, sk)) implies has_key(f, sk) by {
        let n = index_of(v, sk);
        assert(entry_has_signal()(v[n]));
    }
}

/// With pruning, no section is left in the result without a signal.
pub proof fn law_pruned_result_has_signal(
    first: Seq<SectionEntry>,
    second: Seq<SectionEntry>,
    ignore: IgnoreError,
    options: PostProcessOptions,
)
    requires
        options.drop_zeros,
    ensures
        forall|i: int|
            0 <= i < diff_result(first, second, ignore, options).len() ==> has_signal(
                (#[trigger] diff_result(first, second, ignore, options)[i]).1,
            ),
{
    let d = Report::diff_value(first, second, ignore);
    lemma_filtered_prefix(d, entry_has_signal(), d.len() as int);
    assert(d.take(d.len() as int) =~= d);
}

/// A line that both reports hold is cleared where the second report ran
/// it, and keeps its count where it did not. Its checksum stays.
pub proof fn law_line_transition(
    first: Seq<SectionEntry>,
    second: Seq<SectionEntry>,
    ignore: IgnoreError,
    sk: u64,
    lk: LineKey,
)
    requires
        Report::valid(first),
        Report::valid(second),
        has_key(first, sk),
        has_key(second, sk),
        has_key(value_of(first, sk).lines, lk),
        has_key(value_of(second, sk).lines, lk),
    ensures
        has_key(Report::diff_value(first, second, ignore), sk),
        has_key(value_of(Report::diff_value(first, second, ignore), sk).lines, lk),
        value_of(value_of(Report::diff_value(first, second, ignore), sk).lines, lk) == (LineModel {
            count: if value_of(value_of(second, sk).lines, lk).count > 0 {
                0
            } else {
                value_of(value_of(first, sk).lines, lk).count
            },
            checksum: value_of(value_of(first, sk).lines, lk).checksum,
        }),
{
    lemma_valid_section(first, sk);
    lemma_diffed_section(first, second, ignore, sk);
    law_diff_by_key::<LineKey, LineValue>(
        value_of(first, sk).lines,
        value_of(second, sk).lines,
        ignore,
        lk,
    );
}

/// A function that both reports hold is cleared where the second report
/// called it, or where the two disagree on its start line; else it keeps
/// its count. Its start line stays.
pub proof fn law_function_transition(
    first: Seq<SectionEntry>,
    second: Seq<SectionEntry>,
    ignore: IgnoreError,
    sk: u64,
    fk: Seq<u8>,
)
    requires
        Report::valid(first),
        Report::valid(second),
        has_key(first, sk),
        has_key(second, sk),
        has_key(value_of(first, sk).functions, fk),
        has_key(value_of(second, sk).functions, fk),
    ensures
        has_key(Report::diff_value(first, second, ignore), sk),
        has_key(value_of(Report::diff_value(first, second, ignore), sk).functions, fk),
        value_of(value_of(Report::diff_value(first, second, ignore), sk).functions, fk) == (FunctionValue {
            start_line: value_of(value_of(first, sk).functions, fk).start_line,
            count: if value_of(value_of(second, sk).functions, fk).count > 0 || start_lines_differ(
                value_of(value_of(first, sk).functions, fk),
                value_of(value_of(second, sk).functions, fk),
            ) {
                0
            } else {
                value_of(value_of(first, sk).functions, fk).count
            },
        }),
{
    lemma_valid_section(first, sk);
    lemma_diffed_section(first, second, ignore, sk);
    law_diff_by_key::<Seq<u8>, FunctionValue>(
        value_of(first, sk).functions,
        value_of(second, sk).functions,
        ignore,
        fk,
    );
}

/// A branch that both reports hold loses its count where the second report
/// took it, and stays as it was where it did not.
pub proof fn law_branch_transition(
    first: Seq<SectionEntry>,
    second: Seq<SectionEntry>,
    ignore: IgnoreError,
    sk: u64,
    bk: BranchKey,
)
    requires
        Report::valid(first),
        Report::valid(second),
        has_key(first, sk),
        has_key(second, sk),
        has_key(value_of(first, sk).branches, bk),
        has_key(value_of(second, sk).branches, bk),
    ensures
        has_key(Report::diff_value(first, second, ignore), sk),
        has_key(value_of(Report::diff_value(first, second, ignore), sk).branches, bk),
        value_of(value_of(Report::diff_value(first, second, ignore), sk).branches, bk) == (if branch_taken(
            value_of(value_of(second, sk).branches, bk),
        ) {
            BranchValue { taken: None }
        } else {
            value_of(value_of(first, sk).branches, bk)
        }),
{
    lemma_valid_section(first, sk);
    lemma_diffed_section(first, second, ignore, sk);
    law_diff_by_key::<BranchKey, BranchValue>(
        value_of(first, sk).branches,
        value_of(second, sk).branches,
        ignore,
        bk,
    );
}

/// What the error of a diff can be: a disagreement on a start line is
/// reported only where it is not ignored.
pub proof fn law_ignored_start_lines_never_fail(
    first: Seq<SectionEntry>,
    second: Seq<SectionEntry>,
    ignore: IgnoreError,
)
    requires
        Report::valid(second),
        ignore.ignore_unmatched_line_error,
    ensures
        Report::diff_error(first, second, ignore) != Some(DiffError::UnmatchedFunctionLine),
{
    if Report::diff_error(first, second, ignore) is Some {
        law_diff_fails_on_failing_pair::<u64, Section>(first, second, ignore);
        let sk = choose|sk: u64|
            has_key(first, sk) && has_key(second, sk) && (#[trigger] Section::diff_error(
                value_of(first, sk),
                value_of(second, sk),
                ignore,
            )) == table_diff_error::<u64, Section>(first, second, ignore);
        lemma_valid_section(second, sk);
        lemma_section_error_kinds(value_of(first, sk), value_of(second, sk), ignore);
    }
}

/// The error of diffing two sections: that of a pair of functions where
/// the functions fail, else that of a pair of lines.
proof fn lemma_section_error_kinds(a: SectionModel, b: SectionModel, ignore: IgnoreError)
    requires
        distinct_keys(b.functions),
        distinct_keys(b.branches),
        distinct_keys(b.lines),
    ensures
        table_diff_error::<BranchKey, BranchValue>(a.branches, b.branches, ignore) is None,
        table_diff_error::<Seq<u8>, FunctionValue>(a.functions, b.functions, ignore) is Some
            ==> !ignore.ignore_unmatched_line_error && table_diff_error::<Seq<u8>, FunctionValue>(
            a.functions,
            b.functions,
            ignore,
        ) == Some(DiffError::UnmatchedFunctionLine),
        table_diff_error::<LineKey, LineValue>(a.lines, b.lines, ignore) is Some
            ==> table_diff_error::<LineKey, LineValue>(a.lines, b.lines, ignore) == Some(
            DiffError::UnmatchedChecksum,
        ),
{
    law_diff_fails_on_failing_pair::<Seq<u8>, FunctionValue>(a.functions, b.functions, ignore);
    law_diff_fails_on_failing_pair::<BranchKey, BranchValue>(a.branches, b.branches, ignore);
    law_diff_fails_on_failing_pair::<LineKey, LineValue>(a.lines, b.lines, ignore);
}

/// Where the two reports hold a line under the same keys with two
/// checksums that differ, the diff fails. It fails with the checksum error
/// unless a disagreement on a start line, not ignored, is met first.
pub proof fn law_checksum_guard(
    first: Seq<SectionEntry>,
    second: Seq<SectionEntry>,
    ignore: IgnoreError,
    sk: u64,
    lk: LineKey,
)
    requires
        Report::valid(first),
        Report::valid(second),
        has_key(first, sk),
        has_key(second, sk),
        has_key(value_of(first, sk).lines, lk),
        has_key(value_of(second, sk).lines, lk),
        checksums_differ(
            value_of(value_of(first, sk).lines, lk),
            value_of(value_of(second, sk).lines, lk),
        ),
    ensures
        Report::diff_error(first, second, ignore) is Some,
        ignore.ignore_unmatched_line_error ==> Report::diff_error(first, second, ignore) == Some(
            DiffError::UnmatchedChecksum,
        ),
        table_diff_error::<LineKey, LineValue>(
            value_of(first, sk).lines,
            value_of(second, sk).lines,
            ignore,
        ) == Some(DiffError::UnmatchedChecksum),
{
    let a = value_of(first, sk);
    let b = value_of(second, sk);
    lemma_valid_section(second, sk);
    law_diff_fails_on_failing_pair::<LineKey, LineValue>(a.lines, b.lines, ignore);
    assert(LineValue::diff_error(value_of(a.lines, lk), value_of(b.lines, lk), ignore) is Some);
    lemma_section_error_kinds(a, b, ignore);
    assert(Section::diff_error(a, b, ignore) is Some);
    law_diff_fails_on_failing_pair::<u64, Section>(first, second, ignore);
    if ignore.ignore_unmatched_line_error {
        law_ignored_start_lines_never_fail(first, second, ignore);
    }
}

/// Where the two reports hold a function under the same keys with two
/// start lines that differ, the diff fails unless that is ignored; where
/// it is ignored, the disagreement makes no diff fail, and the function's
/// count is cleared.
pub proof fn law_function_line_guard(
    first: Seq<SectionEntry>,
    second: Seq<SectionEntry>,
    ignore: IgnoreError,
    sk: u64,
    fk: Seq<u8>,
)
    requires
        Report::valid(first),
        Report::valid(second),
        has_key(first, sk),
        has_key(second, sk),
        has_key(value_of(first, sk).functions, fk),
        has_key(value_of(second, sk).functions, fk),
        start_lines_differ(
            value_of(value_of(first, sk).functions, fk),
            value_of(value_of(second, sk).functions, fk),
        ),
    ensures
        !ignore.ignore_unmatched_line_error ==> Report::diff_error(first, second, ignore) is Some
            && table_diff_error::<Seq<u8>, FunctionValue>(
            value_of(first, sk).functions,
            value_of(second, sk).functions,
            ignore,
        ) == Some(DiffError::UnmatchedFunctionLine),
        ignore.ignore_unmatched_line_error ==> Report::diff_error(first, second, ignore) != Some(
            DiffError::UnmatchedFunctionLine,
        ) && value_of(value_of(Report::diff_value(first, second, ignore), sk).functions, fk).count
            == 0,
{
    let a = value_of(first, sk);
    let b = value_of(second, sk);
    lemma_valid_section(second, sk);
    if ignore.ignore_unmatched_line_error {
        law_ignored_start_lines_never_fail(first, second, ignore);
        law_function_transition(first, second, ignore, sk, fk);
    } else {
        law_diff_fails_on_failing_pair::<Seq<u8>, FunctionValue>(a.functions, b.functions, ignore);
        assert(FunctionValue::diff_error(value_of(a.functions, fk), value_of(b.functions, fk), ignore)
            is Some);
        lemma_section_error_kinds(a, b, ignore);
        assert(Section::diff_error(a, b, ignore) is Some);
        law_diff_fails_on_failing_pair::<u64, Section>(first, second, ignore);
    }
}

/// Every function of the section was called, every branch taken and every
/// line run.
pub open spec fn all_covered(s: SectionModel) -> bool {
    &&& forall|i: int| 0 <= i < s.functions.len() ==> (#[trigger] s.functions[i]).1.count > 0
    &&& forall|i: int| 0 <= i < s.branches.len() ==> branch_taken((#[trigger] s.branches[i]).1)
    &&& forall|i: int| 0 <= i < s.lines.len() ==> (#[trigger] s.lines[i]).1.count > 0
}

/// No function of the section has a count, no branch is known to have
/// been evaluated and no line has a count.
pub open spec fn all_cleared(s: SectionModel) -> bool {
    &&& forall|i: int| 0 <= i < s.functions.len() ==> (#[trigger] s.functions[i]).1.count == 0
    &&& forall|i: int| 0 <= i < s.branches.len() ==> (#[trigger] s.branches[i]).1.taken is None
    &&& forall|i: int| 0 <= i < s.lines.len() ==> (#[trigger] s.lines[i]).1.count == 0
}

/// Diffing a report against itself never fails.
pub proof fn law_self_diff_succeeds(a: Seq<SectionEntry>, ignore: IgnoreError)
    requires
        Report::valid(a),
    ensures
        Report::diff_error(a, a, ignore) is None,
{
    if Report::diff_error(a, a, ignore) is Some {
        law_diff_fails_on_failing_pair::<u64, Section>(a, a, ignore);
        let sk = choose|sk: u64|
            has_key(a, sk) && (#[trigger] Section::diff_error(
                value_of(a, sk),
                value_of(a, sk),
                ignore,
            )) is Some;
        let s = value_of(a, sk);
        lemma_valid_section(a, sk);
        law_diff_fails_on_failing_pair::<Seq<u8>, FunctionValue>(s.functions, s.functions, ignore);
        law_diff_fails_on_failing_pair::<BranchKey, BranchValue>(s.branches, s.branches, ignore);
        law_diff_fails_on_failing_pair::<LineKey, LineValue>(s.lines, s.lines, ignore);
    }
}

/// Diffing a report in which everything is covered against itself clears
/// every record, and keeps every key.
pub proof fn law_self_diff_clears(a: Seq<SectionEntry>, ignore: IgnoreError)
    requires
        Report::valid(a),
        forall|i: int| 0 <= i < a.len() ==> all_covered((#[trigger] a[i]).1),
    ensures
        Report::diff_error(a, a, ignore) is None,
        Report::diff_value(a, a, ignore).len() == a.len(),
        forall|i: int|
            0 <= i < a.len() ==> (#[trigger] Report::diff_value(a, a, ignore)[i]).0 == a[i].0
                && all_cleared(Report::diff_value(a, a, ignore)[i].1),
{
    law_self_diff_succeeds(a, ignore);
    let d = Report::diff_value(a, a, ignore);
    assert forall|i: int| 0 <= i < a.len() implies (#[trigger] d[i]).0 == a[i].0 && all_cleared(
        d[i].1,
    ) by {
        lemma_index_of(a, i);
        let s = a[i].1;
        assert(Section::valid(s));
        assert(all_covered(s));
        assert(d[i].1 == Section::diff_value(s, s, ignore));
        assert forall|m: int| 0 <= m < s.functions.len() implies (#[trigger] d[i].1.functions[m]).1.count
            == 0 by {
            lemma_index_of(s.functions, m);
            assert(s.functions[m].1.count > 0);
        }
        assert forall|m: int| 0 <= m < s.branches.len() implies (#[trigger] d[i].1.branches[m]).1.taken is None by {
            lemma_index_of(s.branches, m);
            assert(branch_taken(s.branches[m].1));
        }
        assert forall|m: int| 0 <= m < s.lines.len() implies (#[trigger] d[i].1.lines[m]).1.count
            == 0 by {
            lemma_index_of(s.lines, m);
            assert(s.lines[m].1.count > 0);
        }
    }
}

} // verus!

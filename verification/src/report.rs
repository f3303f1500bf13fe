use vstd::prelude::*;
use crate::error::DiffError;
use crate::options::{IgnoreError, PostProcessOptions};
use crate::section::{has_signal, Section, SectionKey, SectionModel};
use crate::table::{
    DeepCopy, Diff, Table, ascending, distinct_keys, lemma_filtered_prefix,
    lemma_remove_keeps_ascending, lemma_remove_keeps_keys_distinct, table_diff_error,
    table_diff_value, table_failed_value, table_valid,
};

verus! {

/// The model of one entry of a report: the rank of the section's key and
/// the section.
pub type SectionEntry = (u64, SectionModel);

/// The coverage of a set of source files, one section for each.
#[derive(Debug)]
pub struct Report {
    pub sections: Table<SectionKey, Section>,
}

impl View for Report {
    type V = Seq<SectionEntry>;

    open spec fn view(&self) -> Seq<SectionEntry> {
        self.sections@
    }
}

impl DeepCopy for Report {
    fn deep_copy(&self) -> (c: Self) {
        Report { sections: self.sections.deep_copy() }
    }
}

impl Diff for Report {
    open spec fn valid(v: Seq<SectionEntry>) -> bool {
        table_valid::<SectionKey, Section>(v)
    }

    open spec fn diff_error(a: Seq<SectionEntry>, b: Seq<SectionEntry>, ignore: IgnoreError) -> Option<DiffError> {
        table_diff_error::<u64, Section>(a, b, ignore)
    }

    open spec fn diff_value(a: Seq<SectionEntry>, b: Seq<SectionEntry>, ignore: IgnoreError) -> Seq<SectionEntry> {
        table_diff_value::<u64, Section>(a, b, ignore)
    }

    open spec fn failed_value(
        a: Seq<SectionEntry>,
        b: Seq<SectionEntry>,
        ignore: IgnoreError,
        now: Seq<SectionEntry>,
    ) -> bool {
        table_failed_value::<u64, Section>(a, b, ignore, now)
    }

    /// Diffs the sections.
    fn diff(&mut self, other: &Self, ignore: IgnoreError) -> (r: Result<(), DiffError>) {
        self.sections.diff(&other.sections, ignore)
    }
}

/// The test that pruning applies to an entry of a report: its section
/// carries a signal.
pub open spec fn entry_has_signal() -> spec_fn(SectionEntry) -> bool {
    |e: SectionEntry| has_signal(e.1)
}

/// The sections of `v` that carry a signal, in their order.
pub open spec fn pruned(v: Seq<SectionEntry>) -> Seq<SectionEntry> {
    v.filter(entry_has_signal())
}

/// What post-processing makes of a diffed report.
pub open spec fn post_processed(v: Seq<SectionEntry>, options: PostProcessOptions) -> Seq<SectionEntry> {
    if options.drop_zeros {
        pruned(v)
    } else {
        v
    }
}

/// Filtering one element more either appends that element or changes
/// nothing.
proof fn lemma_filter_step<A>(s: Seq<A>, p: spec_fn(A) -> bool, k: int)
    requires
        0 <= k < s.len(),
    ensures
        s.take(k + 1).filter(p) == (if p(s[k]) {
            s.take(k).filter(p).push(s[k])
        } else {
            s.take(k).filter(p)
        }),
{
    reveal(Seq::filter);
    assert(s.take(k + 1).drop_last() =~= s.take(k));
}

impl Report {
    /// A report without sections.
    pub fn new() -> (r: Self)
        ensures
            r@.len() == 0,
    {
        Report { sections: Table::new() }
    }

    /// Whether the sections stand in the order of their keys, and the
    /// functions, branches and lines of each section in that of theirs.
    pub fn is_valid(&self) -> (b: bool)
        ensures
            b == Self::valid(self@),
    {
        if !self.sections.is_ascending() {
            return false;
        }
        let mut i: usize = 0;
        while i < self.sections.len()
            invariant
                i <= self@.len(),
                distinct_keys(self@),
                ascending::<SectionKey, SectionModel>(self@),
                forall|m: int| 0 <= m < i ==> Section::valid((#[trigger] self@[m]).1),
            decreases self@.len() - i,
        {
            if !self.sections.value_at(i).is_valid() {
                return false;
            }
            i += 1;
        }
        true
    }

    /// Removes every section that carries no signal.
    pub fn drop_empty_sections(&mut self)
        ensures
            final(self)@ == pruned(old(self)@),
            forall|i: int| 0 <= i < final(self)@.len() ==> has_signal((#[trigger] final(self)@[i]).1),
            Self::valid(old(self)@) ==> Self::valid(final(self)@),
    {
        let ghost all = self@;
        let mut i: usize = 0;
        let ghost mut k: int = 0;
        while i < self.sections.len()
            invariant
                0 <= k <= all.len(),
                i <= self@.len(),
                i == all.take(k).filter(entry_has_signal()).len(),
                self@ == all.take(k).filter(entry_has_signal()) + all.skip(k),
                Self::valid(all) ==> Self::valid(self@),
            decreases all.len() - k,
        {
            let ghost before = self@;
            proof {
                lemma_filter_step(all, entry_has_signal(), k);
                assert(before[i as int] == all[k]);
            }
            if self.sections.value_at(i).has_signal() {
                proof {
                    assert(before =~= all.take(k + 1).filter(entry_has_signal()) + all.skip(k + 1));
                }
                i += 1;
            } else {
                self.sections.remove_at(i);
                proof {
                    assert(self@ =~= all.take(k + 1).filter(entry_has_signal()) + all.skip(k + 1));
                    if Self::valid(all) {
                        lemma_remove_keeps_keys_distinct(before, i as int);
                        lemma_remove_keeps_ascending::<SectionKey, SectionModel>(before, i as int);
                        assert forall|m: int| 0 <= m < self@.len() implies Section::valid((#[trigger] self@[m]).1) by {
                            let m0 = if m < i { m } else { m + 1 };
                            assert(self@[m] == before[m0]);
                        }
                    }
                }
            }
            proof {
                k = k + 1;
            }
        }
        proof {
            assert(k == all.len()) by {
                if k < all.len() {
                    assert(self@.len() == i + (all.len() - k));
                }
            }
            assert(all.take(k) =~= all);
            assert(self@ =~= pruned(all));
            lemma_filtered_prefix(all, entry_has_signal(), k);
        }
    }
}

/// What `first` covers that `second` does not: a copy of `first` in which
/// every record that `second` covers too is cleared, without the sections
/// that are left with no signal where `post_process_options` asks for that.
///
/// Fails, with the error of the first section in the order of the keys
/// that fails, where the two reports disagree on a checksum or, unless
/// `ignore` says otherwise, on the start line of a function. Within a
/// section the functions are looked at before the lines.
pub fn diff_reports(
    first: &Report,
    second: &Report,
    ignore: IgnoreError,
    post_process_options: PostProcessOptions,
) -> (r: Result<Report, DiffError>)
    requires
        Report::valid(first@),
        Report::valid(second@),
    ensures
        match r {
            Ok(report) => {
                &&& Report::diff_error(first@, second@, ignore) is None
                &&& report@ == post_processed(
                    Report::diff_value(first@, second@, ignore),
                    post_process_options,
                )
                &&& Report::valid(report@)
                &&& post_process_options.drop_zeros ==> forall|i: int|
                    0 <= i < report@.len() ==> has_signal((#[trigger] report@[i]).1)
            },
            Err(e) => Report::diff_error(first@, second@, ignore) == Some(e),
        },
{
    let mut report = first.deep_copy();
    match report.diff(second, ignore) {
        Err(e) => {
            return Err(e);
        },
        Ok(()) => {},
    }
    if post_process_options.drop_zeros {
        report.drop_empty_sections();
    }
    Ok(report)
}

} // verus!

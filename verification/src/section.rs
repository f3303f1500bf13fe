use vstd::prelude::*;
use crate::error::DiffError;
use crate::options::IgnoreError;
use crate::records::{BranchKey, BranchValue, FunctionKey, FunctionValue, LineKey, LineModel, LineValue};
use crate::table::{
    DeepCopy, Diff, Key, Table, table_diff_error, table_diff_value, table_failed_value, table_valid,
};

verus! {

/// Identifies a section within a report: the test that ran and the source
/// file that it covered.
///
/// How two files compare is for the file system to say, so a key also
/// holds its rank: its place among the keys of all the reports at hand.
/// Two keys are the same key when their ranks are equal, and the sections
/// are ordered by rank. The two texts only name the section.
#[derive(Debug, PartialEq, Eq)]
pub struct SectionKey {
    pub rank: u64,
    pub test_name: String,
    pub source_file: String,
}

impl View for SectionKey {
    type V = u64;

    open spec fn view(&self) -> u64 {
        self.rank
    }
}

impl DeepCopy for SectionKey {
    fn deep_copy(&self) -> (c: Self) {
        SectionKey {
            rank: self.rank,
            test_name: self.test_name.clone(),
            source_file: self.source_file.clone(),
        }
    }
}

impl Key for SectionKey {
    open spec fn precedes(a: u64, b: u64) -> bool {
        a < b
    }

    proof fn lemma_order(a: u64, b: u64, c: u64) {
    }

    fn same(&self, other: &Self) -> (b: bool) {
        self.rank == other.rank
    }

    fn before(&self, other: &Self) -> (b: bool) {
        self.rank < other.rank
    }
}

/// The functions of a section.
pub type Functions = Table<FunctionKey, FunctionValue>;

/// The branches of a section.
pub type Branches = Table<BranchKey, BranchValue>;

/// The lines of a section.
pub type Lines = Table<LineKey, LineValue>;

/// The coverage of one source file.
#[derive(Debug)]
pub struct Section {
    pub functions: Functions,
    pub branches: Branches,
    pub lines: Lines,
}

/// The model of a [`Section`].
pub struct SectionModel {
    pub functions: Seq<(Seq<u8>, FunctionValue)>,
    pub branches: Seq<(BranchKey, BranchValue)>,
    pub lines: Seq<(LineKey, LineModel)>,
}

impl View for Section {
    type V = SectionModel;

    open spec fn view(&self) -> SectionModel {
        SectionModel { functions: self.functions@, branches: self.branches@, lines: self.lines@ }
    }
}

impl DeepCopy for Section {
    fn deep_copy(&self) -> (c: Self) {
        Section {
            functions: self.functions.deep_copy(),
            branches: self.branches.deep_copy(),
            lines: self.lines.deep_copy(),
        }
    }
}

/// Some function of the section was called.
pub open spec fn some_function_called(s: SectionModel) -> bool {
    exists|i: int| 0 <= i < s.functions.len() && (#[trigger] s.functions[i]).1.count > 0
}

/// Some branch of the section was evaluated.
pub open spec fn some_branch_evaluated(s: SectionModel) -> bool {
    exists|i: int| 0 <= i < s.branches.len() && (#[trigger] s.branches[i]).1.taken is Some
}

/// Some line of the section ran.
pub open spec fn some_line_ran(s: SectionModel) -> bool {
    exists|i: int| 0 <= i < s.lines.len() && (#[trigger] s.lines[i]).1.count > 0
}

/// The section carries a signal: a branch that was evaluated, a function
/// that was called or a line that ran.
pub open spec fn has_signal(s: SectionModel) -> bool {
    some_branch_evaluated(s) || some_function_called(s) || some_line_ran(s)
}

impl Section {
    /// A section without functions, branches or lines.
    pub fn new() -> (s: Self)
        ensures
            s@.functions.len() == 0,
            s@.branches.len() == 0,
            s@.lines.len() == 0,
    {
        Section { functions: Table::new(), branches: Table::new(), lines: Table::new() }
    }

    fn any_function_called(&self) -> (b: bool)
        ensures
            b == some_function_called(self@),
    {
        let mut i: usize = 0;
        while i < self.functions.len()
            invariant
                i <= self.functions@.len(),
                forall|m: int| 0 <= m < i ==> (#[trigger] self.functions@[m]).1.count == 0,
            decreases self.functions@.len() - i,
        {
            if self.functions.value_at(i).count > 0 {
                return true;
            }
            i += 1;
        }
        false
    }

    fn any_branch_evaluated(&self) -> (b: bool)
        ensures
            b == some_branch_evaluated(self@),
    {
        let mut i: usize = 0;
        while i < self.branches.len()
            invariant
                i <= self.branches@.len(),
                forall|m: int| 0 <= m < i ==> (#[trigger] self.branches@[m]).1.taken is None,
            decreases self.branches@.len() - i,
        {
            if self.branches.value_at(i).taken.is_some() {
                return true;
            }
            i += 1;
        }
        false
    }

    fn any_line_ran(&self) -> (b: bool)
        ensures
            b == some_line_ran(self@),
    {
        let mut i: usize = 0;
        while i < self.lines.len()
            invariant
                i <= self.lines@.len(),
                forall|m: int| 0 <= m < i ==> (#[trigger] self.lines@[m]).1.count == 0,
            decreases self.lines@.len() - i,
        {
            if self.lines.value_at(i).count > 0 {
                return true;
            }
            i += 1;
        }
        false
    }

    /// Whether the functions, the branches and the lines each stand in
    /// the order of their keys.
    pub fn is_valid(&self) -> (b: bool)
        ensures
            b == Self::valid(self@),
    {
        self.functions.is_ascending() && self.branches.is_ascending() && self.lines.is_ascending()
    }

    /// Whether the section carries a signal.
    pub fn has_signal(&self) -> (b: bool)
        ensures
            b == has_signal(self@),
    {
        self.any_branch_evaluated() || self.any_function_called() || self.any_line_ran()
    }
}

impl Diff for Section {
    open spec fn valid(v: SectionModel) -> bool {
        &&& table_valid::<FunctionKey, FunctionValue>(v.functions)
        &&& table_valid::<BranchKey, BranchValue>(v.branches)
        &&& table_valid::<LineKey, LineValue>(v.lines)
    }

    open spec fn diff_error(a: SectionModel, b: SectionModel, ignore: IgnoreError) -> Option<DiffError> {
        let functions = table_diff_error::<Seq<u8>, FunctionValue>(a.functions, b.functions, ignore);
        let branches = table_diff_error::<BranchKey, BranchValue>(a.branches, b.branches, ignore);
        let lines = table_diff_error::<LineKey, LineValue>(a.lines, b.lines, ignore);
        if functions is Some {
            functions
        } else if branches is Some {
            branches
        } else {
            lines
        }
    }

    open spec fn diff_value(a: SectionModel, b: SectionModel, ignore: IgnoreError) -> SectionModel {
        SectionModel {
            functions: table_diff_value::<Seq<u8>, FunctionValue>(a.functions, b.functions, ignore),
            branches: table_diff_value::<BranchKey, BranchValue>(a.branches, b.branches, ignore),
            lines: table_diff_value::<LineKey, LineValue>(a.lines, b.lines, ignore),
        }
    }

    open spec fn failed_value(
        a: SectionModel,
        b: SectionModel,
        ignore: IgnoreError,
        now: SectionModel,
    ) -> bool {
        if table_diff_error::<Seq<u8>, FunctionValue>(a.functions, b.functions, ignore) is Some {
            &&& table_failed_value::<Seq<u8>, FunctionValue>(
                a.functions,
                b.functions,
                ignore,
                now.functions,
            )
            &&& now.branches == a.branches
            &&& now.lines == a.lines
        } else if table_diff_error::<BranchKey, BranchValue>(a.branches, b.branches, ignore) is Some {
            &&& now.functions == table_diff_value::<Seq<u8>, FunctionValue>(
                a.functions,
                b.functions,
                ignore,
            )
            &&& table_failed_value::<BranchKey, BranchValue>(
                a.branches,
                b.branches,
                ignore,
                now.branches,
            )
            &&& now.lines == a.lines
        } else {
            &&& now.functions == table_diff_value::<Seq<u8>, FunctionValue>(
                a.functions,
                b.functions,
                ignore,
            )
            &&& now.branches == table_diff_value::<BranchKey, BranchValue>(
                a.branches,
                b.branches,
                ignore,
            )
            &&& table_failed_value::<LineKey, LineValue>(a.lines, b.lines, ignore, now.lines)
        }
    }

    /// Diffs the functions, then the branches, then the lines. Where one
    /// of them fails, those behind it are left as they were.
    fn diff(&mut self, other: &Self, ignore: IgnoreError) -> (r: Result<(), DiffError>) {
        match self.functions.diff(&other.functions, ignore) {
            Err(e) => {
                return Err(e);
            },
            Ok(()) => {},
        }
        match self.branches.diff(&other.branches, ignore) {
            Err(e) => {
                return Err(e);
            },
            Ok(()) => {},
        }
        match self.lines.diff(&other.lines, ignore) {
            Err(e) => {
                return Err(e);
            },
            Ok(()) => {},
        }
        Ok(())
    }
}

} // verus!

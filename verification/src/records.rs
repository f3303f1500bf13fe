use vstd::prelude::*;
use vstd::utf8::encode_utf8;
use crate::error::DiffError;
use crate::options::IgnoreError;
use crate::order::{
    bytes_before, bytes_precede, bytes_same, lemma_bytes_irreflexive, lemma_bytes_total,
    lemma_bytes_transitive,
};
use crate::table::{DeepCopy, Diff, Key};

verus! {

/// Identifies a function within a section: its name. Names are the same,
/// and are ordered, by their bytes.
#[derive(Debug, PartialEq, Eq)]
pub struct FunctionKey {
    pub name: String,
}

impl View for FunctionKey {
    type V = Seq<u8>;

    open spec fn view(&self) -> Seq<u8> {
        encode_utf8(self.name@)
    }
}

impl DeepCopy for FunctionKey {
    fn deep_copy(&self) -> (c: Self) {
        FunctionKey { name: self.name.clone() }
    }
}

impl Key for FunctionKey {
    open spec fn precedes(a: Seq<u8>, b: Seq<u8>) -> bool {
        bytes_precede(a, b)
    }

    proof fn lemma_order(a: Seq<u8>, b: Seq<u8>, c: Seq<u8>) {
        lemma_bytes_irreflexive(a);
        if a != b {
            lemma_bytes_total(a, b);
        }
        if bytes_precede(a, b) && bytes_precede(b, c) {
            lemma_bytes_transitive(a, b, c);
        }
    }

    fn same(&self, other: &Self) -> (b: bool) {
        bytes_same(self.name.as_str().as_bytes(), other.name.as_str().as_bytes())
    }

    fn before(&self, other: &Self) -> (b: bool) {
        bytes_before(self.name.as_str().as_bytes(), other.name.as_str().as_bytes())
    }
}

/// Identifies a branch within a section. Branches are ordered by line,
/// then by block, then by number.
#[derive(Clone, Copy, Debug, PartialEq, Eq)]
pub struct BranchKey {
    pub line: u32,
    pub block: u32,
    pub branch: u32,
}

impl View for BranchKey {
    type V = BranchKey;

    open spec fn view(&self) -> BranchKey {
        *self
    }
}

impl DeepCopy for BranchKey {
    fn deep_copy(&self) -> (c: Self) {
        BranchKey { line: self.line, block: self.block, branch: self.branch }
    }
}

impl Key for BranchKey {
    open spec fn precedes(a: BranchKey, b: BranchKey) -> bool {
        a.line < b.line || (a.line == b.line && (a.block < b.block || (a.block == b.block
            && a.branch < b.branch)))
    }

    proof fn lemma_order(a: BranchKey, b: BranchKey, c: BranchKey) {
    }

    fn same(&self, other: &Self) -> (b: bool) {
        self.line == other.line && self.block == other.block && self.branch == other.branch
    }

    fn before(&self, other: &Self) -> (b: bool) {
        self.line < other.line || (self.line == other.line && (self.block < other.block || (
            self.block == other.block && self.branch < other.branch)))
    }
}

/// Identifies a line within a section: its number. Lines are ordered by
/// number.
#[derive(Clone, Copy, Debug, PartialEq, Eq)]
pub struct LineKey {
    pub line: u32,
}

impl View for LineKey {
    type V = LineKey;

    open spec fn view(&self) -> LineKey {
        *self
    }
}

impl DeepCopy for LineKey {
    fn deep_copy(&self) -> (c: Self) {
        LineKey { line: self.line }
    }
}

impl Key for LineKey {
    open spec fn precedes(a: LineKey, b: LineKey) -> bool {
        a.line < b.line
    }

    proof fn lemma_order(a: LineKey, b: LineKey, c: LineKey) {
    }

    fn same(&self, other: &Self) -> (b: bool) {
        self.line == other.line
    }

    fn before(&self, other: &Self) -> (b: bool) {
        self.line < other.line
    }
}

/// What a report knows of a function: where it starts, if known, and how
/// often it was called.
#[derive(Clone, Copy, Debug, PartialEq, Eq)]
pub struct FunctionValue {
    pub start_line: Option<u32>,
    pub count: u64,
}

impl View for FunctionValue {
    type V = FunctionValue;

    open spec fn view(&self) -> FunctionValue {
        *self
    }
}

impl DeepCopy for FunctionValue {
    fn deep_copy(&self) -> (c: Self) {
        FunctionValue { start_line: self.start_line, count: self.count }
    }
}

/// Both records know the function's start line, and they disagree on it.
pub open spec fn start_lines_differ(a: FunctionValue, b: FunctionValue) -> bool {
    a.start_line is Some && b.start_line is Some && a.start_line->0 != b.start_line->0
}

impl Diff for FunctionValue {
    open spec fn valid(v: FunctionValue) -> bool {
        true
    }

    open spec fn diff_error(a: FunctionValue, b: FunctionValue, ignore: IgnoreError) -> Option<DiffError> {
        if start_lines_differ(a, b) && !ignore.ignore_unmatched_line_error {
            Some(DiffError::UnmatchedFunctionLine)
        } else {
            None
        }
    }

    open spec fn failed_value(a: FunctionValue, b: FunctionValue, ignore: IgnoreError, now: FunctionValue) -> bool {
        now == a
    }

    open spec fn diff_value(a: FunctionValue, b: FunctionValue, ignore: IgnoreError) -> FunctionValue {
        FunctionValue {
            start_line: a.start_line,
            count: if start_lines_differ(a, b) || b.count > 0 {
                0
            } else {
                a.count
            },
        }
    }

    /// Clears the count where `other` was called, or where the two start
    /// lines differ and that is to be ignored; fails where they differ and
    /// it is not, and then leaves the record as it was.
    fn diff(&mut self, other: &Self, ignore: IgnoreError) -> (r: Result<(), DiffError>) {
        match (self.start_line, other.start_line) {
            (Some(mine), Some(theirs)) => {
                if mine != theirs {
                    if ignore.ignore_unmatched_line_error {
                        self.count = 0;
                    } else {
                        return Err(DiffError::UnmatchedFunctionLine);
                    }
                }
            },
            _ => {},
        }
        if other.count > 0 {
            self.count = 0;
        }
        Ok(())
    }
}

/// What a report knows of a branch: how often it was taken, or nothing
/// where the branch was never evaluated.
#[derive(Clone, Copy, Debug, PartialEq, Eq)]
pub struct BranchValue {
    pub taken: Option<u64>,
}

impl View for BranchValue {
    type V = BranchValue;

    open spec fn view(&self) -> BranchValue {
        *self
    }
}

impl DeepCopy for BranchValue {
    fn deep_copy(&self) -> (c: Self) {
        BranchValue { taken: self.taken }
    }
}

/// The branch was evaluated and taken at least once.
pub open spec fn branch_taken(b: BranchValue) -> bool {
    b.taken is Some && b.taken->0 > 0
}

impl Diff for BranchValue {
    open spec fn valid(v: BranchValue) -> bool {
        true
    }

    open spec fn diff_error(a: BranchValue, b: BranchValue, ignore: IgnoreError) -> Option<DiffError> {
        None
    }

    open spec fn failed_value(a: BranchValue, b: BranchValue, ignore: IgnoreError, now: BranchValue) -> bool {
        now == a
    }

    open spec fn diff_value(a: BranchValue, b: BranchValue, ignore: IgnoreError) -> BranchValue {
        if branch_taken(b) {
            BranchValue { taken: None }
        } else {
            a
        }
    }

    /// Forgets the count where `other` took the branch.
    fn diff(&mut self, other: &Self, ignore: IgnoreError) -> (r: Result<(), DiffError>) {
        match other.taken {
            Some(taken) => {
                if taken > 0 {
                    self.taken = None;
                }
            },
            None => {},
        }
        Ok(())
    }
}

/// What a report knows of a line: how often it ran, and a checksum of its
/// text where one was recorded.
#[derive(Debug, PartialEq, Eq)]
pub struct LineValue {
    pub count: u64,
    pub checksum: Option<String>,
}

/// The model of a [`LineValue`].
pub struct LineModel {
    pub count: u64,
    pub checksum: Option<Seq<char>>,
}

impl View for LineValue {
    type V = LineModel;

    open spec fn view(&self) -> LineModel {
        LineModel {
            count: self.count,
            checksum: match self.checksum {
                Some(s) => Some(s@),
                None => None,
            },
        }
    }
}

impl DeepCopy for LineValue {
    fn deep_copy(&self) -> (c: Self) {
        let checksum = match &self.checksum {
            Some(s) => Some(s.clone()),
            None => None,
        };
        LineValue { count: self.count, checksum }
    }
}

/// Both records hold a checksum, and the two differ.
pub open spec fn checksums_differ(a: LineModel, b: LineModel) -> bool {
    a.checksum is Some && b.checksum is Some && a.checksum->0 != b.checksum->0
}

impl Diff for LineValue {
    open spec fn valid(v: LineModel) -> bool {
        true
    }

    open spec fn diff_error(a: LineModel, b: LineModel, ignore: IgnoreError) -> Option<DiffError> {
        if checksums_differ(a, b) {
            Some(DiffError::UnmatchedChecksum)
        } else {
            None
        }
    }

    open spec fn failed_value(a: LineModel, b: LineModel, ignore: IgnoreError, now: LineModel) -> bool {
        now == a
    }

    open spec fn diff_value(a: LineModel, b: LineModel, ignore: IgnoreError) -> LineModel {
        LineModel {
            count: if b.count > 0 {
                0
            } else {
                a.count
            },
            checksum: a.checksum,
        }
    }

    /// Clears the count where `other` ran the line; fails where the two
    /// checksums differ, and then leaves the record as it was.
    fn diff(&mut self, other: &Self, ignore: IgnoreError) -> (r: Result<(), DiffError>) {
        match (&self.checksum, &other.checksum) {
            (Some(mine), Some(theirs)) => {
                if !(*mine == *theirs) {
                    return Err(DiffError::UnmatchedChecksum);
                }
            },
            _ => {},
        }
        if other.count > 0 {
            self.count = 0;
        }
        Ok(())
    }
}

} // verus!

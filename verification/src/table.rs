use vstd::prelude::*;
use crate::error::{outcome, DiffError};
use crate::options::IgnoreError;

verus! {

/// A value that can be copied in full, keeping its view.
pub trait DeepCopy: View + Sized {
    fn deep_copy(&self) -> (c: Self)
        ensures
            c@ == self@,
    ;
}

/// A key of a table: two keys are the same key when their views are equal,
/// and the keys are ordered by `precedes`.
pub trait Key: DeepCopy {
    /// `a` comes before `b` in the order of the keys.
    spec fn precedes(a: Self::V, b: Self::V) -> bool;

    /// `precedes` orders the keys strictly and totally.
    proof fn lemma_order(a: Self::V, b: Self::V, c: Self::V)
        ensures
            !Self::precedes(a, a),
            a != b ==> Self::precedes(a, b) || Self::precedes(b, a),
            Self::precedes(a, b) && Self::precedes(b, c) ==> Self::precedes(a, c),
    ;

    fn same(&self, other: &Self) -> (b: bool)
        ensures
            b == (self@ == other@),
    ;

    fn before(&self, other: &Self) -> (b: bool)
        ensures
            b == Self::precedes(self@, other@),
    ;
}

/// A value that can be diffed in place against another of its kind.
///
/// `diff_error` says on which pairs the diff fails and with what;
/// `diff_value` says what the left side becomes when it succeeds, and
/// `failed_value` what holds of it when the diff fails.
pub trait Diff: View + Sized {
    /// The invariant of the value's model.
    spec fn valid(v: Self::V) -> bool;

    spec fn diff_error(a: Self::V, b: Self::V, ignore: IgnoreError) -> Option<DiffError>;

    spec fn diff_value(a: Self::V, b: Self::V, ignore: IgnoreError) -> Self::V;

    spec fn failed_value(a: Self::V, b: Self::V, ignore: IgnoreError, now: Self::V) -> bool;

    fn diff(&mut self, other: &Self, ignore: IgnoreError) -> (r: Result<(), DiffError>)
        requires
            Self::valid(old(self)@),
            Self::valid(other@),
        ensures
            r == outcome(Self::diff_error(old(self)@, other@, ignore)),
            r is Ok ==> final(self)@ == Self::diff_value(old(self)@, other@, ignore),
            r is Ok ==> Self::valid(final(self)@),
            r is Err ==> Self::failed_value(old(self)@, other@, ignore, final(self)@),
    ;
}

/// Some entry of `s` has the key `k`.
pub open spec fn has_key<KV, VV>(s: Seq<(KV, VV)>, k: KV) -> bool {
    exists|j: int| 0 <= j < s.len() && (#[trigger] s[j]).0 == k
}

/// The position of an entry of `s` with the key `k`, where there is one.
pub open spec fn index_of<KV, VV>(s: Seq<(KV, VV)>, k: KV) -> int {
    choose|j: int| 0 <= j < s.len() && (#[trigger] s[j]).0 == k
}

/// The value that `s` holds under the key `k`, where it holds one.
pub open spec fn value_of<KV, VV>(s: Seq<(KV, VV)>, k: KV) -> VV {
    s[index_of(s, k)].1
}

/// No key occurs twice in `s`.
pub open spec fn distinct_keys<KV, VV>(s: Seq<(KV, VV)>) -> bool {
    forall|i: int, j: int|
        0 <= i < j < s.len() ==> (#[trigger] s[i]).0 != (#[trigger] s[j]).0
}

/// In a sequence of distinct keys, a key is found where it stands.
pub proof fn lemma_index_of<KV, VV>(s: Seq<(KV, VV)>, j: int)
    requires
        distinct_keys(s),
        0 <= j < s.len(),
    ensures
        has_key(s, s[j].0),
        index_of(s, s[j].0) == j,
{
    let k = s[j].0;
    let c = index_of(s, k);
    assert(0 <= c < s.len() && s[c].0 == k);
    if c < j {
        assert(s[c].0 != s[j].0);
    } else if j < c {
        assert(s[j].0 != s[c].0);
    }
}

/// The keys of `s` ascend in the order of the keys.
pub open spec fn ascending<K: Key, VV>(s: Seq<(K::V, VV)>) -> bool {
    forall|i: int, j: int|
        0 <= i < j < s.len() ==> K::precedes((#[trigger] s[i]).0, (#[trigger] s[j]).0)
}

/// Keys that ascend are distinct.
pub proof fn lemma_ascending_keys_are_distinct<K: Key, VV>(s: Seq<(K::V, VV)>)
    requires
        ascending::<K, VV>(s),
    ensures
        distinct_keys(s),
{
    assert forall|i: int, j: int| 0 <= i < j < s.len() implies (#[trigger] s[i]).0 != (#[trigger] s[j]).0 by {
        K::lemma_order(s[i].0, s[j].0, s[j].0);
    }
}

/// The model of a table is valid: its keys ascend, so that none occurs
/// twice, and its values are valid.
pub open spec fn table_valid<K: Key, V: Diff>(s: Seq<(K::V, V::V)>) -> bool {
    &&& ascending::<K, V::V>(s)
    &&& distinct_keys(s)
    &&& forall|i: int| 0 <= i < s.len() ==> V::valid((#[trigger] s[i]).1)
}

/// The error, if any, of diffing the entry of `a` that has the key of
/// `b[j]` against `b[j]`; none where `a` has no such entry.
pub open spec fn entry_error<KV, V: Diff>(
    a: Seq<(KV, V::V)>,
    b: Seq<(KV, V::V)>,
    j: int,
    ignore: IgnoreError,
) -> Option<DiffError> {
    if has_key(a, b[j].0) {
        V::diff_error(value_of(a, b[j].0), b[j].1, ignore)
    } else {
        None
    }
}

/// `b[j]` is the first entry of `b` whose diff fails.
pub open spec fn first_error_at<KV, V: Diff>(
    a: Seq<(KV, V::V)>,
    b: Seq<(KV, V::V)>,
    j: int,
    ignore: IgnoreError,
) -> bool {
    &&& 0 <= j < b.len()
    &&& entry_error::<KV, V>(a, b, j, ignore) is Some
    &&& forall|m: int| 0 <= m < j ==> (#[trigger] entry_error::<KV, V>(a, b, m, ignore)) is None
}

/// The error of diffing table `a` against table `b`: that of the first
/// entry of `b`, in `b`'s order, whose key `a` holds and whose diff fails.
pub open spec fn table_diff_error<KV, V: Diff>(
    a: Seq<(KV, V::V)>,
    b: Seq<(KV, V::V)>,
    ignore: IgnoreError,
) -> Option<DiffError> {
    if exists|j: int| first_error_at::<KV, V>(a, b, j, ignore) {
        entry_error::<KV, V>(a, b, choose|j: int| first_error_at::<KV, V>(a, b, j, ignore), ignore)
    } else {
        None
    }
}

/// What a successful diff makes of the entry `a[i]`: the key stays, and the
/// value is diffed against the value that `b` holds under the same key,
/// or stays as it is where `b` holds none.
pub open spec fn entry_diff_value<KV, V: Diff>(
    a: Seq<(KV, V::V)>,
    b: Seq<(KV, V::V)>,
    i: int,
    ignore: IgnoreError,
) -> (KV, V::V) {
    (
        a[i].0,
        if has_key(b, a[i].0) {
            V::diff_value(a[i].1, value_of(b, a[i].0), ignore)
        } else {
            a[i].1
        },
    )
}

/// What a successful diff of table `a` against table `b` makes of `a`.
pub open spec fn table_diff_value<KV, V: Diff>(
    a: Seq<(KV, V::V)>,
    b: Seq<(KV, V::V)>,
    ignore: IgnoreError,
) -> Seq<(KV, V::V)> {
    Seq::new(a.len(), |i: int| entry_diff_value::<KV, V>(a, b, i, ignore))
}

/// What a diff that failed at `b[c]` has left in the place of `a[i]`: the
/// key is the same; the value is diffed where `b` holds the key before
/// `b[c]`, is what the failed diff of the two values has left where `b[c]`
/// holds the key, and is as it was otherwise.
pub open spec fn entry_failed_value<KV, V: Diff>(
    a: Seq<(KV, V::V)>,
    b: Seq<(KV, V::V)>,
    ignore: IgnoreError,
    c: int,
    i: int,
    now: (KV, V::V),
) -> bool {
    &&& now.0 == a[i].0
    &&& if has_key(b, a[i].0) && index_of(b, a[i].0) < c {
        now == entry_diff_value::<KV, V>(a, b, i, ignore)
    } else if has_key(b, a[i].0) && index_of(b, a[i].0) == c {
        V::failed_value(a[i].1, b[c].1, ignore, now.1)
    } else {
        now.1 == a[i].1
    }
}

/// What a failed diff of table `a` against table `b` has left of `a`: the
/// entries that were diffed before the first failure are diffed, the one
/// that failed is as its own diff left it, and the others are as they
/// were.
pub open spec fn table_failed_value<KV, V: Diff>(
    a: Seq<(KV, V::V)>,
    b: Seq<(KV, V::V)>,
    ignore: IgnoreError,
    now: Seq<(KV, V::V)>,
) -> bool {
    &&& now.len() == a.len()
    &&& forall|i: int|
        0 <= i < a.len() ==> entry_failed_value::<KV, V>(
            a,
            b,
            ignore,
            choose|c: int| first_error_at::<KV, V>(a, b, c, ignore),
            i,
            #[trigger] now[i],
        )
}

/// A mapping from keys to values. Its entries stand in the order of their
/// keys, so that no key occurs twice: `new` and `insert` see to that, and
/// `is_ascending` tests it.
#[derive(Debug)]
pub struct Table<K, V> {
    entries: Vec<(K, V)>,
}

impl<K: View, V: View> View for Table<K, V> {
    type V = Seq<(K::V, V::V)>;

    closed spec fn view(&self) -> Seq<(K::V, V::V)> {
        Seq::new(self.entries@.len(), |i: int| (self.entries@[i].0@, self.entries@[i].1@))
    }
}

impl<K: Key, V: View> Table<K, V> {
    /// An empty table.
    pub fn new() -> (t: Self)
        ensures
            t@ == Seq::<(K::V, V::V)>::empty(),
    {
        let t = Table { entries: Vec::new() };
        assert(t@ =~= Seq::<(K::V, V::V)>::empty());
        t
    }

    /// The number of entries.
    pub fn len(&self) -> (n: usize)
        ensures
            n == self@.len(),
    {
        self.entries.len()
    }

    /// The first position of an entry with the key `key`.
    pub fn position(&self, key: &K) -> (r: Option<usize>)
        ensures
            match r {
                Some(i) => i < self@.len() && self@[i as int].0 == key@ && forall|m: int|
                    0 <= m < i ==> (#[trigger] self@[m]).0 != key@,
                None => !has_key(self@, key@),
            },
    {
        let mut i: usize = 0;
        while i < self.entries.len()
            invariant
                i <= self.entries@.len(),
                forall|m: int| 0 <= m < i ==> (#[trigger] self@[m]).0 != key@,
            decreases self.entries@.len() - i,
        {
            if self.entries[i].0.same(key) {
                return Some(i);
            }
            i += 1;
        }
        None
    }
}

impl<K: Key, V: View> Table<K, V> {
    /// The key of the entry at position `i`.
    pub fn key_at(&self, i: usize) -> (k: &K)
        requires
            i < self@.len(),
        ensures
            k@ == self@[i as int].0,
    {
        &self.entries[i].0
    }

    /// The value of the entry at position `i`.
    pub fn value_at(&self, i: usize) -> (v: &V)
        requires
            i < self@.len(),
        ensures
            v@ == self@[i as int].1,
    {
        &self.entries[i].1
    }

    /// The value under the key `key`, where the table holds one.
    pub fn get(&self, key: &K) -> (r: Option<&V>)
        ensures
            match r {
                Some(v) => has_key(self@, key@) && (exists|i: int|
                    0 <= i < self@.len() && (#[trigger] self@[i]) == (key@, v@)) && (distinct_keys(
                    self@,
                ) ==> v@ == value_of(self@, key@)),
                None => !has_key(self@, key@),
            },
    {
        match self.position(key) {
            Some(i) => {
                assert(self@[i as int] == (key@, self.entries@[i as int].1@));
                proof {
                    if distinct_keys(self@) {
                        lemma_index_of(self@, i as int);
                    }
                }
                Some(&self.entries[i].1)
            },
            None => None,
        }
    }

    /// Whether the keys ascend.
    pub fn is_ascending(&self) -> (b: bool)
        ensures
            b == ascending::<K, V::V>(self@),
            b ==> distinct_keys(self@),
    {
        if self.entries.len() == 0 {
            return true;
        }
        let mut j: usize = 1;
        while j < self.entries.len()
            invariant
                1 <= j <= self.entries@.len(),
                forall|m: int, n: int|
                    0 <= m < n < j ==> K::precedes((#[trigger] self@[m]).0, (#[trigger] self@[n]).0),
            decreases self.entries@.len() - j,
        {
            assert(self@[j as int].0 == self.entries@[j as int].0@);
            assert(self@[j - 1].0 == self.entries@[j - 1].0@);
            if !self.entries[j - 1].0.before(&self.entries[j].0) {
                return false;
            }
            proof {
                assert forall|m: int, n: int| 0 <= m < n < j + 1 implies K::precedes(
                    (#[trigger] self@[m]).0,
                    (#[trigger] self@[n]).0,
                ) by {
                    if n == j && m < j - 1 {
                        K::lemma_order(self@[m].0, self@[j - 1].0, self@[j as int].0);
                    }
                }
            }
            j += 1;
        }
        proof {
            lemma_ascending_keys_are_distinct::<K, V::V>(self@);
        }
        true
    }

    /// The first position whose key does not come before `key`.
    fn slot_of(&self, key: &K) -> (p: usize)
        ensures
            is_slot::<K, V::V>(self@, key@, p as int),
    {
        let mut i: usize = 0;
        while i < self.entries.len()
            invariant
                i <= self.entries@.len(),
                forall|m: int| 0 <= m < i ==> K::precedes((#[trigger] self@[m]).0, key@),
            decreases self.entries@.len() - i,
        {
            assert(self@[i as int].0 == self.entries@[i as int].0@);
            if !self.entries[i].0.before(key) {
                return i;
            }
            i += 1;
        }
        i
    }

    /// Puts `value` under `key`: in the place of the value that the table
    /// held under that key, or else before the first key that does not
    /// come before `key`.
    pub fn insert(&mut self, key: K, value: V)
        ensures
            final(self)@ == inserted::<K, V::V>(old(self)@, key@, value@),
            ascending::<K, V::V>(old(self)@) ==> ascending::<K, V::V>(final(self)@) && distinct_keys(
                final(self)@,
            ),
    {
        let ghost before = self@;
        match self.position(&key) {
            Some(i) => {
                self.entries[i] = (key, value);
                proof {
                    let f = first_index_of(before, key@);
                    assert(before[i as int].0 == key@);
                    assert(0 <= f < before.len() && before[f].0 == key@ && forall|m: int|
                        0 <= m < f ==> (#[trigger] before[m]).0 != key@);
                    assert(f == i);
                    assert(self@ =~= before.update(i as int, (key@, value@)));
                }
            },
            None => {
                let p = self.slot_of(&key);
                self.entries.insert(p, (key, value));
                proof {
                    lemma_slot::<K, V::V>(before, key@, p as int);
                    assert(self@ =~= before.insert(p as int, (key@, value@)));
                }
            },
        }
        proof {
            if ascending::<K, V::V>(before) {
                lemma_insert_keeps_order::<K, V::V>(before, key@, value@);
            }
        }
    }

    /// Takes the entry at position `i` out; the entries behind it move up.
    pub fn remove_at(&mut self, i: usize)
        requires
            i < old(self)@.len(),
        ensures
            final(self)@ == old(self)@.remove(i as int),
    {
        let ghost before = self@;
        let _ = self.entries.remove(i);
        assert(self@ =~= before.remove(i as int));
    }
}

/// `p` is the first position in `s` whose key does not come before `k`,
/// or the length of `s` where every key does.
pub open spec fn is_slot<K: Key, VV>(s: Seq<(K::V, VV)>, k: K::V, p: int) -> bool {
    &&& 0 <= p <= s.len()
    &&& forall|m: int| 0 <= m < p ==> K::precedes((#[trigger] s[m]).0, k)
    &&& p < s.len() ==> !K::precedes(s[p].0, k)
}

/// The place at which a new key `k` enters `s`.
pub open spec fn slot<K: Key, VV>(s: Seq<(K::V, VV)>, k: K::V) -> int {
    choose|p: int| is_slot::<K, VV>(s, k, p)
}

/// There is one place at which a key enters.
pub proof fn lemma_slot<K: Key, VV>(s: Seq<(K::V, VV)>, k: K::V, p: int)
    requires
        is_slot::<K, VV>(s, k, p),
    ensures
        slot::<K, VV>(s, k) == p,
{
    let c = slot::<K, VV>(s, k);
    assert(is_slot::<K, VV>(s, k, c));
    if c < p {
        assert(K::precedes(s[c].0, k));
    } else if p < c {
        assert(K::precedes(s[p].0, k));
    }
}

/// The first position in `s` of an entry with the key `k`.
pub open spec fn first_index_of<KV, VV>(s: Seq<(KV, VV)>, k: KV) -> int {
    choose|j: int|
        0 <= j < s.len() && (#[trigger] s[j]).0 == k && forall|m: int|
            0 <= m < j ==> (#[trigger] s[m]).0 != k
}

/// The table `s` after `v` was put under `k`: in the place of the first
/// entry with that key, or else at the place at which the key enters.
pub open spec fn inserted<K: Key, VV>(s: Seq<(K::V, VV)>, k: K::V, v: VV) -> Seq<(K::V, VV)> {
    if has_key(s, k) {
        s.update(first_index_of(s, k), (k, v))
    } else {
        s.insert(slot::<K, VV>(s, k), (k, v))
    }
}

/// Inserting into a table whose keys ascend leaves them ascending.
pub proof fn lemma_insert_keeps_order<K: Key, VV>(s: Seq<(K::V, VV)>, k: K::V, v: VV)
    requires
        ascending::<K, VV>(s),
    ensures
        ascending::<K, VV>(inserted::<K, VV>(s, k, v)),
        distinct_keys(inserted::<K, VV>(s, k, v)),
{
    let t = inserted::<K, VV>(s, k, v);
    lemma_ascending_keys_are_distinct::<K, VV>(s);
    if has_key(s, k) {
        let w = index_of(s, k);
        lemma_index_of(s, w);
        assert forall|m: int| 0 <= m < w implies (#[trigger] s[m]).0 != k by {
            assert(s[m].0 != s[w].0);
        }
        let f = first_index_of(s, k);
        assert(0 <= f < s.len() && s[f].0 == k);
        assert forall|i: int, j: int| 0 <= i < j < t.len() implies K::precedes(
            (#[trigger] t[i]).0,
            (#[trigger] t[j]).0,
        ) by {
            assert(K::precedes(s[i].0, s[j].0));
        }
    } else {
        let p = slot::<K, VV>(s, k);
        if s.len() == 0 {
            assert(is_slot::<K, VV>(s, k, 0));
        } else if K::precedes(s[s.len() - 1].0, k) {
            assert forall|m: int| 0 <= m < s.len() implies K::precedes((#[trigger] s[m]).0, k) by {
                if m < s.len() - 1 {
                    assert(K::precedes(s[m].0, s[s.len() - 1].0));
                    K::lemma_order(s[m].0, s[s.len() - 1].0, k);
                }
            }
            assert(is_slot::<K, VV>(s, k, s.len() as int));
        } else {
            lemma_some_slot::<K, VV>(s, k, s.len() - 1);
        }
        assert(is_slot::<K, VV>(s, k, p));
        assert forall|i: int, j: int| 0 <= i < j < t.len() implies K::precedes(
            (#[trigger] t[i]).0,
            (#[trigger] t[j]).0,
        ) by {
            if j < p {
                assert(K::precedes(s[i].0, s[j].0));
            } else if j == p {
                assert(K::precedes(s[i].0, k));
            } else if i < p {
                assert(K::precedes(s[i].0, s[j - 1].0));
            } else if i == p {
                assert(s[p].0 != k);
                K::lemma_order(k, s[p].0, s[j - 1].0);
                if j - 1 > p {
                    assert(K::precedes(s[p].0, s[j - 1].0));
                }
            } else {
                assert(K::precedes(s[i - 1].0, s[j - 1].0));
            }
        }
    }
    lemma_ascending_keys_are_distinct::<K, VV>(t);
}

/// Where some key at or before position `n` does not come before `k`,
/// there is a first such position.
proof fn lemma_some_slot<K: Key, VV>(s: Seq<(K::V, VV)>, k: K::V, n: int)
    requires
        0 <= n < s.len(),
        !K::precedes(s[n].0, k),
    ensures
        exists|p: int| is_slot::<K, VV>(s, k, p),
    decreases n,
{
    if forall|m: int| 0 <= m < n ==> K::precedes((#[trigger] s[m]).0, k) {
        assert(is_slot::<K, VV>(s, k, n));
    } else {
        let m = choose|m: int| 0 <= m < n && !K::precedes((#[trigger] s[m]).0, k);
        lemma_some_slot::<K, VV>(s, k, m);
    }
}

/// Taking an entry out of a table whose keys ascend leaves them ascending.
pub proof fn lemma_remove_keeps_ascending<K: Key, VV>(s: Seq<(K::V, VV)>, i: int)
    requires
        ascending::<K, VV>(s),
        0 <= i < s.len(),
    ensures
        ascending::<K, VV>(s.remove(i)),
{
    let t = s.remove(i);
    assert forall|m: int, n: int| 0 <= m < n < t.len() implies K::precedes(
        (#[trigger] t[m]).0,
        (#[trigger] t[n]).0,
    ) by {
        let m0 = if m < i { m } else { m + 1 };
        let n0 = if n < i { n } else { n + 1 };
        assert(K::precedes(s[m0].0, s[n0].0));
    }
}

/// Taking an entry out of a table of distinct keys leaves its keys distinct.
pub proof fn lemma_remove_keeps_keys_distinct<KV, VV>(s: Seq<(KV, VV)>, i: int)
    requires
        distinct_keys(s),
        0 <= i < s.len(),
    ensures
        distinct_keys(s.remove(i)),
{
    let t = s.remove(i);
    assert forall|m: int, n: int| 0 <= m < n < t.len() implies (#[trigger] t[m]).0 != (#[trigger] t[n]).0 by {
        let m0 = if m < i { m } else { m + 1 };
        let n0 = if n < i { n } else { n + 1 };
        assert(s[m0].0 != s[n0].0);
    }
}

impl<K: Key, V: DeepCopy> DeepCopy for Table<K, V> {
    fn deep_copy(&self) -> (c: Self) {
        let mut entries: Vec<(K, V)> = Vec::new();
        let mut i: usize = 0;
        while i < self.entries.len()
            invariant
                i <= self.entries@.len(),
                entries@.len() == i,
                forall|m: int| 0 <= m < i ==> (#[trigger] entries@[m]).0@ == self.entries@[m].0@
                    && entries@[m].1@ == self.entries@[m].1@,
            decreases self.entries@.len() - i,
        {
            let k = self.entries[i].0.deep_copy();
            let v = self.entries[i].1.deep_copy();
            entries.push((k, v));
            i += 1;
        }
        let c = Table { entries };
        assert(c@ =~= self@);
        c
    }
}

impl<K: Key, V: Diff> Diff for Table<K, V> {
    open spec fn valid(v: Seq<(K::V, V::V)>) -> bool {
        table_valid::<K, V>(v)
    }

    open spec fn diff_error(a: Seq<(K::V, V::V)>, b: Seq<(K::V, V::V)>, ignore: IgnoreError) -> Option<DiffError> {
        table_diff_error::<K::V, V>(a, b, ignore)
    }

    open spec fn diff_value(a: Seq<(K::V, V::V)>, b: Seq<(K::V, V::V)>, ignore: IgnoreError) -> Seq<(K::V, V::V)> {
        table_diff_value::<K::V, V>(a, b, ignore)
    }

    open spec fn failed_value(
        a: Seq<(K::V, V::V)>,
        b: Seq<(K::V, V::V)>,
        ignore: IgnoreError,
        now: Seq<(K::V, V::V)>,
    ) -> bool {
        table_failed_value::<K::V, V>(a, b, ignore, now)
    }

    /// Diffs, for every entry of `other` whose key `self` holds, the value
    /// under that key against the entry's value. Keys that only `other`
    /// holds are passed over.
    fn diff(&mut self, other: &Self, ignore: IgnoreError) -> (r: Result<(), DiffError>) {
        let ghost a = self@;
        let ghost b = other@;
        assert(Self::valid(a) && Self::valid(b));
        assert(Self::diff_error(a, b, ignore) == table_diff_error::<K::V, V>(a, b, ignore));
        assert(Self::diff_value(a, b, ignore) == table_diff_value::<K::V, V>(a, b, ignore));
        let mut j: usize = 0;
        while j < other.entries.len()
            invariant
                j <= other.entries@.len(),
                a == old(self)@,
                b == other@,
                Self::diff_error(a, b, ignore) == table_diff_error::<K::V, V>(a, b, ignore),
                Self::diff_value(a, b, ignore) == table_diff_value::<K::V, V>(a, b, ignore),
                table_valid::<K, V>(a),
                table_valid::<K, V>(b),
                Self::failed_value(a, b, ignore, self@) == table_failed_value::<K::V, V>(
                    a,
                    b,
                    ignore,
                    self@,
                ),
                self@.len() == a.len(),
                forall|m: int| 0 <= m < j ==> (#[trigger] entry_error::<K::V, V>(a, b, m, ignore)) is None,
                forall|i: int| 0 <= i < a.len() ==> (#[trigger] self@[i]) == (
                    if has_key(b, a[i].0) && index_of(b, a[i].0) < j {
                        entry_diff_value::<K::V, V>(a, b, i, ignore)
                    } else {
                        a[i]
                    }),
                forall|i: int| 0 <= i < a.len() ==> V::valid((#[trigger] self@[i]).1),
            decreases other.entries@.len() - j,
        {
            let ghost before = self@;
            proof {
                lemma_index_of(b, j as int);
            }
            match self.position(&other.entries[j].0) {
                Some(i) => {
                    proof {
                        lemma_index_of(a, i as int);
                        assert(b[j as int].0 == other.entries@[j as int].0@);
                        assert(before[i as int] == a[i as int]);
                        assert(a[i as int].0 == b[j as int].0);
                        assert(value_of(a, b[j as int].0) == a[i as int].1);
                    }
                    match self.entries[i].1.diff(&other.entries[j].1, ignore) {
                        Err(e) => {
                            proof {
                                assert(entry_error::<K::V, V>(a, b, j as int, ignore) == Some(e));
                                assert(first_error_at::<K::V, V>(a, b, j as int, ignore));
                                let c = choose|c: int| first_error_at::<K::V, V>(a, b, c, ignore);
                                assert(c == j);
                                assert(table_diff_error::<K::V, V>(a, b, ignore) == Some(e));
                                assert forall|m: int| 0 <= m < a.len() implies entry_failed_value::<K::V, V>(
                                    a,
                                    b,
                                    ignore,
                                    c,
                                    m,
                                    #[trigger] self@[m],
                                ) by {
                                    if m != i {
                                        assert(self@[m] == before[m]);
                                        if m < i {
                                            assert(a[m].0 != a[i as int].0);
                                        } else {
                                            assert(a[i as int].0 != a[m].0);
                                        }
                                    }
                                }
                                assert(table_failed_value::<K::V, V>(a, b, ignore, self@));
                            }
                            return Err(e);
                        },
                        Ok(()) => {},
                    }
                    proof {
                        assert(entry_error::<K::V, V>(a, b, j as int, ignore) is None);
                        assert forall|m: int| 0 <= m < a.len() implies V::valid((#[trigger] self@[m]).1) by {
                            if m != i {
                                assert(self@[m] == before[m]);
                            }
                        }
                        assert forall|m: int| 0 <= m < a.len() implies (#[trigger] self@[m]) == (
                            if has_key(b, a[m].0) && index_of(b, a[m].0) < j + 1 {
                                entry_diff_value::<K::V, V>(a, b, m, ignore)
                            } else {
                                a[m]
                            }) by {
                            if m != i {
                                assert(self@[m] == before[m]);
                                if m < i {
                                    assert(a[m].0 != a[i as int].0);
                                } else {
                                    assert(a[i as int].0 != a[m].0);
                                }
                            }
                        }
                    }
                },
                None => {
                    proof {
                        assert(b[j as int].0 == other.entries@[j as int].0@);
                        if has_key(a, b[j as int].0) {
                            let w = index_of(a, b[j as int].0);
                            assert(before[w].0 == a[w].0);
                            assert(has_key(before, b[j as int].0));
                        }
                        assert(entry_error::<K::V, V>(a, b, j as int, ignore) is None);
                        assert forall|m: int| 0 <= m < a.len() implies (#[trigger] self@[m]) == (
                            if has_key(b, a[m].0) && index_of(b, a[m].0) < j + 1 {
                                entry_diff_value::<K::V, V>(a, b, m, ignore)
                            } else {
                                a[m]
                            }) by {
                            assert(before[m].0 == a[m].0);
                        }
                    }
                },
            }
            j += 1;
        }
        proof {
            assert(self@ =~= table_diff_value::<K::V, V>(a, b, ignore));
            assert(distinct_keys(self@));
            assert forall|m: int, n: int| 0 <= m < n < self@.len() implies K::precedes(
                (#[trigger] self@[m]).0,
                (#[trigger] self@[n]).0,
            ) by {
                assert(K::precedes(a[m].0, a[n].0));
            }
            assert(Self::valid(self@));
            assert(table_diff_error::<K::V, V>(a, b, ignore) is None);
        }
        Ok(())
    }
}

/// A diff neither adds, removes nor moves a key: the diffed table holds the
/// keys of the table that was diffed, each in its place.
pub proof fn law_diff_keeps_keys<KV, V: Diff>(
    a: Seq<(KV, V::V)>,
    b: Seq<(KV, V::V)>,
    ignore: IgnoreError,
)
    ensures
        table_diff_value::<KV, V>(a, b, ignore).len() == a.len(),
        forall|i: int|
            0 <= i < a.len() ==> (#[trigger] table_diff_value::<KV, V>(a, b, ignore)[i]).0 == a[i].0,
        forall|k: KV| has_key(table_diff_value::<KV, V>(a, b, ignore), k) <==> has_key(a, k),
        distinct_keys(a) ==> distinct_keys(table_diff_value::<KV, V>(a, b, ignore)),
{
    let d = table_diff_value::<KV, V>(a, b, ignore);
    assert forall|k: KV| has_key(d, k) <==> has_key(a, k) by {
        if has_key(d, k) {
            let i = index_of(d, k);
            assert(a[i].0 == k);
        }
        if has_key(a, k) {
            let i = index_of(a, k);
            assert(d[i].0 == k);
        }
    }
    if distinct_keys(a) {
        assert forall|i: int, j: int| 0 <= i < j < d.len() implies (#[trigger] d[i]).0 != (#[trigger] d[j]).0 by {
            assert(a[i].0 != a[j].0);
        }
    }
}

/// Under a key that both tables hold, the diffed table holds the diff of
/// the two values; under a key that only the first holds, the first's
/// value as it was.
pub proof fn law_diff_by_key<KV, V: Diff>(
    a: Seq<(KV, V::V)>,
    b: Seq<(KV, V::V)>,
    ignore: IgnoreError,
    k: KV,
)
    requires
        distinct_keys(a),
        has_key(a, k),
    ensures
        has_key(table_diff_value::<KV, V>(a, b, ignore), k),
        value_of(table_diff_value::<KV, V>(a, b, ignore), k) == (if has_key(b, k) {
            V::diff_value(value_of(a, k), value_of(b, k), ignore)
        } else {
            value_of(a, k)
        }),
{
    let d = table_diff_value::<KV, V>(a, b, ignore);
    let i = index_of(a, k);
    law_diff_keeps_keys::<KV, V>(a, b, ignore);
    assert(d[i] == entry_diff_value::<KV, V>(a, b, i, ignore));
    lemma_index_of(d, i);
}

/// Where the diff of some entry fails, there is a first entry whose diff
/// fails.
proof fn lemma_first_error_exists<KV, V: Diff>(
    a: Seq<(KV, V::V)>,
    b: Seq<(KV, V::V)>,
    ignore: IgnoreError,
    j: int,
)
    requires
        0 <= j < b.len(),
        entry_error::<KV, V>(a, b, j, ignore) is Some,
    ensures
        exists|c: int| first_error_at::<KV, V>(a, b, c, ignore),
    decreases j,
{
    if forall|m: int| 0 <= m < j ==> (#[trigger] entry_error::<KV, V>(a, b, m, ignore)) is None {
        assert(first_error_at::<KV, V>(a, b, j, ignore));
    } else {
        let m = choose|m: int| 0 <= m < j && !((#[trigger] entry_error::<KV, V>(a, b, m, ignore)) is None);
        lemma_first_error_exists::<KV, V>(a, b, ignore, m);
    }
}

/// The diff of two tables fails exactly when, under some key that both
/// hold, the diff of the two values fails; and its error is then the error
/// of such a pair.
pub proof fn law_diff_fails_on_failing_pair<KV, V: Diff>(
    a: Seq<(KV, V::V)>,
    b: Seq<(KV, V::V)>,
    ignore: IgnoreError,
)
    requires
        distinct_keys(b),
    ensures
        table_diff_error::<KV, V>(a, b, ignore) is Some <==> exists|k: KV|
            has_key(a, k) && has_key(b, k) && (#[trigger] V::diff_error(
                value_of(a, k),
                value_of(b, k),
                ignore,
            )) is Some,
        table_diff_error::<KV, V>(a, b, ignore) is Some ==> exists|k: KV|
            has_key(a, k) && has_key(b, k) && (#[trigger] V::diff_error(
                value_of(a, k),
                value_of(b, k),
                ignore,
            )) == table_diff_error::<KV, V>(a, b, ignore),
{
    if table_diff_error::<KV, V>(a, b, ignore) is Some {
        let c = choose|c: int| first_error_at::<KV, V>(a, b, c, ignore);
        lemma_index_of(b, c);
        let k = b[c].0;
        assert(has_key(a, k) && has_key(b, k) && V::diff_error(value_of(a, k), value_of(b, k), ignore)
            == table_diff_error::<KV, V>(a, b, ignore));
    }
    if exists|k: KV|
        has_key(a, k) && has_key(b, k) && (#[trigger] V::diff_error(
            value_of(a, k),
            value_of(b, k),
            ignore,
        )) is Some {
        let k = choose|k: KV|
            has_key(a, k) && has_key(b, k) && (#[trigger] V::diff_error(
                value_of(a, k),
                value_of(b, k),
                ignore,
            )) is Some;
        let j = index_of(b, k);
        assert(entry_error::<KV, V>(a, b, j, ignore) is Some);
        lemma_first_error_exists::<KV, V>(a, b, ignore, j);
    }
}

/// Of the first `k` entries of `s`, those that pass `p`: each of them passes
/// `p` and is one of those `k` entries, and their keys are distinct where
/// those of `s` are.
pub proof fn lemma_filtered_prefix<KV, VV>(s: Seq<(KV, VV)>, p: spec_fn((KV, VV)) -> bool, k: int)
    requires
        0 <= k <= s.len(),
    ensures
        forall|m: int|
            0 <= m < s.take(k).filter(p).len() ==> p(#[trigger] s.take(k).filter(p)[m]) && exists|n: int|
                0 <= n < k && #[trigger] s[n] == s.take(k).filter(p)[m],
        forall|n: int| 0 <= n < k && p(#[trigger] s[n]) ==> has_key(s.take(k).filter(p), s[n].0),
        distinct_keys(s) ==> distinct_keys(s.take(k).filter(p)),
    decreases k,
{
    reveal(Seq::filter);
    if k == 0 {
        assert(s.take(0).filter(p).len() == 0);
    } else {
        lemma_filtered_prefix(s, p, k - 1);
        assert(s.take(k).drop_last() =~= s.take(k - 1));
        let g = s.take(k - 1).filter(p);
        let f = s.take(k).filter(p);
        assert(s.take(k).last() == s[k - 1]);
        if p(s[k - 1]) {
            assert(f == g.push(s[k - 1]));
            assert forall|m: int| 0 <= m < f.len() implies p(#[trigger] f[m]) && exists|n: int|
                0 <= n < k && #[trigger] s[n] == f[m] by {
                if m < g.len() {
                    assert(f[m] == g[m]);
                    let n = choose|n: int| 0 <= n < k - 1 && #[trigger] s[n] == g[m];
                    assert(s[n] == f[m]);
                } else {
                    assert(s[k - 1] == f[m]);
                }
            }
            assert forall|n: int| 0 <= n < k && p(#[trigger] s[n]) implies has_key(f, s[n].0) by {
                if n < k - 1 {
                    let m = index_of(g, s[n].0);
                    assert(f[m] == g[m]);
                } else {
                    assert(f[g.len() as int].0 == s[n].0);
                }
            }
            if distinct_keys(s) {
                assert forall|i: int, j: int| 0 <= i < j < f.len() implies (#[trigger] f[i]).0 != (#[trigger] f[j]).0 by {
                    assert(f[i] == g[i]);
                    if j < g.len() {
                        assert(f[j] == g[j]);
                        assert(g[i].0 != g[j].0);
                    } else {
                        let n = choose|n: int| 0 <= n < k - 1 && #[trigger] s[n] == g[i];
                        assert(s[n].0 != s[k - 1].0);
                    }
                }
            }
        } else {
            assert(f == g);
        }
    }
}

/// Where the keys of `b` ascend, the error of a diff against `b` is that of
/// the smallest key that both tables hold and whose diff fails.
pub proof fn law_diff_error_is_of_smallest_failing_key<K: Key, V: Diff>(
    a: Seq<(K::V, V::V)>,
    b: Seq<(K::V, V::V)>,
    ignore: IgnoreError,
)
    requires
        ascending::<K, V::V>(b),
        table_diff_error::<K::V, V>(a, b, ignore) is Some,
    ensures
        exists|k: K::V|
            {
                &&& has_key(a, k)
                &&& has_key(b, k)
                &&& (#[trigger] V::diff_error(value_of(a, k), value_of(b, k), ignore))
                    == table_diff_error::<K::V, V>(a, b, ignore)
                &&& forall|n: K::V|
                    has_key(a, n) && has_key(b, n) && (#[trigger] V::diff_error(
                        value_of(a, n),
                        value_of(b, n),
                        ignore,
                    )) is Some ==> !K::precedes(n, k)
            },
{
    lemma_ascending_keys_are_distinct::<K, V::V>(b);
    let c = choose|c: int| first_error_at::<K::V, V>(a, b, c, ignore);
    lemma_index_of(b, c);
    let k = b[c].0;
    assert forall|n: K::V|
        has_key(a, n) && has_key(b, n) && (#[trigger] V::diff_error(
            value_of(a, n),
            value_of(b, n),
            ignore,
        )) is Some implies !K::precedes(n, k) by {
        let j = index_of(b, n);
        assert(entry_error::<K::V, V>(a, b, j, ignore) is Some);
        K::lemma_order(n, k, n);
        if c < j {
            assert(K::precedes(b[c].0, b[j].0));
        }
    }
    assert(has_key(a, k) && has_key(b, k) && V::diff_error(value_of(a, k), value_of(b, k), ignore)
        == table_diff_error::<K::V, V>(a, b, ignore));
}

/// Whether it fails or not, a diff keeps every key in its place and leaves
/// the value under a key that the other table lacks as it was.
pub proof fn law_diff_touches_shared_keys_only<KV, V: Diff>(
    a: Seq<(KV, V::V)>,
    b: Seq<(KV, V::V)>,
    ignore: IgnoreError,
    now: Seq<(KV, V::V)>,
)
    requires
        now == table_diff_value::<KV, V>(a, b, ignore) || table_failed_value::<KV, V>(
            a,
            b,
            ignore,
            now,
        ),
    ensures
        now.len() == a.len(),
        forall|i: int| 0 <= i < a.len() ==> (#[trigger] now[i]).0 == a[i].0,
        forall|i: int| 0 <= i < a.len() && !has_key(b, a[i].0) ==> #[trigger] now[i] == a[i],
{
    let c = choose|c: int| first_error_at::<KV, V>(a, b, c, ignore);
    assert forall|i: int| 0 <= i < a.len() implies (#[trigger] now[i]).0 == a[i].0 && (!has_key(
        b,
        a[i].0,
    ) ==> now[i] == a[i]) by {
        if now == table_diff_value::<KV, V>(a, b, ignore) {
            assert(now[i] == entry_diff_value::<KV, V>(a, b, i, ignore));
        } else {
            assert(entry_failed_value::<KV, V>(a, b, ignore, c, i, now[i]));
        }
    }
}

} // verus!

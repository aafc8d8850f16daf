//! The ordered key-value store underneath `Frames`: keys are strings kept in
//! `str` order, values are byte strings, and transactions nest by level.
//!
//! Levels follow the engine's rules: `begin(l)` makes sure that at least `l`
//! transactions are open; `commit(l)` makes sure that at most `l` are open,
//! keeping every change; `rollback(l)` restores the state in which the
//! `max(l, 1)`-th transaction was opened and leaves at most `l` open.

use vstd::prelude::*;
use crate::order::{key_le, key_lt, lemma_lt_irreflexive, lemma_lt_total, lemma_lt_transitive, str_lt};

verus! {

/// A key together with its value, as the contracts see it.
pub type Pair = (Seq<char>, Seq<u8>);

/// The pairs of a store, as the contracts see them.
pub type Pairs = Seq<Pair>;

/// What a `Vec` of stored pairs holds.
pub open spec fn pairs_of(v: Seq<(String, Vec<u8>)>) -> Pairs {
    v.map_values(|p: (String, Vec<u8>)| (p.0@, p.1@))
}

/// Keys strictly increase along the sequence.
pub open spec fn sorted(s: Pairs) -> bool {
    forall|i: int, j: int| 0 <= i < j < s.len() ==> key_lt(#[trigger] s[i].0, #[trigger] s[j].0)
}

/// `i` is the number of pairs whose key sorts before `k`.
pub open spec fn is_lower_bound(s: Pairs, k: Seq<char>, i: int) -> bool {
    &&& 0 <= i <= s.len()
    &&& forall|j: int| 0 <= j < i ==> key_lt(#[trigger] s[j].0, k)
    &&& i < s.len() ==> !key_lt(s[i].0, k)
}

/// The position at which `k` stands or would be inserted.
pub open spec fn lower_bound(s: Pairs, k: Seq<char>) -> int {
    choose|i: int| is_lower_bound(s, k, i)
}

/// `s` with key `k` set to `v`.
pub open spec fn set_key(s: Pairs, k: Seq<char>, v: Seq<u8>) -> Pairs {
    let i = lower_bound(s, k);
    if i < s.len() && s[i].0 == k {
        s.update(i, (k, v))
    } else {
        s.insert(i, (k, v))
    }
}

/// The pairs of `s` whose keys lie in `[lo, hi)`.
pub open spec fn range_of(s: Pairs, lo: Seq<char>, hi: Seq<char>) -> Pairs {
    let a = lower_bound(s, lo);
    let b = lower_bound(s, hi);
    if a <= b {
        s.subrange(a, b)
    } else {
        Seq::empty()
    }
}

/// `s` without the pairs whose keys lie in `[lo, hi)`.
pub open spec fn cut_range(s: Pairs, lo: Seq<char>, hi: Seq<char>) -> Pairs {
    let a = lower_bound(s, lo);
    let b = lower_bound(s, hi);
    if a <= b {
        s.subrange(0, a) + s.subrange(b, s.len() as int)
    } else {
        s
    }
}

/// `s` without the pairs in `[lo, hi)`, then with `lo` set to `v` if one is given.
pub open spec fn replace_range(s: Pairs, lo: Seq<char>, hi: Seq<char>, v: Option<Seq<u8>>) -> Pairs {
    match v {
        Some(v) => set_key(cut_range(s, lo, hi), lo, v),
        None => cut_range(s, lo, hi),
    }
}

/// The abstract state of a store.
pub struct StoreView {
    /// The current pairs, in key order.
    pub pairs: Pairs,
    /// `saved[i]` holds the pairs as they were when transaction `i + 1` was opened.
    pub saved: Seq<Pairs>,
}

impl StoreView {
    pub open spec fn wf(self) -> bool {
        &&& sorted(self.pairs)
        &&& forall|i: int| 0 <= i < self.saved.len() ==> sorted(#[trigger] self.saved[i])
    }

    /// The number of open transactions.
    pub open spec fn open_levels(self) -> nat {
        self.saved.len()
    }

    /// Make sure that at least `level` transactions are open.
    pub open spec fn begin(self, level: nat) -> StoreView {
        if level <= self.saved.len() {
            self
        } else {
            StoreView {
                pairs: self.pairs,
                saved: self.saved + Seq::new((level - self.saved.len()) as nat, |i: int| self.pairs),
            }
        }
    }

    /// Make sure that at most `level` transactions are open, keeping every change.
    pub open spec fn commit(self, level: nat) -> StoreView {
        if level < self.saved.len() {
            StoreView { pairs: self.pairs, saved: self.saved.take(level as int) }
        } else {
            self
        }
    }

    /// Undo the changes since transaction `max(level, 1)` was opened and leave at
    /// most `level` open; nothing happens if that transaction is not open.
    pub open spec fn rollback(self, level: nat) -> StoreView {
        let back = if level == 0 { 0int } else { level - 1 };
        if back < self.saved.len() {
            StoreView { pairs: self.saved[back], saved: self.saved.take(level as int) }
        } else {
            self
        }
    }

    /// Undo every transaction nested deeper than `level` and close them:
    /// the state in which transaction `level + 1` was opened, with `level`
    /// transactions open; nothing happens if no deeper transaction is open.
    pub open spec fn close_above(self, level: nat) -> StoreView {
        if level < self.saved.len() {
            StoreView { pairs: self.saved[level as int], saved: self.saved.take(level as int) }
        } else {
            self
        }
    }

    /// The same open transactions, with other pairs.
    pub open spec fn with_pairs(self, pairs: Pairs) -> StoreView {
        StoreView { pairs, saved: self.saved }
    }
}

pub proof fn lemma_lower_bound_unique(s: Pairs, k: Seq<char>, i: int)
    requires
        is_lower_bound(s, k, i),
    ensures
        lower_bound(s, k) == i,
{
    let c = lower_bound(s, k);
    assert(is_lower_bound(s, k, c));
    if c < i {
        assert(key_lt(s[c].0, k));
    } else if i < c {
        assert(key_lt(s[i].0, k));
    }
}

proof fn lemma_lower_bound_from(s: Pairs, k: Seq<char>, i: int)
    requires
        0 <= i <= s.len(),
        forall|j: int| 0 <= j < i ==> key_lt(#[trigger] s[j].0, k),
    ensures
        is_lower_bound(s, k, lower_bound(s, k)),
    decreases s.len() - i,
{
    if i == s.len() || !key_lt(s[i].0, k) {
        assert(is_lower_bound(s, k, i));
    } else {
        lemma_lower_bound_from(s, k, i + 1);
    }
}

pub proof fn lemma_lower_bound(s: Pairs, k: Seq<char>)
    ensures
        is_lower_bound(s, k, lower_bound(s, k)),
{
    lemma_lower_bound_from(s, k, 0);
}

/// In a sorted sequence, the pairs from the lower bound of `k` on have keys at
/// or after `k`.
pub proof fn lemma_lower_bound_after(s: Pairs, k: Seq<char>, j: int)
    requires
        sorted(s),
        lower_bound(s, k) <= j < s.len(),
    ensures
        !key_lt(s[j].0, k),
{
    lemma_lower_bound(s, k);
    let i = lower_bound(s, k);
    if key_lt(s[j].0, k) && i < j {
        assert(key_lt(s[i].0, s[j].0));
        lemma_lt_transitive(s[i].0, s[j].0, k);
    }
}

/// The pairs of `range_of(s, lo, hi)` have keys in `[lo, hi)`.
pub proof fn lemma_range_of_member(s: Pairs, lo: Seq<char>, hi: Seq<char>, j: int)
    requires
        sorted(s),
        0 <= j < range_of(s, lo, hi).len(),
    ensures
        !key_lt(range_of(s, lo, hi)[j].0, lo),
        key_lt(range_of(s, lo, hi)[j].0, hi),
{
    lemma_lower_bound(s, lo);
    lemma_lower_bound(s, hi);
    let a = lower_bound(s, lo);
    assert(range_of(s, lo, hi)[j] == s[a + j]);
    lemma_lower_bound_after(s, lo, a + j);
}

/// The lower bound moves forward with the key.
pub proof fn lemma_lower_bound_monotonic(s: Pairs, k1: Seq<char>, k2: Seq<char>)
    requires
        sorted(s),
        key_le(k1, k2),
    ensures
        lower_bound(s, k1) <= lower_bound(s, k2),
{
    lemma_lower_bound(s, k1);
    lemma_lower_bound(s, k2);
    let a = lower_bound(s, k1);
    let b = lower_bound(s, k2);
    if b < a {
        assert(key_lt(s[b].0, k1));
        if k1 != k2 {
            lemma_lt_transitive(s[b].0, k1, k2);
        }
    }
}

pub proof fn lemma_set_key_sorted(s: Pairs, k: Seq<char>, v: Seq<u8>)
    requires
        sorted(s),
    ensures
        sorted(set_key(s, k, v)),
{
    lemma_lower_bound(s, k);
    let i = lower_bound(s, k);
    let r = set_key(s, k, v);
    if i < s.len() && s[i].0 == k {
        assert forall|a: int, b: int| 0 <= a < b < r.len() implies key_lt(#[trigger] r[a].0, #[trigger] r[b].0) by {
            assert(r[a].0 == s[a].0 && r[b].0 == s[b].0);
        }
    } else {
        assert forall|a: int, b: int| 0 <= a < b < r.len() implies key_lt(#[trigger] r[a].0, #[trigger] r[b].0) by {
            if i < s.len() {
                lemma_lt_total(s[i].0, k);
                assert(key_lt(k, s[i].0));
            }
            if a < i && b < i {
                assert(r[a] == s[a] && r[b] == s[b]);
            } else if a < i && b == i {
                assert(r[a] == s[a]);
            } else if a < i {
                assert(r[a] == s[a] && r[b] == s[b - 1]);
                assert(key_lt(s[a].0, k));
                if b - 1 > i {
                    assert(key_lt(s[i].0, s[b - 1].0));
                    lemma_lt_transitive(k, s[i].0, s[b - 1].0);
                }
                lemma_lt_transitive(s[a].0, k, s[b - 1].0);
            } else if a == i {
                assert(r[b] == s[b - 1]);
                if b - 1 > i {
                    assert(key_lt(s[i].0, s[b - 1].0));
                    lemma_lt_transitive(k, s[i].0, s[b - 1].0);
                }
            } else {
                assert(r[a] == s[a - 1] && r[b] == s[b - 1]);
            }
        }
    }
}

pub proof fn lemma_cut_range_sorted(s: Pairs, lo: Seq<char>, hi: Seq<char>)
    requires
        sorted(s),
    ensures
        sorted(cut_range(s, lo, hi)),
        sorted(range_of(s, lo, hi)),
{
    lemma_lower_bound(s, lo);
    lemma_lower_bound(s, hi);
    let a = lower_bound(s, lo);
    let b = lower_bound(s, hi);
    if a <= b {
        let r = cut_range(s, lo, hi);
        assert forall|x: int, y: int| 0 <= x < y < r.len() implies key_lt(#[trigger] r[x].0, #[trigger] r[y].0) by {
            let sx = if x < a { x } else { x - a + b };
            let sy = if y < a { y } else { y - a + b };
            assert(r[x] == s[sx] && r[y] == s[sy]);
        }
        let m = range_of(s, lo, hi);
        assert forall|x: int, y: int| 0 <= x < y < m.len() implies key_lt(#[trigger] m[x].0, #[trigger] m[y].0) by {
            assert(m[x] == s[x + a] && m[y] == s[y + a]);
        }
    }
}

/// The ordered store.
pub struct Store {
    entries: Vec<(String, Vec<u8>)>,
    saved: Vec<Vec<(String, Vec<u8>)>>,
}

impl View for Store {
    type V = StoreView;

    closed spec fn view(&self) -> StoreView {
        StoreView {
            pairs: pairs_of(self.entries@),
            saved: self.saved@.map_values(|v: Vec<(String, Vec<u8>)>| pairs_of(v@)),
        }
    }
}

fn copy_entries(v: &Vec<(String, Vec<u8>)>) -> (r: Vec<(String, Vec<u8>)>)
    ensures
        pairs_of(r@) == pairs_of(v@),
{
    let mut r: Vec<(String, Vec<u8>)> = Vec::new();
    for i in 0..v.len()
        invariant
            r@.len() == i,
            forall|j: int| 0 <= j < i ==> pairs_of(r@)[j] == #[trigger] pairs_of(v@)[j],
    {
        let k = v[i].0.clone();
        let b = v[i].1.clone();
        assert(b@ =~= v@[i as int].1@);
        r.push((k, b));
    }
    assert(pairs_of(r@) =~= pairs_of(v@));
    r
}

impl Store {
    /// An empty store with no open transaction.
    pub fn new() -> (s: Store)
        ensures
            s@.pairs == Seq::<Pair>::empty(),
            s@.saved == Seq::<Pairs>::empty(),
            s@.wf(),
    {
        let s = Store { entries: Vec::new(), saved: Vec::new() };
        assert(s@.pairs =~= Seq::<Pair>::empty());
        assert(s@.saved =~= Seq::<Pairs>::empty());
        s
    }

    /// The number of pairs.
    pub fn len(&self) -> (n: usize)
        ensures
            n == self@.pairs.len(),
    {
        self.entries.len()
    }

    /// The key of the `i`-th pair.
    pub fn key(&self, i: usize) -> (k: &str)
        requires
            i < self@.pairs.len(),
        ensures
            k@ == self@.pairs[i as int].0,
    {
        self.entries[i].0.as_str()
    }

    /// The value of the `i`-th pair.
    pub fn value(&self, i: usize) -> (v: &[u8])
        requires
            i < self@.pairs.len(),
        ensures
            v@ == self@.pairs[i as int].1,
    {
        self.entries[i].1.as_slice()
    }

    /// The position of the first pair whose key does not sort before `key`.
    pub fn lower_bound(&self, key: &str) -> (i: usize)
        ensures
            i == lower_bound(self@.pairs, key@),
            is_lower_bound(self@.pairs, key@, i as int),
    {
        let mut i: usize = 0;
        while i < self.entries.len() && str_lt(self.entries[i].0.as_str(), key)
            invariant
                i <= self.entries@.len(),
                forall|j: int| 0 <= j < i ==> key_lt(#[trigger] self@.pairs[j].0, key@),
            decreases self.entries@.len() - i,
        {
            i = i + 1;
        }
        proof {
            lemma_lower_bound_unique(self@.pairs, key@, i as int);
        }
        i
    }

    /// Set `key` to `value`, leaving the open transactions as they are.
    pub fn set(&mut self, key: String, value: Vec<u8>)
        requires
            old(self)@.wf(),
        ensures
            final(self)@ == old(self)@.with_pairs(set_key(old(self)@.pairs, key@, value@)),
            final(self)@.wf(),
    {
        let i = self.lower_bound(key.as_str());
        let ghost s = self@.pairs;
        let ghost k = key@;
        let ghost v = value@;
        if i < self.entries.len() && !str_lt(key.as_str(), self.entries[i].0.as_str()) {
            proof {
                lemma_lt_total(s[i as int].0, k);
            }
            self.entries.set(i, (key, value));
            assert(self@.pairs =~= s.update(i as int, (k, v)));
        } else {
            proof {
                if i < s.len() {
                    lemma_lt_irreflexive(k);
                }
            }
            self.entries.insert(i, (key, value));
            assert(self@.pairs =~= s.insert(i as int, (k, v)));
        }
        proof {
            lemma_set_key_sorted(s, k, v);
        }
        assert(self@.saved =~= old(self)@.saved);
    }

    /// Remove every pair whose key lies in `[lo, hi)`.
    pub fn cut(&mut self, lo: &str, hi: &str)
        requires
            old(self)@.wf(),
        ensures
            final(self)@ == old(self)@.with_pairs(cut_range(old(self)@.pairs, lo@, hi@)),
            final(self)@.wf(),
    {
        let ghost s = self@.pairs;
        let a = self.lower_bound(lo);
        let b = self.lower_bound(hi);
        proof {
            lemma_cut_range_sorted(s, lo@, hi@);
        }
        if a < b {
            let mut tail = self.entries.split_off(b);
            self.entries.truncate(a);
            self.entries.append(&mut tail);
            assert(self@.pairs =~= s.subrange(0, a as int) + s.subrange(b as int, s.len() as int));
        } else if a == b {
            assert(s.subrange(0, a as int) + s.subrange(b as int, s.len() as int) =~= s);
        }
        assert(self@.saved =~= old(self)@.saved);
    }

    /// Replace the pairs at positions `[a, b)` by `middle`.
    pub fn splice(&mut self, a: usize, b: usize, middle: Vec<(String, Vec<u8>)>)
        requires
            old(self)@.wf(),
            a <= b <= old(self)@.pairs.len(),
            sorted(old(self)@.pairs.subrange(0, a as int) + pairs_of(middle@) + old(self)@.pairs.subrange(b as int, old(self)@.pairs.len() as int)),
        ensures
            final(self)@ == old(self)@.with_pairs(
                old(self)@.pairs.subrange(0, a as int) + pairs_of(middle@) + old(self)@.pairs.subrange(b as int, old(self)@.pairs.len() as int)),
            final(self)@.wf(),
    {
        let ghost s = self@.pairs;
        let mut middle = middle;
        let ghost m = pairs_of(middle@);
        let mut tail = self.entries.split_off(b);
        self.entries.truncate(a);
        self.entries.append(&mut middle);
        self.entries.append(&mut tail);
        assert(self@.pairs =~= s.subrange(0, a as int) + m + s.subrange(b as int, s.len() as int));
        assert(self@.saved =~= old(self)@.saved);
    }

    /// The number of open transactions.
    pub fn open_levels(&self) -> (n: usize)
        ensures
            n == self@.open_levels(),
    {
        self.saved.len()
    }

    /// Make sure that at least `level` transactions are open.
    pub fn begin(&mut self, level: u32)
        requires
            old(self)@.wf(),
        ensures
            final(self)@ == old(self)@.begin(level as nat),
            final(self)@.wf(),
    {
        let ghost v0 = self@;
        while self.saved.len() < level as usize
            invariant
                self@.pairs == v0.pairs,
                v0.saved.len() <= self@.saved.len(),
                v0.saved.len() < level ==> self@.saved.len() <= level,
                v0.saved.len() >= level ==> self@.saved.len() == v0.saved.len(),
                self@.saved.subrange(0, v0.saved.len() as int) == v0.saved,
                forall|i: int| v0.saved.len() <= i < self@.saved.len() ==> #[trigger] self@.saved[i] == v0.pairs,
                self@.wf(),
            decreases level - self@.saved.len(),
        {
            let copy = copy_entries(&self.entries);
            let ghost before = self@.saved;
            self.saved.push(copy);
            assert(self@.saved =~= before.push(v0.pairs));
            assert(self@.saved.subrange(0, v0.saved.len() as int) =~= before.subrange(0, v0.saved.len() as int));
        }
        proof {
            if v0.saved.len() < level as nat {
                assert(self@.saved =~= v0.saved + Seq::new((level - v0.saved.len()) as nat, |i: int| v0.pairs));
            } else {
                assert(self@.saved =~= v0.saved);
            }
        }
    }

    /// Make sure that at most `level` transactions are open, keeping every change.
    pub fn commit(&mut self, level: u32)
        requires
            old(self)@.wf(),
        ensures
            final(self)@ == old(self)@.commit(level as nat),
            final(self)@.wf(),
    {
        let ghost v0 = self@;
        if (level as usize) < self.saved.len() {
            self.saved.truncate(level as usize);
            assert(self@.saved =~= v0.saved.take(level as int));
        }
    }

    /// Restore the state in which transaction `max(level, 1)` was opened and
    /// leave at most `level` open.
    pub fn rollback(&mut self, level: u32)
        requires
            old(self)@.wf(),
        ensures
            final(self)@ == old(self)@.rollback(level as nat),
            final(self)@.wf(),
    {
        let ghost v0 = self@;
        let back: usize = if level == 0 { 0 } else { (level - 1) as usize };
        if back < self.saved.len() {
            let restored = copy_entries(&self.saved[back]);
            self.entries = restored;
            self.saved.truncate(level as usize);
            assert(self@.saved =~= v0.saved.take(level as int));
            assert(self@.pairs == v0.saved[back as int]);
        }
    }

    /// Undo and close every transaction nested deeper than `level`.
    pub fn close_above(&mut self, level: u32)
        requires
            old(self)@.wf(),
        ensures
            final(self)@ == old(self)@.close_above(level as nat),
            final(self)@.wf(),
    {
        let ghost v0 = self@;
        if (level as usize) < self.saved.len() {
            let restored = copy_entries(&self.saved[level as usize]);
            self.entries = restored;
            self.saved.truncate(level as usize);
            assert(self@.saved =~= v0.saved.take(level as int));
        }
    }
}

} // verus!

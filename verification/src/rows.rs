//! Rows of an entry: its batches read back, a window of its rows, and the
//! removal of a window of rows across batches.

use vstd::prelude::*;
use crate::batch::{concat_batches, decode_rows, encode_rows, RecordBatch};
use crate::entry::{entry_pairs, hi_key, lo_key, OccupiedEntry};
use crate::error::StorageError;
use crate::order::{key_lt, lemma_common_prefix};
use crate::store::{
    lemma_lower_bound, lemma_lower_bound_monotonic, lower_bound, pairs_of, sorted, Pairs,
};
use vstd::slice::slice_to_vec;

verus! {

/// One end of a window of rows.
#[derive(Copy, Clone, PartialEq, Eq, Structural)]
pub enum Bound {
    Included(usize),
    Excluded(usize),
    Unbounded,
}

/// The first row a start bound admits.
pub open spec fn first_row(b: Bound) -> int {
    match b {
        Bound::Included(n) => n as int,
        Bound::Excluded(n) => n + 1,
        Bound::Unbounded => 0,
    }
}

/// The row just past what an end bound admits.
pub open spec fn past_row(b: Bound) -> int {
    match b {
        Bound::Included(n) => n + 1,
        Bound::Excluded(n) => n as int,
        Bound::Unbounded => usize::MAX + 1,
    }
}

/// `x` brought into `[lo, hi]`.
pub open spec fn clamp(x: int, lo: int, hi: int) -> int {
    if x < lo {
        lo
    } else if x > hi {
        hi
    } else {
        x
    }
}

/// Every stored batch in `ps` is well formed.
pub open spec fn all_decode(ps: Pairs) -> bool {
    forall|i: int| 0 <= i < ps.len() ==> (#[trigger] decode_rows(ps[i].1)) is Some
}

/// The batches stored in `ps`.
pub open spec fn batches_of(ps: Pairs) -> Seq<Seq<Seq<u8>>> {
    ps.map_values(|p: (Seq<char>, Seq<u8>)| decode_rows(p.1).unwrap())
}

/// The rows of the entry `name`: the rows of its batches, one batch after the other.
pub open spec fn entry_rows(pairs: Pairs, name: Seq<char>) -> Seq<Seq<u8>> {
    concat_batches(batches_of(entry_pairs(pairs, name)))
}

/// The rows of `rows` that lie between the bounds.
pub open spec fn window(rows: Seq<Seq<u8>>, start: Bound, end: Bound) -> Seq<Seq<u8>> {
    let lo = clamp(first_row(start), 0, rows.len() as int);
    let hi = clamp(past_row(end), lo, rows.len() as int);
    rows.subrange(lo, hi)
}

/// `rows` without the rows `[s, e)`, both ends brought into range.
pub open spec fn cut_rows(rows: Seq<Seq<u8>>, s: int, e: int) -> Seq<Seq<u8>> {
    let lo = clamp(s, 0, rows.len() as int);
    let hi = clamp(e, lo, rows.len() as int);
    rows.subrange(0, lo) + rows.subrange(hi, rows.len() as int)
}

/// The row just past what an end bound removes: an included `usize::MAX`
/// wraps to 0, which removes nothing.
pub open spec fn removal_end(b: Bound) -> int {
    match b {
        Bound::Included(n) => if n == usize::MAX { 0 } else { n + 1 },
        Bound::Excluded(n) => n as int,
        Bound::Unbounded => usize::MAX as int,
    }
}

/// The stored batches `ps`, whose first row is row `off`, after removing rows
/// `[s, e)`: a batch that loses all its rows goes, a batch that loses some is
/// stored again with the rest, the others stay as they are.
pub open spec fn trim_pairs(ps: Pairs, s: int, e: int, off: int) -> Pairs
    decreases ps.len(),
{
    if ps.len() == 0 {
        Seq::empty()
    } else {
        let r = decode_rows(ps[0].1).unwrap();
        let c = r.len() as int;
        let lo = clamp(s - off, 0, c);
        let hi = clamp(e - off, lo, c);
        let rest = trim_pairs(ps.drop_first(), s, e, off + c);
        if lo < hi {
            if lo == 0 && hi == c {
                rest
            } else {
                seq![(ps[0].0, encode_rows(r.subrange(0, lo) + r.subrange(hi, c)))] + rest
            }
        } else {
            seq![ps[0]] + rest
        }
    }
}

/// The pairs after removing the rows between `start` and `end` from the entry `name`.
pub open spec fn remove_rows(pairs: Pairs, name: Seq<char>, start: Bound, end: Bound) -> Pairs {
    let a = lower_bound(pairs, lo_key(name));
    let b = lower_bound(pairs, hi_key(name));
    pairs.subrange(0, a) + trim_pairs(pairs.subrange(a, b), first_row(start), removal_end(end), 0)
        + pairs.subrange(b, pairs.len() as int)
}

/// The keys that trimming keeps are keys of the batches it started from, in order.
pub proof fn lemma_trim_keys(ps: Pairs, s: int, e: int, off: int)
    ensures
        forall|t: int| 0 <= t < trim_pairs(ps, s, e, off).len() ==>
            exists|j: int| 0 <= j < ps.len() && #[trigger] trim_pairs(ps, s, e, off)[t].0 == ps[j].0,
        sorted(ps) ==> sorted(trim_pairs(ps, s, e, off)),
    decreases ps.len(),
{
    if ps.len() > 0 {
        let r = decode_rows(ps[0].1).unwrap();
        let c = r.len() as int;
        let tail = ps.drop_first();
        lemma_trim_keys(tail, s, e, off + c);
        let rest = trim_pairs(tail, s, e, off + c);
        let t = trim_pairs(ps, s, e, off);
        assert forall|x: int| 0 <= x < t.len() implies
            exists|j: int| 0 <= j < ps.len() && #[trigger] t[x].0 == ps[j].0 by {
            if t.len() == rest.len() {
                assert(t[x] == rest[x]);
                let j = choose|j: int| 0 <= j < tail.len() && rest[x].0 == tail[j].0;
                assert(t[x].0 == ps[j + 1].0);
            } else if x == 0 {
                assert(t[x].0 == ps[0].0);
            } else {
                assert(t[x] == rest[x - 1]);
                let j = choose|j: int| 0 <= j < tail.len() && rest[x - 1].0 == tail[j].0;
                assert(t[x].0 == ps[j + 1].0);
            }
        }
        if sorted(ps) {
            assert(sorted(tail)) by {
                assert forall|x: int, y: int| 0 <= x < y < tail.len() implies key_lt(#[trigger] tail[x].0, #[trigger] tail[y].0) by {
                    assert(tail[x] == ps[x + 1] && tail[y] == ps[y + 1]);
                }
            }
            assert forall|x: int, y: int| 0 <= x < y < t.len() implies key_lt(#[trigger] t[x].0, #[trigger] t[y].0) by {
                if t.len() == rest.len() {
                    assert(t[x] == rest[x] && t[y] == rest[y]);
                } else if x == 0 {
                    assert(t[y] == rest[y - 1]);
                    let j = choose|j: int| 0 <= j < tail.len() && rest[y - 1].0 == tail[j].0;
                    assert(tail[j] == ps[j + 1]);
                    assert(t[x].0 == ps[0].0);
                } else {
                    assert(t[x] == rest[x - 1] && t[y] == rest[y - 1]);
                }
            }
        }
    }
}

/// The interval of a name is not empty: its first key sorts before the key past it.
pub proof fn lemma_interval_ordered(name: Seq<char>)
    ensures
        key_lt(lo_key(name), hi_key(name)),
{
    lemma_common_prefix(name, seq!['\u{F0000}'], seq!['\u{10FFFF}']);
    assert(lo_key(name) =~= name + seq!['\u{F0000}']);
    assert(hi_key(name) =~= name + seq!['\u{10FFFF}']);
}

/// Removing rows keeps the pairs in key order.
pub proof fn lemma_remove_rows_sorted(pairs: Pairs, name: Seq<char>, start: Bound, end: Bound)
    requires
        sorted(pairs),
    ensures
        sorted(remove_rows(pairs, name, start, end)),
        lower_bound(pairs, lo_key(name)) <= lower_bound(pairs, hi_key(name)),
{
    lemma_interval_ordered(name);
    lemma_lower_bound_monotonic(pairs, lo_key(name), hi_key(name));
    let a = lower_bound(pairs, lo_key(name));
    let b = lower_bound(pairs, hi_key(name));
    lemma_lower_bound(pairs, lo_key(name));
    lemma_lower_bound(pairs, hi_key(name));
    let mid = pairs.subrange(a, b);
    assert(sorted(mid)) by {
        assert forall|x: int, y: int| 0 <= x < y < mid.len() implies key_lt(#[trigger] mid[x].0, #[trigger] mid[y].0) by {
            assert(mid[x] == pairs[a + x] && mid[y] == pairs[a + y]);
        }
    }
    let m = trim_pairs(mid, first_row(start), removal_end(end), 0);
    lemma_trim_keys(mid, first_row(start), removal_end(end), 0);
    let r = remove_rows(pairs, name, start, end);
    assert forall|x: int, y: int| 0 <= x < y < r.len() implies key_lt(#[trigger] r[x].0, #[trigger] r[y].0) by {
        let pa = a;
        let pm = a + m.len();
        if y < pa {
            assert(r[x] == pairs[x] && r[y] == pairs[y]);
        } else if y < pm {
            assert(r[y] == m[y - a]);
            let j = choose|j: int| 0 <= j < mid.len() && m[y - a].0 == mid[j].0;
            assert(mid[j] == pairs[a + j]);
            if x < pa {
                assert(r[x] == pairs[x]);
            } else {
                assert(r[x] == m[x - a]);
            }
        } else {
            assert(r[y] == pairs[y - pm + b]);
            if x < pa {
                assert(r[x] == pairs[x]);
            } else if x < pm {
                assert(r[x] == m[x - a]);
                let j = choose|j: int| 0 <= j < mid.len() && m[x - a].0 == mid[j].0;
                assert(mid[j] == pairs[a + j]);
            } else {
                assert(r[x] == pairs[x - pm + b]);
            }
        }
    }
}

impl<'a> OccupiedEntry<'a> {
    /// The entry's batches, in order; `Decompression` when one of them is not
    /// well formed.
    pub fn iter(&self) -> (r: Result<Vec<RecordBatch>, StorageError>)
        requires
            self.wf(),
        ensures
            all_decode(entry_pairs(self.pairs(), self.interval.key@)) ==> (r matches Ok(v)
                && v@.map_values(|b: RecordBatch| b@) == batches_of(entry_pairs(self.pairs(), self.interval.key@))),
            !all_decode(entry_pairs(self.pairs(), self.interval.key@)) ==> (r matches Err(e) && e is Decompression),
    {
        let ghost pairs = self.frames@.store.pairs;
        let ghost ps = entry_pairs(pairs, self.interval.key@);
        let store = self.frames.store();
        let a = store.lower_bound(self.interval.min());
        let b = store.lower_bound(self.interval.max());
        proof {
            lemma_lower_bound(pairs, lo_key(self.interval.key@));
            lemma_lower_bound(pairs, hi_key(self.interval.key@));
        }
        let mut out: Vec<RecordBatch> = Vec::new();
        if a < b {
            let mut i = a;
            while i < b
                invariant
                    a <= i <= b <= pairs.len(),
                    a == lower_bound(pairs, lo_key(self.interval.key@)),
                    b == lower_bound(pairs, hi_key(self.interval.key@)),
                    store@.pairs == pairs,
                    pairs == self.pairs(),
                    ps == entry_pairs(pairs, self.interval.key@),
                    ps == pairs.subrange(a as int, b as int),
                    out@.map_values(|x: RecordBatch| x@) == batches_of(ps).take(i - a),
                    forall|j: int| 0 <= j < i - a ==> (#[trigger] decode_rows(ps[j].1)) is Some,
                decreases b - i,
            {
                let ghost before = out@.map_values(|x: RecordBatch| x@);
                let bytes = store.value(i);
                assert(ps[i - a] == pairs[i as int]);
                assert(bytes@ == ps[i - a].1);
                match RecordBatch::decompress(bytes) {
                    Ok(batch) => {
                        assert(decode_rows(ps[i - a].1) is Some);
                        assert(batches_of(ps)[i - a] == batch@);
                        out.push(batch);
                        assert(out@.map_values(|x: RecordBatch| x@) =~= before.push(batch@));
                        assert(out@.map_values(|x: RecordBatch| x@) =~= batches_of(ps).take(i - a + 1));
                    },
                    Err(e) => {
                        assert(decode_rows(ps[i - a].1) is None);
                        assert(!all_decode(ps));
                        return Err(e);
                    },
                }
                i = i + 1;
            }
            assert(batches_of(ps).take(b - a) =~= batches_of(ps));
        } else {
            assert(ps.len() == 0);
            assert(out@.map_values(|x: RecordBatch| x@) =~= batches_of(ps));
        }
        Ok(out)
    }

    /// The entry's rows between `start` and `end`; `Decompression` when one of
    /// its batches is not well formed.
    pub fn range(&self, start: Bound, end: Bound) -> (r: Result<Vec<Vec<u8>>, StorageError>)
        requires
            self.wf(),
            start != Bound::Excluded(usize::MAX),
        ensures
            all_decode(entry_pairs(self.pairs(), self.interval.key@)) ==> (r matches Ok(v)
                && v@.map_values(|x: Vec<u8>| x@) == window(entry_rows(self.pairs(), self.interval.key@), start, end)),
            !all_decode(entry_pairs(self.pairs(), self.interval.key@)) ==> (r matches Err(e) && e is Decompression),
    {
        let batches = match self.iter() {
            Ok(v) => v,
            Err(e) => {
                return Err(e);
            },
        };
        let mut all = RecordBatch::default();
        all.extend(&batches);
        let n = all.num_rows();
        let lo: usize = match start {
            Bound::Included(s) => s,
            Bound::Excluded(s) => s + 1,
            Bound::Unbounded => 0,
        };
        let lo = if lo > n { n } else { lo };
        let hi: usize = match end {
            Bound::Included(e) => if e >= n { n } else { e + 1 },
            Bound::Excluded(e) => e,
            Bound::Unbounded => n,
        };
        let hi = if hi > n { n } else if hi < lo { lo } else { hi };
        let part = all.slice(lo, hi - lo);
        Ok(part.into_rows())
    }
}

impl<'a> OccupiedEntry<'a> {
    /// Removes the entry's rows between `start` and `end`. A batch left with
    /// no row goes; `Decompression`, with nothing changed, when one of the
    /// entry's batches is not well formed.
    pub fn remove(&mut self, start: Bound, end: Bound) -> (r: Result<(), StorageError>)
        requires
            old(self).wf(),
            start != Bound::Excluded(usize::MAX),
        ensures
            final(self).interval == old(self).interval,
            *final(final(self).frames) == *final(old(self).frames),
            final(self).wf(),
            all_decode(entry_pairs(old(self).pairs(), old(self).interval.key@)) ==> r is Ok
                && final(self).frames@ == old(self).frames@.with_pairs(
                    remove_rows(old(self).pairs(), old(self).interval.key@, start, end)),
            !all_decode(entry_pairs(old(self).pairs(), old(self).interval.key@)) ==> (r matches Err(e)
                && e is Decompression) && final(self).frames@ == old(self).frames@,
    {
        let ghost pairs = self.frames@.store.pairs;
        let ghost name = self.interval.key@;
        let s: usize = match start {
            Bound::Included(n) => n,
            Bound::Excluded(n) => n + 1,
            Bound::Unbounded => 0,
        };
        let e: usize = match end {
            Bound::Included(n) => if n == usize::MAX { 0 } else { n + 1 },
            Bound::Excluded(n) => n,
            Bound::Unbounded => usize::MAX,
        };
        proof {
            lemma_remove_rows_sorted(pairs, name, start, end);
            lemma_lower_bound(pairs, lo_key(name));
            lemma_lower_bound(pairs, hi_key(name));
        }
        let mut middle: Vec<(String, Vec<u8>)> = Vec::new();
        let (a, b) = {
            let store = self.frames.store();
            (store.lower_bound(self.interval.min()), store.lower_bound(self.interval.max()))
        };
        let ghost ps = pairs.subrange(a as int, b as int);
        let ghost target = trim_pairs(ps, s as int, e as int, 0);
        let mut off: usize = 0;
        let ghost mut off_true: int = 0;
        let mut i = a;
        assert(ps.subrange(0, ps.len() as int) =~= ps);
        assert(pairs_of(middle@) + target =~= target);
        while i < b
            invariant
                a <= i <= b <= pairs.len(),
                a == lower_bound(pairs, lo_key(name)),
                b == lower_bound(pairs, hi_key(name)),
                pairs == self.frames@.store.pairs,
                self.wf(),
                name == self.interval.key@,
                ps == pairs.subrange(a as int, b as int),
                ps == entry_pairs(pairs, name),
                target == trim_pairs(ps, s as int, e as int, 0),
                target == pairs_of(middle@) + trim_pairs(ps.subrange(i - a, ps.len() as int), s as int, e as int, off_true),
                off_true >= 0,
                off == (if off_true > usize::MAX { usize::MAX as int } else { off_true }),
                forall|j: int| 0 <= j < i - a ==> (#[trigger] decode_rows(ps[j].1)) is Some,
            decreases b - i,
        {
            let store = self.frames.store();
            let bytes = store.value(i);
            let key = store.key(i);
            assert(ps[i - a] == pairs[i as int]);
            let batch = match RecordBatch::decompress(bytes) {
                Ok(batch) => batch,
                Err(err) => {
                    assert(decode_rows(ps[i - a].1) is None);
                    assert(!all_decode(ps));
                    return Err(err);
                },
            };
            let ghost rest = ps.subrange(i - a, ps.len() as int);
            assert(rest[0] == ps[i - a]);
            assert(rest.drop_first() =~= ps.subrange(i - a + 1, ps.len() as int));
            let c = batch.num_rows();
            let lo: usize = if s > off {
                if s - off > c { c } else { s - off }
            } else {
                0
            };
            let hi: usize = if e > off {
                if e - off > c { c } else { e - off }
            } else {
                0
            };
            let hi = if hi < lo { lo } else { hi };
            assert(lo == clamp(s - off_true, 0, c as int));
            assert(hi == clamp(e - off_true, lo as int, c as int));
            let ghost mid_before = pairs_of(middle@);
            if lo < hi {
                if lo == 0 && hi == c {
                } else {
                    let mut kept = batch.slice(0, lo);
                    let tail = batch.slice(hi, c - hi);
                    let ghost tail_rows = tail@;
                    let tails = vec![tail];
                    assert(tails@.map_values(|x: RecordBatch| x@) =~= seq![tail_rows]);
                    assert(seq![tail_rows].drop_last() =~= Seq::<Seq<Seq<u8>>>::empty());
                    assert(concat_batches(Seq::<Seq<Seq<u8>>>::empty()) =~= Seq::<Seq<u8>>::empty());
                    assert(concat_batches(seq![tail_rows]) =~= tail_rows);
                    kept.extend(&tails);
                    let stored = match RecordBatch::compress(&kept) {
                        Ok(v) => v,
                        Err(err) => {
                            return Err(err);
                        },
                    };
                    middle.push((key.to_owned(), stored));
                    assert(pairs_of(middle@) =~= mid_before.push((rest[0].0,
                        encode_rows(batch@.subrange(0, lo as int) + batch@.subrange(hi as int, c as int)))));
                }
            } else {
                middle.push((key.to_owned(), slice_to_vec(bytes)));
                assert(pairs_of(middle@) =~= mid_before.push(rest[0]));
            }
            proof {
                let tr = trim_pairs(rest.drop_first(), s as int, e as int, off_true + c);
                assert(seq![rest[0]] + tr =~= seq![rest[0]].add(tr));
                assert(mid_before + (seq![rest[0]] + tr) =~= mid_before.push(rest[0]) + tr);
                let np = (rest[0].0, encode_rows(batch@.subrange(0, lo as int) + batch@.subrange(hi as int, c as int)));
                assert(mid_before + (seq![np] + tr) =~= mid_before.push(np) + tr);
                off_true = off_true + c;
            }
            off = off.saturating_add(c);
            i = i + 1;
        }
        assert(ps.subrange(b - a, ps.len() as int) =~= Seq::<(Seq<char>, Seq<u8>)>::empty());
        assert(target =~= pairs_of(middle@));
        self.frames.splice(a, b, middle);
        Ok(())
    }
}

} // verus!

//! What holds of the library across calls.

use vstd::prelude::*;
use crate::batch::{concat_batches, decode_rows, encode_rows, lemma_decode_encode, lemma_encode_decode, rows_fit};
use crate::entry::{
    all_names, append_batch, append_key, append_start, distinct, entry_pairs, hi_key, is_suffix_char, key_names, listed_names,
    lo_key,
};
use crate::order::{in_range, key_le};
use crate::order::{key_lt, lemma_common_prefix, lemma_lt_asymmetric, lemma_lt_irreflexive, lemma_lt_total, lemma_lt_transitive};
use crate::rows::{
    window, all_decode, batches_of, clamp, cut_rows, entry_rows, first_row, lemma_interval_ordered, lemma_remove_rows_sorted,
    lemma_trim_keys, remove_rows, removal_end, trim_pairs, Bound,
};
use crate::store::{
    cut_range, is_lower_bound, lemma_cut_range_sorted, lemma_lower_bound, lemma_lower_bound_monotonic,
    lemma_lower_bound_unique, lemma_range_of_member, lemma_set_key_sorted, lower_bound, range_of,
    replace_range, set_key, sorted, Pairs, StoreView,
};
use crate::text::next_char;

verus! {

/// Opening a transaction and rolling it back restores the pairs it started
/// from, whatever was written in between, and closes it: when it was opened
/// just inside the transactions that were open, the store is as it was.
pub proof fn law_rollback_undoes_transaction(v: StoreView, level: nat, written: Pairs)
    requires
        v.wf(),
        1 <= level,
        v.open_levels() < level,
    ensures
        v.begin(level).with_pairs(written).rollback(level).commit((level - 1) as nat).pairs == v.pairs,
        v.begin(level).with_pairs(written).rollback(level).commit((level - 1) as nat).open_levels() == level - 1,
        v.open_levels() == level - 1 ==> v.begin(level).with_pairs(written).rollback(level).commit((level - 1) as nat) == v,
{
    let w = v.begin(level).with_pairs(written).rollback(level).commit((level - 1) as nat);
    if v.open_levels() == level - 1 {
        assert(w.saved =~= v.saved);
    }
}

/// Opening a transaction and committing it keeps what was written and closes
/// it: as many transactions are open as before.
pub proof fn law_commit_keeps_changes(v: StoreView, level: nat, written: Pairs)
    requires
        v.wf(),
        1 <= level,
        v.open_levels() == level - 1,
    ensures
        v.begin(level).with_pairs(written).close_above(level).commit((level - 1) as nat).pairs == written,
        v.begin(level).with_pairs(written).close_above(level).commit((level - 1) as nat).saved == v.saved,
{
    assert(v.begin(level).saved.take(level - 1) =~= v.saved);
}

/// A transaction dropped without being closed is undone before anything
/// next reads or writes through what encloses it. Nested in a transaction at
/// `level`, it is undone when that transaction opens a transaction, reads an
/// entry or commits, and the enclosing transaction's own writes stay. At the
/// top (`level` 0), it is undone when the store next opens a transaction,
/// makes a cursor, lists its names or answers a request: they see the pairs
/// from before it.
pub proof fn law_dropped_transaction_is_undone(v: StoreView, level: nat, own: Pairs, dropped: Pairs)
    requires
        v.wf(),
        v.open_levels() == level,
    ensures
        v.with_pairs(own).begin(level + 1).with_pairs(dropped).close_above(level) == v.with_pairs(own),
{
    assert(v.with_pairs(own).begin(level + 1).with_pairs(dropped).close_above(level).saved =~= v.saved);
}

/// A nested transaction that commits still goes when its enclosing
/// transaction rolls back.
pub proof fn law_outer_rollback_after_inner_commit(v: StoreView, level: nat, first: Pairs, second: Pairs)
    requires
        v.wf(),
        1 <= level,
        v.open_levels() < level,
    ensures
        v.begin(level).with_pairs(first).begin(level + 1).with_pairs(second).close_above(level + 1).commit(level)
            .rollback(level).commit((level - 1) as nat).pairs == v.pairs,
{
    let w = v.begin(level).with_pairs(first);
    assert(w.saved.len() == level);
    assert(w.begin(level + 1).with_pairs(second).close_above(level + 1).commit(level).saved =~= w.saved);
}

/// A nested transaction that rolls back leaves what its enclosing
/// transaction wrote before it and after it; a second nested transaction
/// opened after the first rolled back starts from the enclosing
/// transaction's latest writes.
pub proof fn law_inner_rollback_keeps_outer_writes(
    v: StoreView,
    level: nat,
    before: Pairs,
    inner: Pairs,
    after: Pairs,
    again: Pairs,
)
    requires
        v.wf(),
        1 <= level,
        v.open_levels() == level,
    ensures
        v.with_pairs(before).begin(level + 1).with_pairs(inner).rollback(level + 1).commit(level)
            == v.with_pairs(before),
        v.with_pairs(before).begin(level + 1).with_pairs(inner).rollback(level + 1).commit(level)
            .with_pairs(after).begin(level + 1).with_pairs(again).rollback(level + 1).commit(level)
            == v.with_pairs(after),
{
    let a = v.with_pairs(before);
    assert(a.begin(level + 1).with_pairs(inner).rollback(level + 1).commit(level).saved =~= v.saved);
    let b = v.with_pairs(after);
    assert(b.begin(level + 1).with_pairs(again).rollback(level + 1).commit(level).saved =~= v.saved);
}

/// Appending a batch to an entry adds exactly one pair, under a key inside
/// the entry's interval and after every key the entry had, and leaves every
/// other pair as it was: the entry keeps its batches and gains the new one
/// last, and the pairs stay in key order.
pub proof fn law_append_extends_entry(pairs: Pairs, name: Seq<char>, rows: Seq<Seq<u8>>)
    requires
        sorted(pairs),
        append_key(pairs, name) is Some,
    ensures
        append_batch(pairs, name, rows) is Some,
        sorted(append_batch(pairs, name, rows).unwrap()),
        append_batch(pairs, name, rows).unwrap()
            == pairs.insert(lower_bound(pairs, hi_key(name)), (append_key(pairs, name).unwrap(), encode_rows(rows))),
        key_lt(lo_key(name), append_key(pairs, name).unwrap()),
        key_lt(append_key(pairs, name).unwrap(), hi_key(name)),
        entry_pairs(append_batch(pairs, name, rows).unwrap(), name)
            == entry_pairs(pairs, name).push((append_key(pairs, name).unwrap(), encode_rows(rows))),
{
    let lo = lo_key(name);
    let hi = hi_key(name);
    let es = entry_pairs(pairs, name);
    let start = append_start(pairs, name);
    let k = append_key(pairs, name).unwrap();
    let v = encode_rows(rows);
    lemma_interval_ordered(name);
    lemma_lower_bound(pairs, lo);
    lemma_lower_bound(pairs, hi);
    lemma_lower_bound_monotonic(pairs, lo, hi);
    let a = lower_bound(pairs, lo);
    let b = lower_bound(pairs, hi);
    assert(es == pairs.subrange(a, b));
    lemma_cut_range_sorted(pairs, lo, hi);
    // The last key of the entry (or its first key) sorts before `k`.
    if es.len() > 0 {
        lemma_range_of_member(pairs, lo, hi, es.len() - 1);
        lemma_lt_total(start, lo);
        if start.len() == 0 {
            assert(key_lt(start, lo));
        }
    }
    let c = next_char(start.last()).unwrap();
    lemma_common_prefix(start.drop_last(), seq![start.last()], seq![c]);
    assert(start =~= start.drop_last() + seq![start.last()]);
    assert(k =~= start.drop_last() + seq![c]);
    assert(seq![c].drop_first() =~= Seq::<char>::empty());
    assert(key_lt(seq![start.last()], seq![c]));
    assert(key_lt(start, k));
    assert(key_lt(lo, k)) by {
        if start != lo {
            lemma_lt_transitive(lo, start, k);
        }
    }
    // Every pair up to the end of the entry sorts before `k`; the rest after it.
    assert forall|j: int| 0 <= j < b implies key_lt(#[trigger] pairs[j].0, k) by {
        if j < a {
            lemma_lt_transitive(pairs[j].0, lo, k);
        } else {
            assert(es[j - a] == pairs[j]);
            if j - a < es.len() - 1 {
                assert(key_lt(es[j - a].0, es[es.len() - 1].0));
                lemma_lt_transitive(pairs[j].0, start, k);
            }
        }
    }
    if b < pairs.len() {
        if key_lt(pairs[b].0, k) {
            lemma_lt_transitive(pairs[b].0, k, hi);
        }
        lemma_lt_irreflexive(k);
    }
    assert(is_lower_bound(pairs, k, b));
    lemma_lower_bound_unique(pairs, k, b);
    assert(cut_range(pairs, k, hi) =~= pairs);
    let r = pairs.insert(b, (k, v));
    assert(set_key(pairs, k, v) == r);
    lemma_set_key_sorted(pairs, k, v);
    // The entry's interval in the new pairs.
    assert(is_lower_bound(r, lo, a)) by {
        assert forall|j: int| 0 <= j < a implies key_lt(#[trigger] r[j].0, lo) by {
            assert(r[j] == pairs[j]);
        }
        if a < b {
            assert(r[a] == pairs[a]);
        } else {
            lemma_lt_asymmetric(lo, k);
        }
    }
    assert(is_lower_bound(r, hi, b + 1)) by {
        assert forall|j: int| 0 <= j < b + 1 implies key_lt(#[trigger] r[j].0, hi) by {
            if j < b {
                assert(r[j] == pairs[j]);
            }
        }
        if b + 1 < r.len() {
            assert(r[b + 1] == pairs[b]);
        }
    }
    lemma_lower_bound_unique(r, lo, a);
    lemma_lower_bound_unique(r, hi, b + 1);
    assert(range_of(r, lo, hi) =~= es.push((k, v)));
}

/// The rows of a batch appended to an entry read back after the entry's
/// other rows.
pub proof fn law_appended_rows_read_back(pairs: Pairs, name: Seq<char>, rows: Seq<Seq<u8>>)
    requires
        sorted(pairs),
        append_key(pairs, name) is Some,
        all_decode(entry_pairs(pairs, name)),
        rows_fit(rows),
    ensures
        all_decode(entry_pairs(append_batch(pairs, name, rows).unwrap(), name)),
        entry_rows(append_batch(pairs, name, rows).unwrap(), name) == entry_rows(pairs, name) + rows,
{
    law_append_extends_entry(pairs, name, rows);
    lemma_decode_encode(rows);
    let es = entry_pairs(pairs, name);
    let k = append_key(pairs, name).unwrap();
    let es2 = es.push((k, encode_rows(rows)));
    assert forall|i: int| 0 <= i < es2.len() implies (#[trigger] decode_rows(es2[i].1)) is Some by {
        if i < es.len() {
            assert(es2[i] == es[i]);
        }
    }
    assert(batches_of(es2) =~= batches_of(es).push(rows));
    assert(batches_of(es).push(rows).drop_last() =~= batches_of(es));
}

/// Removing an entry leaves nothing in its interval: looked up again, it is
/// vacant. The pairs before and after the interval stay as they were.
pub proof fn law_removed_entry_is_vacant(pairs: Pairs, name: Seq<char>)
    requires
        sorted(pairs),
    ensures
        entry_pairs(replace_range(pairs, lo_key(name), hi_key(name), None), name).len() == 0,
        replace_range(pairs, lo_key(name), hi_key(name), None)
            == pairs.subrange(0, lower_bound(pairs, lo_key(name)))
                + pairs.subrange(lower_bound(pairs, hi_key(name)), pairs.len() as int),
{
    let lo = lo_key(name);
    let hi = hi_key(name);
    lemma_interval_ordered(name);
    lemma_lower_bound(pairs, lo);
    lemma_lower_bound(pairs, hi);
    lemma_lower_bound_monotonic(pairs, lo, hi);
    let a = lower_bound(pairs, lo);
    let b = lower_bound(pairs, hi);
    let r = cut_range(pairs, lo, hi);
    assert(r == pairs.subrange(0, a) + pairs.subrange(b, pairs.len() as int));
    if b < pairs.len() {
        assert(r[a] == pairs[b]);
        if key_lt(pairs[b].0, lo) {
            lemma_lt_transitive(pairs[b].0, lo, hi);
        }
    }
    assert(is_lower_bound(r, lo, a)) by {
        assert forall|j: int| 0 <= j < a implies key_lt(#[trigger] r[j].0, lo) by {
            assert(r[j] == pairs[j]);
        }
    }
    assert(is_lower_bound(r, hi, a)) by {
        assert forall|j: int| 0 <= j < a implies key_lt(#[trigger] r[j].0, hi) by {
            assert(r[j] == pairs[j]);
            lemma_lt_transitive(pairs[j].0, lo, hi);
        }
    }
    lemma_lower_bound_unique(r, lo, a);
    lemma_lower_bound_unique(r, hi, a);
}

/// The rows of a batch put in front of other batches come first.
proof fn lemma_concat_front(x: Seq<Seq<u8>>, bs: Seq<Seq<Seq<u8>>>)
    ensures
        concat_batches(seq![x] + bs) == x + concat_batches(bs),
    decreases bs.len(),
{
    if bs.len() == 0 {
        let e = Seq::<Seq<Seq<u8>>>::empty();
        assert(seq![x] + bs =~= seq![x]);
        assert(bs =~= e);
        assert(seq![x].drop_last() =~= e);
        assert(concat_batches(e) == Seq::<Seq<u8>>::empty());
        assert(concat_batches(seq![x]) == concat_batches(e) + x);
        assert(Seq::<Seq<u8>>::empty() + x =~= x);
        assert(x + Seq::<Seq<u8>>::empty() =~= x);
    } else {
        lemma_concat_front(x, bs.drop_last());
        assert((seq![x] + bs).drop_last() =~= seq![x] + bs.drop_last());
        assert((seq![x] + bs).last() == bs.last());
        assert(x + concat_batches(bs.drop_last()) + bs.last() =~= x + (concat_batches(bs.drop_last()) + bs.last()));
    }
}

/// Cutting rows out of two runs of rows cuts each run at the shifted bounds.
proof fn lemma_cut_rows_split(r: Seq<Seq<u8>>, rt: Seq<Seq<u8>>, x: int, y: int)
    ensures
        cut_rows(r, x, y) + cut_rows(rt, x - r.len(), y - r.len()) == cut_rows(r + rt, x, y),
{
    let c = r.len() as int;
    let nt = rt.len() as int;
    let all = r + rt;
    let lo = clamp(x, 0, c + nt);
    let hi = clamp(y, lo, c + nt);
    let lo0 = clamp(x, 0, c);
    let hi0 = clamp(y, lo0, c);
    let lo1 = clamp(x - c, 0, nt);
    let hi1 = clamp(y - c, lo1, nt);
    if x <= c {
        if y <= c {
            assert(lo == lo0 && hi == hi0 && lo1 == 0 && hi1 == 0);
            assert(all.subrange(0, lo) =~= r.subrange(0, lo0));
            assert(all.subrange(hi, c + nt) =~= r.subrange(hi0, c) + rt);
            assert(rt.subrange(0, 0) + rt.subrange(0, nt) =~= rt);
        } else {
            assert(lo == lo0 && hi0 == c && lo1 == 0 && hi == c + hi1);
            assert(all.subrange(0, lo) =~= r.subrange(0, lo0));
            assert(all.subrange(hi, c + nt) =~= rt.subrange(hi1, nt));
            assert(r.subrange(0, lo0) + r.subrange(c, c) =~= r.subrange(0, lo0));
            assert(rt.subrange(0, 0) + rt.subrange(hi1, nt) =~= rt.subrange(hi1, nt));
        }
    } else {
        assert(lo0 == c && hi0 == c && lo == c + lo1 && hi == c + hi1);
        assert(r.subrange(0, c) + r.subrange(c, c) =~= r);
        assert(all.subrange(0, lo) =~= r + rt.subrange(0, lo1));
        assert(all.subrange(hi, c + nt) =~= rt.subrange(hi1, nt));
    }
}

/// Trimming stored batches cuts the same rows out of what they hold, and
/// what it stores stays well formed.
proof fn lemma_trim_rows(ps: Pairs, s: int, e: int, off: int)
    requires
        all_decode(ps),
    ensures
        all_decode(trim_pairs(ps, s, e, off)),
        concat_batches(batches_of(trim_pairs(ps, s, e, off)))
            == cut_rows(concat_batches(batches_of(ps)), s - off, e - off),
    decreases ps.len(),
{
    if ps.len() == 0 {
        assert(batches_of(ps) =~= Seq::<Seq<Seq<u8>>>::empty());
        assert(trim_pairs(ps, s, e, off) =~= Seq::<(Seq<char>, Seq<u8>)>::empty());
        assert(batches_of(trim_pairs(ps, s, e, off)) =~= Seq::<Seq<Seq<u8>>>::empty());
        assert(cut_rows(Seq::<Seq<u8>>::empty(), s - off, e - off) =~= Seq::<Seq<u8>>::empty());
    } else {
        let p0 = ps[0];
        assert(decode_rows(p0.1) is Some);
        let r = decode_rows(p0.1).unwrap();
        let c = r.len() as int;
        let tail = ps.drop_first();
        assert forall|i: int| 0 <= i < tail.len() implies (#[trigger] decode_rows(tail[i].1)) is Some by {
            assert(tail[i] == ps[i + 1]);
        }
        lemma_trim_rows(tail, s, e, off + c);
        lemma_encode_decode(p0.1);
        let rest = trim_pairs(tail, s, e, off + c);
        let rt = concat_batches(batches_of(tail));
        let lo0 = clamp(s - off, 0, c);
        let hi0 = clamp(e - off, lo0, c);
        let h = r.subrange(0, lo0) + r.subrange(hi0, c);
        assert(h == cut_rows(r, s - off, e - off));
        let t = trim_pairs(ps, s, e, off);
        assert(batches_of(ps) =~= seq![r] + batches_of(tail));
        lemma_concat_front(r, batches_of(tail));
        if lo0 < hi0 && lo0 == 0 && hi0 == c {
            assert(t == rest);
            assert(h =~= Seq::<Seq<u8>>::empty());
            assert(h + concat_batches(batches_of(rest)) =~= concat_batches(batches_of(rest)));
        } else {
            let np = if lo0 < hi0 { (p0.0, encode_rows(h)) } else { p0 };
            assert(t == seq![np] + rest);
            if lo0 < hi0 {
                assert(rows_fit(h)) by {
                    assert forall|i: int| 0 <= i < h.len() implies #[trigger] h[i].len() <= u64::MAX by {
                        if i < lo0 {
                            assert(h[i] == r[i]);
                        } else {
                            assert(h[i] == r[i - lo0 + hi0]);
                        }
                    }
                }
                lemma_decode_encode(h);
            } else {
                assert(h =~= r);
            }
            assert(decode_rows(np.1) == Some(h));
            assert forall|i: int| 0 <= i < t.len() implies (#[trigger] decode_rows(t[i].1)) is Some by {
                if i > 0 {
                    assert(t[i] == rest[i - 1]);
                }
            }
            assert(batches_of(t) =~= seq![h] + batches_of(rest));
            lemma_concat_front(h, batches_of(rest));
        }
        lemma_cut_rows_split(r, rt, s - off, e - off);
    }
}

/// Removing rows from an entry takes exactly the rows between the bounds out
/// of the entry's rows and keeps the others in order; the pairs stay in key
/// order and the entry stays readable.
pub proof fn law_remove_rows_cuts_window(pairs: Pairs, name: Seq<char>, start: Bound, end: Bound)
    requires
        sorted(pairs),
        all_decode(entry_pairs(pairs, name)),
    ensures
        sorted(remove_rows(pairs, name, start, end)),
        all_decode(entry_pairs(remove_rows(pairs, name, start, end), name)),
        entry_rows(remove_rows(pairs, name, start, end), name)
            == cut_rows(entry_rows(pairs, name), first_row(start), removal_end(end)),
{
    let lo = lo_key(name);
    let hi = hi_key(name);
    lemma_remove_rows_sorted(pairs, name, start, end);
    lemma_interval_ordered(name);
    lemma_lower_bound(pairs, lo);
    lemma_lower_bound(pairs, hi);
    let a = lower_bound(pairs, lo);
    let b = lower_bound(pairs, hi);
    let mid = pairs.subrange(a, b);
    assert(mid == entry_pairs(pairs, name));
    let s = first_row(start);
    let e = removal_end(end);
    let t = trim_pairs(mid, s, e, 0);
    lemma_trim_keys(mid, s, e, 0);
    lemma_trim_rows(mid, s, e, 0);
    let r = remove_rows(pairs, name, start, end);
    let m = t.len() as int;
    assert(r == pairs.subrange(0, a) + t + pairs.subrange(b, pairs.len() as int));
    // Every kept batch still lies in the entry's interval.
    assert forall|x: int| 0 <= x < m implies !key_lt(#[trigger] t[x].0, lo) && key_lt(t[x].0, hi) by {
        let j = choose|j: int| 0 <= j < mid.len() && t[x].0 == mid[j].0;
        lemma_range_of_member(pairs, lo, hi, j);
    }
    if b < pairs.len() {
        if key_lt(pairs[b].0, lo) {
            lemma_lt_transitive(pairs[b].0, lo, hi);
        }
    }
    assert(is_lower_bound(r, lo, a)) by {
        assert forall|j: int| 0 <= j < a implies key_lt(#[trigger] r[j].0, lo) by {
            assert(r[j] == pairs[j]);
        }
        if a < r.len() {
            if m > 0 {
                assert(r[a] == t[0]);
            } else {
                assert(r[a] == pairs[b]);
            }
        }
    }
    assert(is_lower_bound(r, hi, a + m)) by {
        assert forall|j: int| 0 <= j < a + m implies key_lt(#[trigger] r[j].0, hi) by {
            if j < a {
                assert(r[j] == pairs[j]);
                lemma_lt_transitive(pairs[j].0, lo, hi);
            } else {
                assert(r[j] == t[j - a]);
            }
        }
        if a + m < r.len() {
            assert(r[a + m] == pairs[b]);
        }
    }
    lemma_lower_bound_unique(r, lo, a);
    lemma_lower_bound_unique(r, hi, a + m);
    assert(entry_pairs(r, name) =~= t);
}

/// `n` is followed, inside `x`, by a suffix character.
pub open spec fn named_by(x: Seq<char>, n: Seq<char>) -> bool {
    &&& n.len() < x.len()
    &&& x.take(n.len() as int) == n
    &&& is_suffix_char(x[n.len() as int])
}

/// Keeping first occurrences leaves no value twice and loses no value.
proof fn lemma_distinct(s: Seq<Seq<char>>)
    ensures
        forall|i: int, j: int| 0 <= i < j < distinct(s).len() ==> distinct(s)[i] != distinct(s)[j],
        forall|n: Seq<char>| distinct(s).contains(n) <==> s.contains(n),
    decreases s.len(),
{
    if s.len() > 0 {
        let t = s.drop_last();
        lemma_distinct(t);
        let d = distinct(t);
        assert forall|n: Seq<char>| distinct(s).contains(n) <==> s.contains(n) by {
            if s.contains(n) {
                let k = choose|k: int| 0 <= k < s.len() && s[k] == n;
                if k < t.len() {
                    assert(t[k] == n);
                    assert(t.contains(n));
                }
            }
            if t.contains(n) {
                let k = choose|k: int| 0 <= k < t.len() && t[k] == n;
                assert(s[k] == n);
            }
            if !d.contains(s.last()) && n == s.last() {
                assert(d.push(s.last())[d.len() as int] == n);
            }
            if !d.contains(s.last()) && d.push(s.last()).contains(n) && n != s.last() {
                let k = choose|k: int| 0 <= k < d.len() + 1 && d.push(s.last())[k] == n;
                assert(d[k] == n);
            }
            if d.contains(n) && !d.contains(s.last()) {
                let k = choose|k: int| 0 <= k < d.len() && d[k] == n;
                assert(d.push(s.last())[k] == n);
            }
        }
    }
}

/// The names of a run of pairs are the names of its keys.
proof fn lemma_all_names(ps: Pairs, n: Seq<char>)
    ensures
        all_names(ps).contains(n) <==> exists|j: int| 0 <= j < ps.len() && #[trigger] key_names(ps[j].0).contains(n),
    decreases ps.len(),
{
    if ps.len() > 0 {
        let t = ps.drop_last();
        lemma_all_names(t, n);
        let a = all_names(t);
        let b = key_names(ps.last().0);
        if (a + b).contains(n) {
            let k = choose|k: int| 0 <= k < (a + b).len() && (a + b)[k] == n;
            if k < a.len() {
                assert(a[k] == n);
                let j = choose|j: int| 0 <= j < t.len() && #[trigger] key_names(t[j].0).contains(n);
                assert(t[j] == ps[j]);
            } else {
                assert(b[k - a.len()] == n);
                assert(key_names(ps[ps.len() - 1].0).contains(n));
            }
        }
        if exists|j: int| 0 <= j < ps.len() && #[trigger] key_names(ps[j].0).contains(n) {
            let j = choose|j: int| 0 <= j < ps.len() && #[trigger] key_names(ps[j].0).contains(n);
            if j < t.len() {
                assert(t[j] == ps[j]);
                let k = choose|k: int| 0 <= k < a.len() && a[k] == n;
                assert((a + b)[k] == n);
            } else {
                let k = choose|k: int| 0 <= k < b.len() && b[k] == n;
                assert((a + b)[a.len() + k] == n);
            }
        }
    } else {
        assert(!all_names(ps).contains(n));
    }
}

/// The names of a key are exactly the prefixes a suffix character follows.
proof fn lemma_key_names(x: Seq<char>, n: Seq<char>)
    ensures
        key_names(x).contains(n) <==> named_by(x, n),
    decreases x.len(),
{
    if x.len() > 0 {
        let p = x.drop_last();
        lemma_key_names(p, n);
        assert(named_by(x, n) <==> named_by(p, n) || (n == p && is_suffix_char(x.last()))) by {
            if n.len() < p.len() {
                assert(x.take(n.len() as int) =~= p.take(n.len() as int));
                assert(x[n.len() as int] == p[n.len() as int]);
            }
            if n.len() == p.len() {
                assert(x.take(n.len() as int) =~= p);
            }
        }
        if is_suffix_char(x.last()) {
            let r = seq![p] + key_names(p);
            if r.contains(n) && n != p {
                let k = choose|k: int| 0 <= k < r.len() && r[k] == n;
                assert(key_names(p)[k - 1] == n);
            }
            if key_names(p).contains(n) {
                let k = choose|k: int| 0 <= k < key_names(p).len() && key_names(p)[k] == n;
                assert(r[k + 1] == n);
            }
            if n == p {
                assert(r[0] == n);
            }
            if named_by(p, n) {
                assert(n.len() < p.len());
            }
        } else {
            if named_by(p, n) {
                assert(n.len() < p.len());
            }
        }
    } else {
        assert(!key_names(x).contains(n));
    }
}

/// A key lies in the interval of `n` exactly when `n` followed by a suffix
/// character begins it.
pub proof fn lemma_interval_member(x: Seq<char>, n: Seq<char>)
    ensures
        in_range(x, lo_key(n), hi_key(n)) <==> named_by(x, n),
    decreases n.len(),
{
    let lo = lo_key(n);
    let hi = hi_key(n);
    if x.len() == 0 {
        assert(!key_lt(lo, x));
        assert(lo != x);
        assert(!in_range(x, lo, hi));
        assert(!named_by(x, n));
    } else if n.len() == 0 {
        assert(lo =~= seq!['\u{F0000}']);
        assert(hi =~= seq!['\u{10FFFF}']);
        assert(x.take(0) =~= n);
        assert(lo.drop_first() =~= Seq::<char>::empty());
        assert(hi.drop_first() =~= Seq::<char>::empty());
        if lo == x {
            assert(x[0] == '\u{F0000}');
        }
        if x[0] == '\u{F0000}' && x.len() == 1 {
            assert(x =~= lo);
        }
        assert(key_lt(x, hi) ==> (x[0] as int) < 0x10FFFF) by {
            if x[0] == hi[0] {
                assert(!key_lt(x.drop_first(), hi.drop_first()));
            }
        }
        assert(key_le(lo, x) ==> (x[0] as int) >= 0xF0000);
        assert(x.take(0) =~= n);
        assert(in_range(x, lo, hi) ==> named_by(x, n));
        if named_by(x, n) {
            assert((hi[0] as int) == 0x10FFFF);
            assert((lo[0] as int) == 0xF0000);
            assert(key_lt(x, hi));
            if (x[0] as int) == 0xF0000 {
                assert(x[0] == lo[0]);
                if x.len() == 1 {
                    assert(x =~= lo);
                } else {
                    assert(key_lt(lo.drop_first(), x.drop_first()));
                    assert(key_lt(lo, x));
                }
            } else {
                assert(key_lt(lo, x));
            }
        }
    } else {
        let c = n[0];
        let n2 = n.drop_first();
        let x2 = x.drop_first();
        lemma_interval_member(x2, n2);
        assert(lo.drop_first() =~= lo_key(n2));
        assert(hi.drop_first() =~= hi_key(n2));
        assert(lo[0] == c && hi[0] == c);
        if x[0] == c {
            assert(lo == x <==> lo_key(n2) == x2) by {
                if lo_key(n2) == x2 {
                    assert forall|i: int| 0 <= i < lo.len() implies lo[i] == x[i] by {
                        if i > 0 {
                            assert(lo[i] == lo.drop_first()[i - 1]);
                            assert(x[i] == x2[i - 1]);
                        }
                    }
                    assert(lo =~= x);
                }
            }
            assert(key_lt(lo, x) == key_lt(lo_key(n2), x2));
            assert(key_lt(x, hi) == key_lt(x2, hi_key(n2)));
            assert(named_by(x, n) <==> named_by(x2, n2)) by {
                if n.len() < x.len() {
                    assert(x.take(n.len() as int).drop_first() =~= x2.take(n2.len() as int));
                    assert(x2[n2.len() as int] == x[n.len() as int]);
                    if x2.take(n2.len() as int) == n2 {
                        assert forall|i: int| 0 <= i < n.len() implies x.take(n.len() as int)[i] == n[i] by {
                            if i > 0 {
                                assert(x[i] == x2[i - 1]);
                                assert(n[i] == n2[i - 1]);
                                assert(x2.take(n2.len() as int)[i - 1] == x2[i - 1]);
                            }
                        }
                        assert(x.take(n.len() as int) =~= n);
                    }
                }
            }
            assert(in_range(x, lo, hi) ==> named_by(x, n));
            assert(named_by(x, n) ==> in_range(x, lo, hi));
        assert(named_by(x, n) ==> in_range(x, lo, hi));
        } else {
            assert(lo != x);
            assert((x[0] as int) != (c as int));
            if (x[0] as int) < (c as int) {
                assert(!key_lt(lo, x));
            } else {
                assert(!key_lt(x, hi));
            }
            if n.len() < x.len() && x.take(n.len() as int) == n {
                assert(x.take(n.len() as int)[0] == x[0]);
            }
            assert(!in_range(x, lo, hi));
            assert(!named_by(x, n));
        }
    }
}

/// In sorted pairs, an entry holds a pair exactly when some stored key lies
/// in its interval.
proof fn lemma_entry_occupied(pairs: Pairs, n: Seq<char>)
    requires
        sorted(pairs),
    ensures
        entry_pairs(pairs, n).len() > 0 <==> exists|j: int| 0 <= j < pairs.len() && in_range(#[trigger] pairs[j].0, lo_key(n), hi_key(n)),
{
    let lo = lo_key(n);
    let hi = hi_key(n);
    lemma_interval_ordered(n);
    lemma_lower_bound(pairs, lo);
    lemma_lower_bound(pairs, hi);
    lemma_lower_bound_monotonic(pairs, lo, hi);
    let a = lower_bound(pairs, lo);
    let b = lower_bound(pairs, hi);
    if entry_pairs(pairs, n).len() > 0 {
        lemma_range_of_member(pairs, lo, hi, 0);
        assert(entry_pairs(pairs, n)[0] == pairs[a]);
        lemma_lt_total(pairs[a].0, lo);
        assert(in_range(pairs[a].0, lo, hi));
    }
    if exists|j: int| 0 <= j < pairs.len() && in_range(#[trigger] pairs[j].0, lo, hi) {
        let j = choose|j: int| 0 <= j < pairs.len() && in_range(#[trigger] pairs[j].0, lo, hi);
        if j < a {
            lemma_lt_irreflexive(lo);
            lemma_lt_asymmetric(lo, pairs[j].0);
        }
        if j >= b {
            crate::store::lemma_lower_bound_after(pairs, hi, j);
        }
        assert(entry_pairs(pairs, n).len() == b - a);
    }
}

/// The names that `all_keys` lists: each name once, and exactly the names
/// whose entry holds a batch (whose `Entry` is occupied).
pub proof fn law_listed_names(pairs: Pairs)
    requires
        sorted(pairs),
    ensures
        forall|i: int, j: int| 0 <= i < j < listed_names(pairs).len()
            ==> listed_names(pairs)[i] != listed_names(pairs)[j],
        forall|n: Seq<char>| listed_names(pairs).contains(n) <==> entry_pairs(pairs, n).len() > 0,
{
    lemma_distinct(all_names(pairs));
    assert forall|n: Seq<char>| listed_names(pairs).contains(n) <==> entry_pairs(pairs, n).len() > 0 by {
        lemma_all_names(pairs, n);
        lemma_entry_occupied(pairs, n);
        if all_names(pairs).contains(n) {
            let j = choose|j: int| 0 <= j < pairs.len() && #[trigger] key_names(pairs[j].0).contains(n);
            lemma_key_names(pairs[j].0, n);
            lemma_interval_member(pairs[j].0, n);
            assert(in_range(pairs[j].0, lo_key(n), hi_key(n)));
        }
        if entry_pairs(pairs, n).len() > 0 {
            let j = choose|j: int| 0 <= j < pairs.len() && in_range(#[trigger] pairs[j].0, lo_key(n), hi_key(n));
            lemma_key_names(pairs[j].0, n);
            lemma_interval_member(pairs[j].0, n);
            assert(key_names(pairs[j].0).contains(n));
        }
    }
}

/// Trimming batches by a window that selects none of their rows keeps them
/// all as they are.
proof fn lemma_trim_nothing(ps: Pairs, s: int, e: int, off: int)
    requires
        e <= s || s - off >= concat_batches(batches_of(ps)).len(),
    ensures
        trim_pairs(ps, s, e, off) == ps,
    decreases ps.len(),
{
    if ps.len() > 0 {
        let r = decode_rows(ps[0].1).unwrap();
        let c = r.len() as int;
        let tail = ps.drop_first();
        assert(batches_of(ps) =~= seq![r] + batches_of(tail));
        lemma_concat_front(r, batches_of(tail));
        lemma_trim_nothing(tail, s, e, off + c);
        assert(seq![ps[0]] + tail =~= ps);
    } else {
        assert(trim_pairs(ps, s, e, off) =~= ps);
    }
}

/// Removing a window of rows that selects none of the entry's rows (it ends
/// before it starts, or starts past the last row) leaves the store as it was.
pub proof fn law_remove_empty_window(pairs: Pairs, name: Seq<char>, start: Bound, end: Bound)
    requires
        sorted(pairs),
        removal_end(end) <= first_row(start) || first_row(start) >= entry_rows(pairs, name).len(),
    ensures
        remove_rows(pairs, name, start, end) == pairs,
{
    lemma_remove_rows_sorted(pairs, name, start, end);
    lemma_lower_bound(pairs, lo_key(name));
    lemma_lower_bound(pairs, hi_key(name));
    let a = lower_bound(pairs, lo_key(name));
    let b = lower_bound(pairs, hi_key(name));
    let mid = pairs.subrange(a, b);
    assert(mid == entry_pairs(pairs, name));
    lemma_trim_nothing(mid, first_row(start), removal_end(end), 0);
    assert(pairs.subrange(0, a) + mid + pairs.subrange(b, pairs.len() as int) =~= pairs);
}

/// Removing an entry that its first batch made occupied gives back the
/// store it was added to.
pub proof fn law_remove_undoes_first_append(pairs: Pairs, name: Seq<char>, rows: Seq<Seq<u8>>)
    requires
        sorted(pairs),
        entry_pairs(pairs, name).len() == 0,
        append_key(pairs, name) is Some,
    ensures
        replace_range(append_batch(pairs, name, rows).unwrap(), lo_key(name), hi_key(name), None) == pairs,
{
    law_append_extends_entry(pairs, name, rows);
    let lo = lo_key(name);
    let hi = hi_key(name);
    let k = append_key(pairs, name).unwrap();
    let v = encode_rows(rows);
    lemma_interval_ordered(name);
    lemma_lower_bound(pairs, lo);
    lemma_lower_bound(pairs, hi);
    lemma_lower_bound_monotonic(pairs, lo, hi);
    let a = lower_bound(pairs, lo);
    let b = lower_bound(pairs, hi);
    assert(a == b);
    let p = pairs.insert(b, (k, v));
    if b < pairs.len() {
        if key_lt(pairs[b].0, lo) {
            lemma_lt_transitive(pairs[b].0, lo, hi);
        }
    }
    assert(is_lower_bound(p, lo, a)) by {
        assert forall|j: int| 0 <= j < a implies key_lt(#[trigger] p[j].0, lo) by {
            assert(p[j] == pairs[j]);
        }
        lemma_lt_asymmetric(lo, k);
    }
    assert(is_lower_bound(p, hi, b + 1)) by {
        assert forall|j: int| 0 <= j < b + 1 implies key_lt(#[trigger] p[j].0, hi) by {
            if j < b {
                assert(p[j] == pairs[j]);
                lemma_lt_transitive(pairs[j].0, lo, hi);
            }
        }
        if b + 1 < p.len() {
            assert(p[b + 1] == pairs[b]);
        }
    }
    lemma_lower_bound_unique(p, lo, a);
    lemma_lower_bound_unique(p, hi, b + 1);
    assert(cut_range(p, lo, hi) =~= pairs);
}

/// The intervals of two different names share no key, as long as neither
/// name holds a suffix character itself.
pub proof fn law_intervals_disjoint(x: Seq<char>, n1: Seq<char>, n2: Seq<char>)
    requires
        n1 != n2,
        forall|i: int| 0 <= i < n1.len() ==> !is_suffix_char(#[trigger] n1[i]),
        forall|i: int| 0 <= i < n2.len() ==> !is_suffix_char(#[trigger] n2[i]),
    ensures
        !(in_range(x, lo_key(n1), hi_key(n1)) && in_range(x, lo_key(n2), hi_key(n2))),
{
    lemma_interval_member(x, n1);
    lemma_interval_member(x, n2);
    if named_by(x, n1) && named_by(x, n2) {
        if n1.len() == n2.len() {
            assert(n1 == n2);
        } else if n1.len() < n2.len() {
            assert(n2[n1.len() as int] == x.take(n2.len() as int)[n1.len() as int]);
        } else {
            assert(n1[n2.len() as int] == x.take(n1.len() as int)[n2.len() as int]);
        }
    }
}

/// The pairs a cursor over `[lo, hi)` walks are exactly the stored pairs
/// whose keys lie in `[lo, hi)`, each once, in key order.
pub proof fn law_range_holds_the_keys_between(pairs: Pairs, lo: Seq<char>, hi: Seq<char>)
    requires
        sorted(pairs),
    ensures
        sorted(range_of(pairs, lo, hi)),
        forall|t: int| 0 <= t < range_of(pairs, lo, hi).len() ==> pairs.contains(#[trigger] range_of(pairs, lo, hi)[t]),
        forall|j: int| 0 <= j < pairs.len() ==>
            (in_range(#[trigger] pairs[j].0, lo, hi) <==> range_of(pairs, lo, hi).contains(pairs[j])),
{
    lemma_cut_range_sorted(pairs, lo, hi);
    lemma_lower_bound(pairs, lo);
    lemma_lower_bound(pairs, hi);
    let a = lower_bound(pairs, lo);
    let b = lower_bound(pairs, hi);
    let r = range_of(pairs, lo, hi);
    assert forall|t: int| 0 <= t < r.len() implies pairs.contains(#[trigger] r[t]) by {
        assert(r[t] == pairs[a + t]);
    }
    assert forall|j: int| 0 <= j < pairs.len() implies
        (in_range(#[trigger] pairs[j].0, lo, hi) <==> r.contains(pairs[j])) by {
        if in_range(pairs[j].0, lo, hi) {
            if j < a {
                lemma_lt_irreflexive(lo);
                lemma_lt_asymmetric(lo, pairs[j].0);
            }
            if j >= b {
                crate::store::lemma_lower_bound_after(pairs, hi, j);
            }
            assert(r[j - a] == pairs[j]);
        }
        if r.contains(pairs[j]) {
            let t = choose|t: int| 0 <= t < r.len() && r[t] == pairs[j];
            assert(r[t] == pairs[a + t]);
            if a + t != j {
                if a + t < j {
                    assert(key_lt(pairs[a + t].0, pairs[j].0));
                } else {
                    assert(key_lt(pairs[j].0, pairs[a + t].0));
                }
                lemma_lt_irreflexive(pairs[j].0);
            }
            lemma_range_of_member(pairs, lo, hi, t);
            lemma_lt_total(pairs[j].0, lo);
        }
    }
}

/// Rolling back a transaction restores the pairs from when it was opened,
/// however many transactions were opened inside it and are still open: the
/// store is as `begin` left it, with the transaction itself still open.
pub proof fn law_rollback_restores_its_own_snapshot(
    v: StoreView,
    level: nat,
    inner: nat,
    first: Pairs,
    second: Pairs,
)
    requires
        v.wf(),
        1 <= level,
        v.open_levels() < level,
    ensures
        v.begin(level).with_pairs(first).begin(inner).with_pairs(second).rollback(level) == v.begin(level),
        v.begin(level).with_pairs(first).begin(inner).with_pairs(second).rollback(level).pairs == v.pairs,
{
    let w = v.begin(level);
    let x = w.with_pairs(first).begin(inner).with_pairs(second);
    assert(w.saved.len() == level);
    assert(x.saved.len() >= level);
    assert(x.saved.subrange(0, level as int) =~= w.saved);
    assert(x.saved[level - 1] == w.saved[level - 1]);
    assert(w.saved[level - 1] == v.pairs);
    assert(x.rollback(level).saved =~= w.saved);
}

/// Undoing the transactions deeper than `level` restores the pairs from when
/// the first of them was opened, however many were opened inside it: with
/// `level` transactions open before, the store is back as it was.
pub proof fn law_close_above_restores_the_outermost_snapshot(
    v: StoreView,
    outer: nat,
    inner: nat,
    first: Pairs,
    second: Pairs,
)
    requires
        v.wf(),
        v.open_levels() < outer,
    ensures
        v.begin(outer).with_pairs(first).begin(inner).with_pairs(second).close_above(v.open_levels()) == v,
{
    let level = v.open_levels();
    let w = v.begin(outer);
    let x = w.with_pairs(first).begin(inner).with_pairs(second);
    assert(x.saved.len() >= outer);
    assert(x.saved.subrange(0, outer as int) =~= w.saved);
    assert(x.saved[level as int] == w.saved[level as int]);
    assert(w.saved[level as int] == v.pairs);
    assert(x.close_above(level).saved =~= v.saved);
}

/// Removing rows from an entry keeps exactly the rows outside the window and
/// in their order. The window starts at the start bound's first row (an
/// excluded start `a` starts at `a + 1`) and ends before `n + 1` for an
/// included end `n` below `usize::MAX`, before `n` for an excluded end `n`;
/// an included `usize::MAX` wraps to an empty window, and an unbounded end
/// reaches `usize::MAX`.
pub proof fn law_remove_takes_out_the_rows_between_the_bounds(
    pairs: Pairs,
    name: Seq<char>,
    start: Bound,
    end: Bound,
)
    requires
        sorted(pairs),
        all_decode(entry_pairs(pairs, name)),
    ensures
        ({
            let rows = entry_rows(pairs, name);
            let n = rows.len() as int;
            let s: int = match start {
                Bound::Included(a) => a as int,
                Bound::Excluded(a) => a + 1,
                Bound::Unbounded => 0,
            };
            let e: int = match end {
                Bound::Included(b) => if b == usize::MAX { 0 } else { b + 1 },
                Bound::Excluded(b) => b as int,
                Bound::Unbounded => usize::MAX as int,
            };
            let lo = if s < n { s } else { n };
            let hi = if e <= lo { lo } else if e < n { e } else { n };
            entry_rows(remove_rows(pairs, name, start, end), name)
                == rows.subrange(0, lo) + rows.subrange(hi, n)
        }),
{
    law_remove_rows_cuts_window(pairs, name, start, end);
}

/// Removing with an included end `n` below `usize::MAX` takes out row `n`
/// whenever the window starts at or before it: afterwards the entry holds
/// the rows before the window's start and the rows after `n`, in order.
pub proof fn law_remove_included_end_takes_that_row(pairs: Pairs, name: Seq<char>, start: Bound, n: usize)
    requires
        sorted(pairs),
        all_decode(entry_pairs(pairs, name)),
        n < usize::MAX,
    ensures
        ({
            let rows = entry_rows(pairs, name);
            let s: int = match start {
                Bound::Included(a) => a as int,
                Bound::Excluded(a) => a + 1,
                Bound::Unbounded => 0,
            };
            s <= n < rows.len() ==> entry_rows(remove_rows(pairs, name, start, Bound::Included(n)), name)
                == rows.subrange(0, s) + rows.subrange(n + 1, rows.len() as int)
        }),
{
    law_remove_takes_out_the_rows_between_the_bounds(pairs, name, start, Bound::Included(n));
}

/// The rows read between two bounds are exactly the rows whose index the
/// bounds contain, in order: from the start bound's first row (an excluded
/// start `a` begins at `a + 1`) up to and including an included end, up to
/// but not including an excluded end, and to the last row when the end is
/// unbounded (a row index is a `usize`), whatever the start bound is.
pub proof fn law_range_reads_the_rows_between_the_bounds(rows: Seq<Seq<u8>>, start: Bound, end: Bound)
    ensures
        ({
            let n = rows.len() as int;
            let s: int = match start {
                Bound::Included(a) => a as int,
                Bound::Excluded(a) => a + 1,
                Bound::Unbounded => 0,
            };
            let e: int = match end {
                Bound::Included(b) => b + 1,
                Bound::Excluded(b) => b as int,
                Bound::Unbounded => usize::MAX + 1,
            };
            let lo = if s < n { s } else { n };
            let hi = if e <= lo { lo } else if e < n { e } else { n };
            &&& window(rows, start, end) == rows.subrange(lo, hi)
            &&& forall|i: int| 0 <= i < n ==> (window(rows, start, end).contains(rows[i]) <== (s <= i < e))
        }),
{
    let n = rows.len() as int;
    let s: int = match start {
        Bound::Included(a) => a as int,
        Bound::Excluded(a) => a + 1,
        Bound::Unbounded => 0,
    };
    let e: int = match end {
        Bound::Included(b) => b + 1,
        Bound::Excluded(b) => b as int,
        Bound::Unbounded => usize::MAX + 1,
    };
    let lo = if s < n { s } else { n };
    let hi = if e <= lo { lo } else if e < n { e } else { n };
    let w = window(rows, start, end);
    assert(first_row(start) == s);
    assert(crate::rows::past_row(end) == e);
    assert(w == rows.subrange(lo, hi));
    assert forall|i: int| 0 <= i < n && s <= i < e implies w.contains(rows[i]) by {
        assert(w[i - lo] == rows[i]);
    }
}

/// Appending to an entry has a key whenever the entry's interval has room:
/// when the last character of the entry's last key (or of the interval's
/// first key, for an empty entry) has a next character, and the key with
/// that next character in its place sorts before the interval's end, the
/// append goes under that key.
pub proof fn law_append_key_exists_when_there_is_room(pairs: Pairs, name: Seq<char>)
    ensures
        ({
            let es = entry_pairs(pairs, name);
            let start = if es.len() > 0 { es.last().0 } else { name.push('\u{F0000}') };
            let u = start.last() as int + 1;
            let key = start.drop_last().push(u as char);
            (u <= 0x10FFFF && !(0xD800 <= u <= 0xDFFF) && key_lt(key, name.push('\u{10FFFF}')))
                ==> append_key(pairs, name) == Some(key)
        }),
{
}

/// An entry whose batches sit under its name and one character each, the
/// last below `U+10FFFE`, takes its next batch under the following
/// character; an empty entry takes its first batch under `U+F0001`.
pub proof fn law_append_key_of_an_entry(pairs: Pairs, name: Seq<char>, c: char)
    requires
        0xF0000 <= c as int,
        (c as int) < 0x10FFFE,
    ensures
        entry_pairs(pairs, name).len() == 0 ==> append_key(pairs, name) == Some(name.push('\u{F0001}')),
        entry_pairs(pairs, name).len() > 0 && entry_pairs(pairs, name).last().0 == name.push(c)
            ==> append_key(pairs, name) == Some(name.push(((c as int) + 1) as char)),
{
    let hi = name.push('\u{10FFFF}');
    assert(hi =~= name + seq!['\u{10FFFF}']);
    if entry_pairs(pairs, name).len() == 0 {
        let start = name.push('\u{F0000}');
        assert(start.drop_last() =~= name);
        let k = name.push('\u{F0001}');
        assert(k =~= name + seq!['\u{F0001}']);
        lemma_common_prefix(name, seq!['\u{F0001}'], seq!['\u{10FFFF}']);
        assert(seq!['\u{F0001}'].drop_first() =~= Seq::<char>::empty());
        assert(key_lt(seq!['\u{F0001}'], seq!['\u{10FFFF}']));
        law_append_key_exists_when_there_is_room(pairs, name);
    }
    if entry_pairs(pairs, name).len() > 0 && entry_pairs(pairs, name).last().0 == name.push(c) {
        let start = name.push(c);
        assert(start.drop_last() =~= name);
        let d = ((c as int) + 1) as char;
        let k = name.push(d);
        assert(k =~= name + seq![d]);
        lemma_common_prefix(name, seq![d], seq!['\u{10FFFF}']);
        assert(seq![d].drop_first() =~= Seq::<char>::empty());
        assert(key_lt(seq![d], seq!['\u{10FFFF}']));
        law_append_key_exists_when_there_is_room(pairs, name);
    }
}

} // verus!

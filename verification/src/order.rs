//! The order of keys: lexicographic over Unicode scalar values, which is the
//! order in which `str` compares (byte-wise over UTF-8).

use vstd::prelude::*;
use vstd::std_specs::iter::IteratorSpec;

verus! {

/// `a` sorts strictly before `b`.
pub open spec fn key_lt(a: Seq<char>, b: Seq<char>) -> bool
    decreases a.len(),
{
    if a.len() == 0 {
        b.len() > 0
    } else if b.len() == 0 {
        false
    } else if (a[0] as int) < (b[0] as int) {
        true
    } else if a[0] == b[0] {
        key_lt(a.drop_first(), b.drop_first())
    } else {
        false
    }
}

/// `a` sorts before `b` or equals it.
pub open spec fn key_le(a: Seq<char>, b: Seq<char>) -> bool {
    a == b || key_lt(a, b)
}

/// `k` lies in the half-open interval `[lo, hi)`.
pub open spec fn in_range(k: Seq<char>, lo: Seq<char>, hi: Seq<char>) -> bool {
    key_le(lo, k) && key_lt(k, hi)
}

pub proof fn lemma_lt_irreflexive(a: Seq<char>)
    ensures
        !key_lt(a, a),
    decreases a.len(),
{
    if a.len() > 0 {
        lemma_lt_irreflexive(a.drop_first());
    }
}

pub proof fn lemma_lt_asymmetric(a: Seq<char>, b: Seq<char>)
    ensures
        key_lt(a, b) ==> !key_lt(b, a),
    decreases a.len(),
{
    if a.len() > 0 && b.len() > 0 && a[0] == b[0] {
        lemma_lt_asymmetric(a.drop_first(), b.drop_first());
    }
}

pub proof fn lemma_lt_transitive(a: Seq<char>, b: Seq<char>, c: Seq<char>)
    requires
        key_lt(a, b),
        key_lt(b, c),
    ensures
        key_lt(a, c),
    decreases a.len(),
{
    if a.len() > 0 && b.len() > 0 && c.len() > 0 && a[0] == b[0] && b[0] == c[0] {
        lemma_lt_transitive(a.drop_first(), b.drop_first(), c.drop_first());
    }
}

pub proof fn lemma_lt_total(a: Seq<char>, b: Seq<char>)
    ensures
        a == b || key_lt(a, b) || key_lt(b, a),
    decreases a.len(),
{
    if a.len() > 0 && b.len() > 0 && a[0] == b[0] {
        lemma_lt_total(a.drop_first(), b.drop_first());
        if a.drop_first() == b.drop_first() {
            assert(a =~= seq![a[0]] + a.drop_first());
            assert(b =~= seq![b[0]] + b.drop_first());
        }
    } else if a.len() > 0 && b.len() > 0 {
        assert((a[0] as int) != (b[0] as int));
    } else if a.len() == 0 && b.len() == 0 {
        assert(a =~= b);
    }
}

/// Keys with a common prefix compare as their remainders do.
pub proof fn lemma_common_prefix(p: Seq<char>, a: Seq<char>, b: Seq<char>)
    ensures
        key_lt(p + a, p + b) == key_lt(a, b),
    decreases p.len(),
{
    if p.len() > 0 {
        lemma_common_prefix(p.drop_first(), a, b);
        assert((p + a).drop_first() =~= p.drop_first() + a);
        assert((p + b).drop_first() =~= p.drop_first() + b);
    } else {
        assert(p + a =~= a);
        assert(p + b =~= b);
    }
}

/// Whether `a` sorts strictly before `b`: the order in which `str` compares,
/// walked character by character.
pub fn str_lt(a: &str, b: &str) -> (r: bool)
    ensures
        r == key_lt(a@, b@),
{
    broadcast use vstd::string::axiom_spec_iter, vstd::string::next_postcondition;
    let ghost x = a@;
    let ghost y = b@;
    let mut xs = a.chars();
    let mut ys = b.chars();
    let ghost mut k: int = 0;
    assert(x.skip(0) =~= x);
    assert(y.skip(0) =~= y);
    loop
        invariant
            x == a@,
            y == b@,
            0 <= k <= x.len(),
            k <= y.len(),
            xs.remaining() == x.skip(k),
            ys.remaining() == y.skip(k),
            xs.obeys_prophetic_iter_laws(),
            ys.obeys_prophetic_iter_laws(),
            key_lt(x, y) == key_lt(x.skip(k), y.skip(k)),
        decreases x.len() - k,
    {
        let p = xs.next();
        let q = ys.next();
        match (p, q) {
            (None, None) => {
                return false;
            },
            (None, Some(_)) => {
                return true;
            },
            (Some(_), None) => {
                return false;
            },
            (Some(c), Some(d)) => {
                if c < d {
                    return true;
                }
                if c != d {
                    return false;
                }
                proof {
                    assert(x.skip(k).drop_first() =~= x.skip(k + 1));
                    assert(y.skip(k).drop_first() =~= y.skip(k + 1));
                    k = k + 1;
                }
            },
        }
    }
}

/// Whether `a` sorts before `b` or equals it, built on `str_lt`.
pub fn key_less_or_equal(a: &str, b: &str) -> (r: bool)
    ensures
        r == key_le(a@, b@),
{
    proof {
        lemma_lt_total(a@, b@);
        lemma_lt_irreflexive(a@);
        lemma_lt_asymmetric(a@, b@);
    }
    !str_lt(b, a)
}

} // verus!

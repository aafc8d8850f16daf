//! The store as a whole (`Frames`), its transactions (`Txn`) and its cursors
//! over a range of keys (`Range`).

use vstd::prelude::*;
use crate::error::StorageError;
use vstd::std_specs::iter::IteratorSpec;
use crate::order::{key_le, key_lt, lemma_lt_asymmetric, lemma_lt_irreflexive, lemma_lt_total, str_lt};
use crate::store::{
    is_lower_bound, lemma_lower_bound, lemma_lower_bound_after, lower_bound, range_of, replace_range, Pairs, Store, StoreView,
};

verus! {

/// Block size of the engine, in KiB.
pub const BLOCK_SIZE_KIB: u32 = 1024;

/// Page size of the engine, in bytes.
pub const PAGE_SIZE: u32 = 4096;

/// How hard batches are compressed.
#[derive(Copy, Clone)]
pub enum Compression {
    /// Fastest.
    Fast,
    /// Balanced.
    Default,
    /// Smaller output.
    Good,
    /// Smallest output.
    Best,
}

/// Whether the character `c` occurs in `s`.
fn contains_char(s: &str, c: char) -> (r: bool)
    ensures
        r == s@.contains(c),
{
    broadcast use vstd::string::axiom_spec_iter, vstd::string::next_postcondition;
    let ghost all = s@;
    let mut chars = s.chars();
    let ghost mut k: int = 0;
    assert(all.skip(0) =~= all);
    loop
        invariant
            all == s@,
            0 <= k <= all.len(),
            chars.remaining() == all.skip(k),
            chars.obeys_prophetic_iter_laws(),
            forall|j: int| 0 <= j < k ==> all[j] != c,
        decreases all.len() - k,
    {
        match chars.next() {
            Some(d) => {
                assert(d == all[k]);
                if d == c {
                    assert(all[k] == c);
                    assert(all.contains(c));
                    return true;
                }
                proof {
                    assert(all.skip(k).drop_first() =~= all.skip(k + 1));
                    k = k + 1;
                }
            },
            None => {
                assert(k == all.len());
                assert(!all.contains(c));
                return false;
            },
        }
    }
}

/// What `String::from_utf8_lossy` makes of `bytes`: the text they encode in
/// UTF-8, each invalid sequence replaced by `U+FFFD`.
pub uninterp spec fn utf8_lossy(bytes: Seq<u8>) -> Seq<char>;

/// Calls `String::from_utf8_lossy` and takes ownership of the text. Its
/// result depends on the bytes alone; the contract names it rather than
/// spelling out the replacement rules.
#[verifier::external_body]
fn lossy_text(bytes: &[u8]) -> (s: String)
    ensures
        s@ == utf8_lossy(bytes@),
{
    String::from_utf8_lossy(bytes).into_owned()
}

/// Turns the engine's structure report into text: `Empty` when there is no
/// report, else the report read as UTF-8, invalid sequences replaced.
pub fn structure_text(report: Option<Vec<u8>>) -> (r: Result<String, StorageError>)
    ensures
        report is None ==> (r matches Err(e) && e is Empty),
        report matches Some(b) ==> (r matches Ok(s) && s@ == utf8_lossy(b@)),
{
    match report {
        Some(b) => Ok(lossy_text(b.as_slice())),
        None => Err(StorageError::Empty),
    }
}

/// The abstract state of a `Frames`.
pub struct FramesView {
    /// Where the store lives.
    pub path: Seq<char>,
    /// Its pairs and open transactions.
    pub store: StoreView,
}

impl FramesView {
    /// The same store under the same path, with other pairs.
    pub open spec fn with_pairs(self, pairs: Pairs) -> FramesView {
        FramesView { path: self.path, store: self.store.with_pairs(pairs) }
    }
}

/// A store of frames, kept under a path.
pub struct Frames {
    path: String,
    store: Store,
}

impl View for Frames {
    type V = FramesView;

    closed spec fn view(&self) -> FramesView {
        FramesView { path: self.path@, store: self.store@ }
    }
}

impl Frames {
    /// The store's pairs are in key order and so is every saved state.
    pub open spec fn wf(&self) -> bool {
        self@.store.wf()
    }

    /// Opens a store under `path`; a path with a NUL character is refused.
    ///
    /// The store lives in memory only: it starts empty whatever the file at
    /// `path` holds, and nothing is written back to that file.
    pub fn path(path: &str) -> (r: Result<Frames, StorageError>)
        ensures
            r is Ok <==> !path@.contains('\0'),
            r matches Ok(f) ==> f@.path == path@ && f@.store.pairs.len() == 0
                && f@.store.saved.len() == 0 && f.wf(),
            r matches Err(e) ==> e is NulError,
    {
        if contains_char(path, '\0') {
            return Err(StorageError::NulError);
        }
        Ok(Frames { path: path.to_owned(), store: Store::new() })
    }

    /// The path the store lives under.
    pub fn file_path(&self) -> (r: Result<String, StorageError>)
        ensures
            r matches Ok(s) && s@ == self@.path,
    {
        Ok(self.path.clone())
    }

    /// The block size in bytes.
    pub fn block_size(&self) -> (r: Result<u32, StorageError>)
        ensures
            r matches Ok(n) && n == BLOCK_SIZE_KIB * 1024,
    {
        Ok(BLOCK_SIZE_KIB * 1024)
    }

    /// The page size in bytes.
    pub fn page_size(&self) -> (r: Result<u32, StorageError>)
        ensures
            r matches Ok(n) && n == PAGE_SIZE,
    {
        Ok(PAGE_SIZE)
    }

    /// Merges the store's segments. The store keeps no segments of its own to
    /// merge, so there is never work to do and nothing changes.
    pub fn compact(&mut self) -> (r: Result<bool, StorageError>)
        ensures
            r matches Ok(w) && !w,
            final(self)@ == old(self)@,
    {
        Ok(false)
    }

    /// The engine's report on the structure of the store's segments, as
    /// text. The in-memory store keeps no segments and so has no report:
    /// the answer is what `structure_text` gives for no report, `Empty`.
    pub fn info(&mut self) -> (r: Result<String, StorageError>)
        ensures
            r matches Err(e) && e is Empty,
            final(self)@ == old(self)@,
    {
        structure_text(None)
    }

    /// Opens a top-level transaction.
    pub fn txn(&mut self) -> (r: Result<Txn<'_>, StorageError>)
        requires
            old(self).wf(),
        ensures
            r matches Ok(t) && t.level == 1 && t.wf()
                && t.frames@ == (FramesView { path: old(self)@.path, store: old(self)@.store.close_above(0).begin(1) })
                && *final(t.frames) == *final(self),
    {
        Txn::new(self, 0)
    }

    /// A cursor over the pairs whose keys lie in `range`.
    ///
    /// No transaction can be alive while the store itself is borrowed, so
    /// transactions still open here were dropped without being closed: they
    /// are undone first, and the cursor sees only what was committed.
    pub fn range(&mut self, range: std::ops::Range<&str>) -> (r: Result<Range<'_>, StorageError>)
        requires
            old(self).wf(),
        ensures
            final(self)@ == (FramesView { path: old(self)@.path, store: old(self)@.store.close_above(0) }),
            final(self).wf(),
            r matches Ok(c) && c.source()@ == final(self)@ && c.wf()
                && c.remaining() == range_of(old(self)@.store.close_above(0).pairs, range.start@, range.end@)
                && c.position() == lower_bound(old(self)@.store.close_above(0).pairs, range.start@)
                && c.upper() == range.end@,
    {
        self.store.close_above(0);
        Ok(Range::new(&*self, range))
    }

    /// Removes every pair whose key lies in `range`, then sets the range's
    /// start to `with`, if given.
    pub(crate) fn replace(&mut self, range: std::ops::Range<&str>, with: Option<Vec<u8>>)
        requires
            old(self).wf(),
        ensures
            final(self).wf(),
            final(self)@.path == old(self)@.path,
            final(self)@.store == old(self)@.store.with_pairs(replace_range(
                old(self)@.store.pairs, range.start@, range.end@,
                match with { Some(v) => Some(v@), None => None },
            )),
    {
        let start = range.start;
        self.store.cut(start, range.end);
        match with {
            Some(v) => {
                self.store.set(start.to_owned(), v);
            },
            None => {},
        }
    }

    /// Undoes and closes the transactions nested deeper than `level`.
    pub(crate) fn close_above(&mut self, level: u32)
        requires
            old(self).wf(),
        ensures
            final(self).wf(),
            final(self)@ == (FramesView { path: old(self)@.path, store: old(self)@.store.close_above(level as nat) }),
    {
        self.store.close_above(level);
    }

    /// The store's engine, for the modules of this crate.
    pub(crate) fn store(&self) -> (s: &Store)
        ensures
            s@ == self@.store,
    {
        &self.store
    }

    /// Replaces the pairs at positions `[a, b)`.
    pub(crate) fn splice(&mut self, a: usize, b: usize, middle: Vec<(String, Vec<u8>)>)
        requires
            old(self).wf(),
            a <= b <= old(self)@.store.pairs.len(),
            crate::store::sorted(old(self)@.store.pairs.subrange(0, a as int) + crate::store::pairs_of(middle@)
                + old(self)@.store.pairs.subrange(b as int, old(self)@.store.pairs.len() as int)),
        ensures
            final(self).wf(),
            final(self)@.path == old(self)@.path,
            final(self)@.store == old(self)@.store.with_pairs(
                old(self)@.store.pairs.subrange(0, a as int) + crate::store::pairs_of(middle@)
                + old(self)@.store.pairs.subrange(b as int, old(self)@.store.pairs.len() as int)),
    {
        self.store.splice(a, b, middle);
    }
}

/// A transaction, nested at `level` (the top level is 1).
pub struct Txn<'a> {
    pub frames: &'a mut Frames,
    pub level: u32,
}

impl<'a> Txn<'a> {
    pub open spec fn wf(&self) -> bool {
        &&& self.frames.wf()
        &&& 1 <= self.level <= i32::MAX
    }

    /// Opens a transaction at level `txn + 1`; levels beyond `i32::MAX` are
    /// refused with `Limits`. Transactions nested deeper than `txn` that are
    /// still open were dropped without being closed: they are undone first.
    pub fn new(frames: &'a mut Frames, txn: u32) -> (r: Result<Self, StorageError>)
        requires
            old(frames).wf(),
            txn < u32::MAX,
        ensures
            r is Ok <==> txn + 1 <= i32::MAX,
            r matches Ok(t) ==> t.level == txn + 1 && t.wf()
                && t.frames@ == (FramesView { path: old(frames)@.path,
                    store: old(frames)@.store.close_above(txn as nat).begin((txn + 1) as nat) })
                && *final(t.frames) == *final(frames),
            r matches Err(e) ==> e is Limits && *final(frames) == *old(frames),
    {
        let level = txn + 1;
        match i32::try_from(level as u64) {
            Ok(_) => {
                frames.store.close_above(txn);
                frames.store.begin(level);
                Ok(Txn { frames, level })
            },
            Err(e) => Err(StorageError::from(e)),
        }
    }

    /// Opens a transaction nested in this one.
    pub fn txn(&mut self) -> (r: Result<Txn<'_>, StorageError>)
        requires
            old(self).wf(),
        ensures
            final(self).level == old(self).level,
            *final(final(self).frames) == *final(old(self).frames),
            r is Ok <==> old(self).level + 1 <= i32::MAX,
            r matches Ok(t) ==> t.level == old(self).level + 1 && t.wf()
                && t.frames@ == (FramesView { path: old(self).frames@.path,
                    store: old(self).frames@.store.close_above(old(self).level as nat)
                        .begin((old(self).level + 1) as nat) })
                && *final(t.frames) == *final(self).frames,
            r matches Err(e) ==> e is Limits && *final(self).frames == *old(self).frames,
    {
        Txn::new(&mut *self.frames, self.level)
    }

    /// Closes this transaction, keeping its changes; the changes of nested
    /// transactions that were dropped without being closed are undone.
    pub fn commit(self) -> (r: Result<(), StorageError>)
        requires
            self.wf(),
        ensures
            r is Ok,
            (*final(self.frames))@ == (FramesView { path: old(self.frames)@.path,
                store: old(self.frames)@.store.close_above(self.level as nat).commit((self.level - 1) as nat) }),
            final(self.frames).wf(),
    {
        self.frames.store.close_above(self.level);
        self.frames.store.commit(self.level - 1);
        Ok(())
    }

    /// Undoes this transaction's changes and closes it: the store is as it
    /// was when the transaction was opened, and the transactions that enclose
    /// it stay open.
    pub fn rollback(self) -> (r: Result<(), StorageError>)
        requires
            self.wf(),
        ensures
            r is Ok,
            (*final(self.frames))@ == (FramesView { path: old(self.frames)@.path,
                store: old(self.frames)@.store.rollback(self.level as nat).commit((self.level - 1) as nat) }),
            final(self.frames).wf(),
    {
        self.frames.store.rollback(self.level);
        self.frames.store.commit(self.level - 1);
        Ok(())
    }
}

/// The position of the greatest key of `s` at or before `k`: the pair with
/// key `k` if there is one, else the last pair before where `k` would stand.
pub open spec fn last_at_or_before(s: Pairs, k: Seq<char>) -> Option<int> {
    let b = lower_bound(s, k);
    if b < s.len() && s[b].0 == k {
        Some(b)
    } else if b > 0 {
        Some(b - 1)
    } else {
        None
    }
}

/// In sorted pairs, `last_at_or_before` finds the greatest key at or before
/// `k`, and finds none exactly when every key sorts after `k`.
pub proof fn lemma_last_at_or_before(s: Pairs, k: Seq<char>)
    requires
        crate::store::sorted(s),
    ensures
        match last_at_or_before(s, k) {
            Some(i) => 0 <= i < s.len() && key_le(s[i].0, k)
                && forall|j: int| 0 <= j < s.len() && key_le(#[trigger] s[j].0, k) ==> j <= i,
            None => forall|j: int| 0 <= j < s.len() ==> !key_le(#[trigger] s[j].0, k),
        },
{
    lemma_lower_bound(s, k);
    let b = lower_bound(s, k);
    assert forall|j: int| 0 <= j < s.len() && b <= j && key_le(#[trigger] s[j].0, k) implies j == b && s[b].0 == k by {
        lemma_lower_bound_after(s, k, j);
        if j > b {
            assert(key_lt(s[b].0, s[j].0));
            lemma_lower_bound_after(s, k, b);
            if s[j].0 == k {
                lemma_lt_asymmetric(s[b].0, k);
                lemma_lt_total(s[b].0, k);
            }
        }
    }
}

/// A cursor over the pairs of a store whose keys lie in a range.
pub struct Range<'a> {
    frames: &'a Frames,
    pos: usize,
    end: String,
}

impl<'a> Range<'a> {
    /// The store the cursor walks.
    pub closed spec fn source(&self) -> Frames {
        *self.frames
    }

    /// The pairs the cursor has yet to yield.
    pub closed spec fn remaining(&self) -> Pairs {
        let s = self.frames@.store.pairs;
        let b = lower_bound(s, self.end@);
        if self.pos <= b {
            s.subrange(self.pos as int, b)
        } else {
            Seq::empty()
        }
    }

    /// The position of the cursor among the store's pairs: the pair it
    /// yields next, if that pair lies in the range.
    pub closed spec fn position(&self) -> int {
        self.pos as int
    }

    /// The key the range stops before.
    pub closed spec fn upper(&self) -> Seq<char> {
        self.end@
    }

    pub closed spec fn wf(&self) -> bool {
        &&& self.frames.wf()
        &&& self.pos <= self.frames@.store.pairs.len()
    }

    pub(crate) fn new(frames: &'a Frames, range: std::ops::Range<&str>) -> (r: Range<'a>)
        requires
            frames.wf(),
        ensures
            r.source() == *frames,
            r.wf(),
            r.remaining() == range_of(frames@.store.pairs, range.start@, range.end@),
            r.position() == lower_bound(frames@.store.pairs, range.start@),
            r.upper() == range.end@,
    {
        let pos = frames.store.lower_bound(range.start);
        Range { frames, pos, end: range.end.to_owned() }
    }

    /// The position just past the cursor's last pair.
    fn stop(&self) -> (b: usize)
        requires
            self.wf(),
        ensures
            b == lower_bound(self.frames@.store.pairs, self.end@),
            is_lower_bound(self.frames@.store.pairs, self.end@, b as int),
    {
        self.frames.store.lower_bound(self.end.as_str())
    }

    /// The key under the cursor: the least stored key at or after the
    /// range's start that the cursor has not yet passed, whether or not it
    /// lies before the range's end; `Empty` when every stored key is passed.
    pub fn start(&self) -> (r: Result<&str, StorageError>)
        requires
            self.wf(),
        ensures
            self.position() < self.source()@.store.pairs.len() ==> (r matches Ok(k)
                && k@ == self.source()@.store.pairs[self.position()].0),
            self.position() >= self.source()@.store.pairs.len() ==> (r matches Err(e) && e is Empty),
    {
        if self.pos < self.frames.store.len() {
            Ok(self.frames.store.key(self.pos))
        } else {
            Err(StorageError::Empty)
        }
    }

    /// The greatest stored key at or before the range's end, wherever the
    /// cursor stands; `Empty` when every stored key sorts after the end.
    pub fn end(&self) -> (r: Result<&str, StorageError>)
        requires
            self.wf(),
        ensures
            match last_at_or_before(self.source()@.store.pairs, self.upper()) {
                Some(i) => r matches Ok(k) && k@ == self.source()@.store.pairs[i].0,
                None => r matches Err(e) && e is Empty,
            },
    {
        let b = self.stop();
        let store = self.frames.store();
        if b < store.len() && !str_lt(self.end.as_str(), store.key(b)) {
            proof {
                lemma_lt_total(self.end@, self.frames@.store.pairs[b as int].0);
            }
            Ok(store.key(b))
        } else if b > 0 {
            proof {
                if b < store@.pairs.len() {
                    lemma_lt_irreflexive(self.end@);
                }
            }
            Ok(store.key(b - 1))
        } else {
            proof {
                if b < store@.pairs.len() {
                    lemma_lt_irreflexive(self.end@);
                }
            }
            Err(StorageError::Empty)
        }
    }

    /// Yields the cursor's next pair.
    pub fn next(&mut self) -> (r: Option<(&'a str, &'a [u8])>)
        requires
            old(self).wf(),
        ensures
            final(self).wf(),
            final(self).source() == old(self).source(),
            final(self).upper() == old(self).upper(),
            old(self).remaining().len() == 0 ==> r is None && final(self).remaining() == old(self).remaining()
                && final(self).position() == old(self).position(),
            old(self).remaining().len() > 0 ==> (r matches Some((k, v))
                && (k@, v@) == old(self).remaining()[0]
                && final(self).remaining() == old(self).remaining().drop_first()
                && final(self).position() == old(self).position() + 1),
    {
        let store = self.frames.store();
        let ghost s = self.frames@.store.pairs;
        proof {
            lemma_lower_bound(s, self.end@);
        }
        if self.pos < store.len() && str_lt(store.key(self.pos), self.end.as_str()) {
            let k = store.key(self.pos);
            let v = store.value(self.pos);
            proof {
                if self.pos >= lower_bound(s, self.end@) {
                    lemma_lower_bound_after(s, self.end@, self.pos as int);
                }
            }
            self.pos = self.pos + 1;
            assert(self.remaining() =~= old(self).remaining().drop_first());
            Some((k, v))
        } else {
            proof {
                if self.pos < lower_bound(s, self.end@) {
                    assert(key_lt(s[self.pos as int].0, self.end@));
                }
            }
            None
        }
    }

    /// The cursor's last pair.
    pub fn last(self) -> (r: Option<(&'a str, &'a [u8])>)
        requires
            self.wf(),
        ensures
            self.remaining().len() == 0 ==> r is None,
            self.remaining().len() > 0 ==> (r matches Some((k, v)) && (k@, v@) == self.remaining().last()),
    {
        let b = self.stop();
        if self.pos < b {
            let store: &'a Store = self.frames.store();
            Some((store.key(b - 1), store.value(b - 1)))
        } else {
            None
        }
    }
}

} // verus!

//! Named entries. An entry keeps its batches under its name followed by one
//! character from the Private Use Areas: the first batch goes under
//! `U+F0001`, each further batch under the character after the last one's.

use vstd::prelude::*;
use crate::batch::{encode_rows, RecordBatch};
use crate::error::StorageError;
use crate::file::{Frames, FramesView, Txn};
use crate::order::str_lt;
use crate::order::key_lt;
use crate::store::{lemma_range_of_member, range_of, replace_range, Pairs};
use crate::text::{next_char, pop_char, push_char, successor};
use crate::laws::{law_appended_rows_read_back, law_removed_entry_is_vacant};
use crate::rows::{all_decode, batches_of, entry_rows};

verus! {

/// The first key of the interval of `name`.
pub open spec fn lo_key(name: Seq<char>) -> Seq<char> {
    name.push('\u{F0000}')
}

/// The key just past the interval of `name`.
pub open spec fn hi_key(name: Seq<char>) -> Seq<char> {
    name.push('\u{10FFFF}')
}

/// The pairs in the interval of `name`, in key order.
pub open spec fn entry_pairs(pairs: Pairs, name: Seq<char>) -> Pairs {
    range_of(pairs, lo_key(name), hi_key(name))
}

/// The key after which the next batch of `name` goes: the last key in its
/// interval, or the interval's first key when it holds none.
pub open spec fn append_start(pairs: Pairs, name: Seq<char>) -> Seq<char> {
    let es = entry_pairs(pairs, name);
    if es.len() > 0 {
        es.last().0
    } else {
        lo_key(name)
    }
}

/// The key the next batch of `name` goes under: the key after which it goes
/// with its last character moved to the next one, if there is a next one and
/// the key so made still lies inside the entry's interval.
pub open spec fn append_key(pairs: Pairs, name: Seq<char>) -> Option<Seq<char>> {
    let s = append_start(pairs, name);
    match next_char(s.last()) {
        Some(c) => if key_lt(s.drop_last().push(c), hi_key(name)) {
            Some(s.drop_last().push(c))
        } else {
            None
        },
        None => None,
    }
}

/// The pairs after appending a batch of `rows` to `name`, if there is a key
/// for it.
pub open spec fn append_batch(pairs: Pairs, name: Seq<char>, rows: Seq<Seq<u8>>) -> Option<Pairs> {
    match append_key(pairs, name) {
        Some(k) => Some(replace_range(pairs, k, hi_key(name), Some(encode_rows(rows)))),
        None => None,
    }
}

/// A half-open interval of keys `[min, max)`, made for the entry `key`.
pub struct Interval {
    pub key: String,
    pub min: String,
    pub max: String,
}

impl Interval {
    /// The interval holding every batch of `key`.
    pub fn over(key: String) -> (r: Result<Interval, StorageError>)
        ensures
            r matches Ok(i) && i.key@ == key@ && i.min@ == lo_key(key@) && i.max@ == hi_key(key@),
    {
        let mut min = key.clone();
        let mut max = key.clone();
        push_char(&mut max, '\u{10FFFF}');
        push_char(&mut min, '\u{F0000}');
        Ok(Interval { key, min, max })
    }

    /// The interval from just after `min` (its last character moved to the
    /// next one) up to `max`; `Full` when that character has no successor.
    pub fn open(min: String, max: String) -> (r: Result<Interval, StorageError>)
        requires
            min@.len() > 0,
        ensures
            r is Ok <==> next_char(min@.last()) is Some,
            r matches Ok(i) ==> i.key@ == min@.drop_last()
                && i.min@ == min@.drop_last().push(next_char(min@.last()).unwrap())
                && i.max@ == max@,
            r matches Err(e) ==> e is Full,
    {
        let mut min = min;
        let last = match pop_char(&mut min) {
            Some(c) => c,
            None => {
                return Err(StorageError::Full);
            },
        };
        let key = min.clone();
        match successor(last) {
            Some(c) => {
                push_char(&mut min, c);
                Ok(Interval { key, min, max })
            },
            None => Err(StorageError::Full),
        }
    }

    /// Gives back the key the interval was made for.
    pub fn into_key(self) -> (k: String)
        ensures
            k@ == self.key@,
    {
        self.key
    }

    /// The interval as a `Range`.
    pub fn range(&self) -> (r: std::ops::Range<&str>)
        ensures
            r.start@ == self.min@,
            r.end@ == self.max@,
    {
        self.min.as_str()..self.max.as_str()
    }

    /// The first key of the interval.
    pub fn min(&self) -> (r: &str)
        ensures
            r@ == self.min@,
    {
        self.min.as_str()
    }

    /// The key just past the interval.
    pub fn max(&self) -> (r: &str)
        ensures
            r@ == self.max@,
    {
        self.max.as_str()
    }

    /// The key the interval was made for.
    pub fn as_ref(&self) -> (r: &str)
        ensures
            r@ == self.key@,
    {
        self.key.as_str()
    }
}

/// A view into a single entry, which may either be vacant or occupied.
pub enum Entry<'a> {
    Vacant(VacantEntry<'a>),
    Occupied(OccupiedEntry<'a>),
}

/// An entry that holds no batch.
pub struct VacantEntry<'a> {
    pub frames: &'a mut Frames,
    pub name: String,
}

/// An entry that holds at least one batch.
pub struct OccupiedEntry<'a> {
    pub frames: &'a mut Frames,
    pub interval: Interval,
}

impl<'a> VacantEntry<'a> {
    /// The store is well formed and holds no batch of the entry.
    pub open spec fn wf(&self) -> bool {
        &&& self.frames.wf()
        &&& entry_pairs(self.frames@.store.pairs, self.name@).len() == 0
    }

    /// Takes ownership of the key.
    pub fn into_key(self) -> (k: String)
        ensures
            k@ == self.name@,
            *final(self.frames) == *old(self.frames),
    {
        self.name
    }

    /// The key that inserting through this entry would use.
    pub fn key(&self) -> (k: &str)
        ensures
            k@ == self.name@,
    {
        self.name.as_str()
    }

    /// Stores `value` as the entry's first batch and gives the entry back occupied.
    pub fn insert_entry(self, value: RecordBatch) -> (r: Result<OccupiedEntry<'a>, StorageError>)
        requires
            self.wf(),
        ensures
            match append_batch(old(self.frames)@.store.pairs, self.name@, value@) {
                Some(p) => r matches Ok(o) && o.wf() && o.interval.key@ == self.name@
                    && o.frames@ == old(self.frames)@.with_pairs(p)
                    && *final(o.frames) == *final(self.frames)
                    && all_decode(entry_pairs(p, self.name@))
                    && entry_rows(p, self.name@) == value@,
                None => r matches Err(e) && e is Full && *final(self.frames) == *old(self.frames),
            },
    {
        let interval = match Interval::over(self.name) {
            Ok(i) => i,
            Err(e) => {
                return Err(e);
            },
        };
        let ghost pairs = self.frames@.store.pairs;
        proof {
            assert(batches_of(entry_pairs(pairs, self.name@)) =~= Seq::<Seq<Seq<u8>>>::empty());
            assert(Seq::<Seq<u8>>::empty() + value@ =~= value@);
        }
        let mut occupied = OccupiedEntry { frames: self.frames, interval };
        match occupied.insert_entry(value) {
            Ok(_) => Ok(occupied),
            Err(e) => Err(e),
        }
    }
}

impl<'a> OccupiedEntry<'a> {
    pub open spec fn wf(&self) -> bool {
        &&& self.frames.wf()
        &&& self.interval.min@ == lo_key(self.interval.key@)
        &&& self.interval.max@ == hi_key(self.interval.key@)
    }

    /// The pairs of the store the entry lives in.
    pub open spec fn pairs(&self) -> Pairs {
        self.frames@.store.pairs
    }

    /// The key of the entry.
    pub fn key(&self) -> (k: &str)
        ensures
            k@ == self.interval.key@,
    {
        self.interval.as_ref()
    }

    /// Appends `value` as the entry's next batch, under a key after every key
    /// the entry has and still inside its interval; `Full` when no such key
    /// is left.
    pub fn insert_entry(&mut self, value: RecordBatch) -> (r: Result<&mut OccupiedEntry<'a>, StorageError>)
        requires
            old(self).wf(),
        ensures
            match append_batch(old(self).frames@.store.pairs, old(self).interval.key@, value@) {
                Some(p) => r matches Ok(e) && e.interval == old(self).interval
                    && e.frames@ == old(self).frames@.with_pairs(p) && e.wf()
                    && (all_decode(entry_pairs(old(self).pairs(), old(self).interval.key@)) ==> (
                        all_decode(entry_pairs(p, old(self).interval.key@))
                        && entry_rows(p, old(self).interval.key@)
                            == entry_rows(old(self).pairs(), old(self).interval.key@) + value@))
                    && *final(e.frames) == *final(old(self).frames)
                    && *final(e) == *final(self),
                None => r matches Err(err) && err is Full && *final(self).frames == *old(self).frames
                    && final(self).interval == old(self).interval
                    && *final(final(self).frames) == *final(old(self).frames),
            },
    {
        let ghost pairs = self.frames@.store.pairs;
        let ghost name = self.interval.key@;
        let start = {
            let range = crate::file::Range::new(&*self.frames, self.interval.range());
            match range.last() {
                Some((k, _)) => k.to_owned(),
                None => self.interval.min.clone(),
            }
        };
        assert(start@ == append_start(pairs, name));
        proof {
            let es = entry_pairs(pairs, name);
            if es.len() > 0 {
                lemma_range_of_member(pairs, lo_key(name), hi_key(name), es.len() - 1);
                if start@.len() == 0 {
                    assert(key_lt(start@, lo_key(name)));
                }
            }
        }
        proof {
            use_type_invariant(&value);
            if append_key(pairs, name) is Some && all_decode(entry_pairs(pairs, name)) {
                law_appended_rows_read_back(pairs, name, value@);
            }
        }
        let bytes = match RecordBatch::compress(&value) {
            Ok(b) => b,
            Err(e) => {
                return Err(e);
            },
        };
        let open = match Interval::open(start, self.interval.max.clone()) {
            Ok(i) => i,
            Err(e) => {
                return Err(e);
            },
        };
        if !str_lt(open.min(), self.interval.max()) {
            return Err(StorageError::Full);
        }
        self.frames.replace(open.range(), Some(bytes));
        Ok(self)
    }
}

impl<'a> OccupiedEntry<'a> {
    /// Removes every batch of the entry and gives the entry back vacant.
    pub fn remove_entry(self) -> (r: Result<VacantEntry<'a>, StorageError>)
        requires
            self.wf(),
        ensures
            r matches Ok(v) && v.wf() && v.name@ == self.interval.key@
                && v.frames@ == old(self.frames)@.with_pairs(replace_range(
                    old(self.frames)@.store.pairs, lo_key(self.interval.key@), hi_key(self.interval.key@), None))
                && *final(v.frames) == *final(self.frames),
    {
        let frames = self.frames;
        proof {
            law_removed_entry_is_vacant(frames@.store.pairs, self.interval.key@);
        }
        frames.replace(self.interval.range(), None);
        Ok(VacantEntry { frames, name: self.interval.into_key() })
    }
}

impl<'a> Entry<'a> {
    /// The entry's key.
    pub open spec fn name(&self) -> Seq<char> {
        match self {
            Entry::Vacant(v) => v.name@,
            Entry::Occupied(o) => o.interval.key@,
        }
    }

    /// The store as the entry sees it.
    pub open spec fn store(&self) -> FramesView {
        match self {
            Entry::Vacant(v) => v.frames@,
            Entry::Occupied(o) => o.frames@,
        }
    }

    pub open spec fn wf(&self) -> bool {
        match self {
            Entry::Vacant(v) => v.wf(),
            Entry::Occupied(o) => o.wf(),
        }
    }

    /// The entry for `name`: occupied when its interval holds a key.
    pub fn new(frames: &'a mut Frames, name: &str) -> (r: Result<Self, StorageError>)
        requires
            old(frames).wf(),
        ensures
            r matches Ok(e) && e.wf() && e.name() == name@ && e.store() == old(frames)@
                && (e is Occupied <==> entry_pairs(old(frames)@.store.pairs, name@).len() > 0)
                && match e {
                    Entry::Vacant(v) => *final(v.frames) == *final(frames),
                    Entry::Occupied(o) => *final(o.frames) == *final(frames),
                },
    {
        let interval = match Interval::over(name.to_owned()) {
            Ok(i) => i,
            Err(e) => {
                return Err(e);
            },
        };
        let occupied = {
            let mut range = crate::file::Range::new(&*frames, interval.range());
            match range.next() {
                Some((k, _)) => {
                    proof {
                        lemma_range_of_member(frames@.store.pairs, interval.min@, interval.max@, 0);
                    }
                    str_lt(k, interval.max())
                },
                None => false,
            }
        };
        if occupied {
            Ok(Entry::Occupied(OccupiedEntry { frames, interval }))
        } else {
            Ok(Entry::Vacant(VacantEntry { frames, name: name.to_owned() }))
        }
    }

    /// Ensures a value is in the entry by inserting the default if empty.
    pub fn or_insert(self, default: RecordBatch) -> (r: Result<OccupiedEntry<'a>, StorageError>)
        requires
            self.wf(),
        ensures
            match self {
                Entry::Occupied(o) => r matches Ok(x) && x.interval == o.interval
                    && x.frames@ == self.store() && x.wf() && *final(x.frames) == *final(o.frames),
                Entry::Vacant(v) => match append_batch(self.store().store.pairs, v.name@, default@) {
                    Some(p) => r matches Ok(x) && x.wf() && x.interval.key@ == v.name@
                        && x.frames@ == self.store().with_pairs(p) && *final(x.frames) == *final(v.frames)
                        && entry_rows(p, v.name@) == default@,
                    None => r matches Err(e) && e is Full && (*final(v.frames))@ == self.store(),
                },
            },
    {
        match self {
            Entry::Occupied(entry) => Ok(entry),
            Entry::Vacant(entry) => entry.insert_entry(default),
        }
    }

    /// Ensures a value is in the entry by inserting the result of `default` if empty.
    pub fn or_insert_with<F: FnOnce() -> RecordBatch>(self, default: F) -> (r: Result<OccupiedEntry<'a>, StorageError>)
        requires
            self.wf(),
            self is Vacant ==> call_requires(default, ()),
        ensures
            match self {
                Entry::Occupied(o) => r matches Ok(x) && x.interval == o.interval
                    && x.frames@ == self.store() && x.wf() && *final(x.frames) == *final(o.frames),
                Entry::Vacant(v) => exists|b: RecordBatch| #[trigger] call_ensures(default, (), b)
                    && match append_batch(self.store().store.pairs, v.name@, b@) {
                        Some(p) => r matches Ok(x) && x.wf() && x.interval.key@ == v.name@
                            && x.frames@ == self.store().with_pairs(p) && *final(x.frames) == *final(v.frames)
                            && entry_rows(p, v.name@) == b@,
                        None => r matches Err(e) && e is Full && (*final(v.frames))@ == self.store(),
                    },
            },
    {
        match self {
            Entry::Occupied(entry) => Ok(entry),
            Entry::Vacant(entry) => {
                let b = default();
                entry.insert_entry(b)
            },
        }
    }

    /// Ensures a value is in the entry by inserting, if empty, the result of
    /// `default` called with the entry's key.
    pub fn or_insert_with_key<F: FnOnce(String) -> RecordBatch>(self, default: F) -> (r: Result<OccupiedEntry<'a>, StorageError>)
        requires
            self.wf(),
            self is Vacant ==> forall|k: String| k@ == self.name() ==> call_requires(default, (k,)),
        ensures
            match self {
                Entry::Occupied(o) => r matches Ok(x) && x.interval == o.interval
                    && x.frames@ == self.store() && x.wf() && *final(x.frames) == *final(o.frames),
                Entry::Vacant(v) => exists|k: String, b: RecordBatch| k@ == v.name@ && #[trigger] call_ensures(default, (k,), b)
                    && match append_batch(self.store().store.pairs, v.name@, b@) {
                        Some(p) => r matches Ok(x) && x.wf() && x.interval.key@ == v.name@
                            && x.frames@ == self.store().with_pairs(p) && *final(x.frames) == *final(v.frames)
                            && entry_rows(p, v.name@) == b@,
                        None => r matches Err(e) && e is Full && (*final(v.frames))@ == self.store(),
                    },
            },
    {
        match self {
            Entry::Occupied(entry) => Ok(entry),
            Entry::Vacant(entry) => {
                let key = entry.key().to_owned();
                let b = default(key);
                entry.insert_entry(b)
            },
        }
    }

    /// The entry's key.
    pub fn key(&self) -> (k: &str)
        ensures
            k@ == self.name(),
    {
        match self {
            Entry::Occupied(entry) => entry.key(),
            Entry::Vacant(entry) => entry.key(),
        }
    }
}

impl<'t> Txn<'t> {
    /// The entry for `name`, for in-place manipulation. Nested transactions
    /// that were dropped without being closed are undone first.
    pub fn entry(&mut self, name: &str) -> (r: Result<Entry<'_>, StorageError>)
        requires
            old(self).wf(),
        ensures
            final(self).level == old(self).level,
            *final(final(self).frames) == *final(old(self).frames),
            r matches Ok(e) && e.wf() && e.name() == name@
                && e.store() == (FramesView { path: old(self).frames@.path,
                    store: old(self).frames@.store.close_above(old(self).level as nat) })
                && (e is Occupied <==> entry_pairs(e.store().store.pairs, name@).len() > 0)
                && match e {
                    Entry::Vacant(v) => *final(v.frames) == *final(self).frames,
                    Entry::Occupied(o) => *final(o.frames) == *final(self).frames,
                },
    {
        self.frames.close_above(self.level);
        Entry::new(&mut *self.frames, name)
    }
}

/// A character that can follow a name inside the name's interval:
/// `U+F0000` up to, but not including, `U+10FFFF`.
pub open spec fn is_suffix_char(c: char) -> bool {
    0xF0000 <= (c as int) < 0x10FFFF
}

/// Whether `c` is a suffix character.
fn suffix_char(c: char) -> (r: bool)
    ensures
        r == is_suffix_char(c),
{
    let first = '\u{F0000}';
    let past = '\u{10FFFF}';
    first <= c && c != past && c <= past
}

/// The names whose interval holds the key `x`: each prefix of `x` that a
/// suffix character follows, the longest first.
pub open spec fn key_names(x: Seq<char>) -> Seq<Seq<char>>
    decreases x.len(),
{
    if x.len() == 0 {
        Seq::empty()
    } else {
        let p = x.drop_last();
        if is_suffix_char(x.last()) {
            seq![p] + key_names(p)
        } else {
            key_names(p)
        }
    }
}

/// The names of the keys of `ps`, key after key.
pub open spec fn all_names(ps: Pairs) -> Seq<Seq<char>>
    decreases ps.len(),
{
    if ps.len() == 0 {
        Seq::empty()
    } else {
        all_names(ps.drop_last()) + key_names(ps.last().0)
    }
}

/// `s` with every value after its first occurrence left out.
pub open spec fn distinct(s: Seq<Seq<char>>) -> Seq<Seq<char>>
    decreases s.len(),
{
    if s.len() == 0 {
        Seq::empty()
    } else {
        let d = distinct(s.drop_last());
        if d.contains(s.last()) {
            d
        } else {
            d.push(s.last())
        }
    }
}

/// The names that have a stored key in their interval, each once, in the
/// order in which their first key comes.
pub open spec fn listed_names(pairs: Pairs) -> Seq<Seq<char>> {
    distinct(all_names(pairs))
}

/// Whether `out` already holds `name`.
fn holds_name(out: &Vec<String>, name: &String) -> (r: bool)
    ensures
        r == out@.map_values(|s: String| s@).contains(name@),
{
    let ghost v = out@.map_values(|s: String| s@);
    let mut j: usize = 0;
    while j < out.len()
        invariant
            j <= out@.len(),
            v == out@.map_values(|s: String| s@),
            forall|x: int| 0 <= x < j ==> v[x] != name@,
        decreases out@.len() - j,
    {
        if out[j] == *name {
            assert(v[j as int] == name@);
            return true;
        }
        j = j + 1;
    }
    false
}

impl Frames {
    /// The names of the entries that hold a batch: every name with a stored
    /// key in its interval, each once, in the order of their first keys.
    ///
    /// No transaction can be alive while the store itself is borrowed, so
    /// transactions still open here were dropped without being closed: they
    /// are undone first, and only what was committed is listed.
    pub fn all_keys(&mut self) -> (r: Result<Vec<String>, StorageError>)
        requires
            old(self).wf(),
        ensures
            final(self)@ == (FramesView { path: old(self)@.path, store: old(self)@.store.close_above(0) }),
            final(self).wf(),
            r matches Ok(v) && v@.map_values(|s: String| s@) == listed_names(old(self)@.store.close_above(0).pairs),
    {
        self.close_above(0);
        self.list_names()
    }

    /// The names of the entries that hold a batch in the store as it stands.
    pub(crate) fn list_names(&self) -> (r: Result<Vec<String>, StorageError>)
        requires
            self.wf(),
        ensures
            r matches Ok(v) && v@.map_values(|s: String| s@) == listed_names(self@.store.pairs),
    {
        let store = self.store();
        let ghost pairs = store@.pairs;
        let mut out: Vec<String> = Vec::new();
        assert(out@.map_values(|s: String| s@) =~= distinct(all_names(pairs.take(0))));
        let mut i: usize = 0;
        while i < store.len()
            invariant
                i <= pairs.len(),
                pairs == store@.pairs,
                out@.map_values(|s: String| s@) == distinct(all_names(pairs.take(i as int))),
            decreases pairs.len() - i,
        {
            let mut cur = store.key(i).to_owned();
            let ghost x = cur@;
            let ghost mut done: Seq<Seq<char>> = Seq::empty();
            assert(key_names(x) =~= done + key_names(cur@));
            loop
                invariant
                    pairs == store@.pairs,
                    i < pairs.len(),
                    x == pairs[i as int].0,
                    key_names(x) == done + key_names(cur@),
                    out@.map_values(|s: String| s@) == distinct(all_names(pairs.take(i as int)) + done),
                ensures
                    key_names(x) == done,
                    out@.map_values(|s: String| s@) == distinct(all_names(pairs.take(i as int)) + done),
                decreases cur@.len(),
            {
                let ghost before = cur@;
                match pop_char(&mut cur) {
                    None => {
                        assert(done + key_names(before) =~= done);
                        break;
                    },
                    Some(c) => {
                        if suffix_char(c) {
                            let ghost prior = all_names(pairs.take(i as int)) + done;
                            assert(before.drop_last() == cur@ && before.last() == c);
                            assert(is_suffix_char(c));
                            assert(key_names(before) == seq![cur@] + key_names(cur@));
                            assert(done + key_names(before) =~= done.push(cur@) + key_names(cur@));
                            if !holds_name(&out, &cur) {
                                out.push(cur.clone());
                            }
                            proof {
                                assert(prior.push(cur@).drop_last() =~= prior);
                                assert(all_names(pairs.take(i as int)) + done.push(cur@) =~= prior.push(cur@));
                                done = done.push(cur@);
                            }
                            assert(out@.map_values(|s: String| s@) == distinct(all_names(pairs.take(i as int)) + done));
                        } else {
                            assert(before.drop_last() == cur@ && before.last() == c);
                            assert(!is_suffix_char(c));
                            assert(key_names(before) == key_names(cur@));
                        }
                    },
                }
            }
            assert(pairs.take(i + 1).drop_last() =~= pairs.take(i as int));
            assert(pairs.take(i + 1).last() == pairs[i as int]);
            i = i + 1;
        }
        assert(pairs.take(pairs.len() as int) =~= pairs);
        Ok(out)
    }
}

} // verus!

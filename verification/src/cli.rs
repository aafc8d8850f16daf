//! The vocabulary of the command-line program: what it can be asked to do,
//! and the answer it prints for each request about the store.

use vstd::prelude::*;
use crate::entry::{entry_pairs, listed_names, Interval};
use crate::error::StorageError;
use crate::file::{Frames, FramesView, PAGE_SIZE};
use crate::store::Pairs;
use crate::text::{decimal, decimal_string, push_char};

verus! {

/// A request about the store's file.
#[derive(Debug)]
pub enum Verb {
    /// Display disk usage statistics: the bytes that each frame's batches
    /// take, in the chosen units.
    Info(Info),
    /// Reduce disk usage (if possible).
    Compact,
    /// Page size used for I/O.
    PageSize,
    /// Path to the file on disk.
    Path,
    /// Size of the file on disk.
    Size,
}

/// How disk usage is displayed.
#[derive(Debug)]
pub struct Info {
    /// The units to display sizes in.
    pub sizes: Units,
    /// Sizes in powers of 1000 rather than 1024.
    pub si: bool,
}

/// Units of size.
#[derive(Copy, Clone, Debug)]
pub enum Units {
    /// Bytes.
    B,
    /// Kilobytes.
    KB,
    /// Megabytes.
    MB,
    /// Gigabytes.
    GB,
    /// Terabytes.
    TB,
    /// Petabytes.
    PB,
}

/// Settings of the interactive help.
#[derive(Debug)]
pub struct UI {
    /// Light or dark mode, when set explicitly.
    pub theme: Option<Mode>,
}

/// Colour modes.
#[derive(Copy, Clone, Debug)]
pub enum Mode {
    /// Light mode.
    Light,
    /// Dark mode.
    Dark,
}

/// What the program is asked about.
#[derive(Debug)]
pub enum Noun {
    /// File information and maintenance.
    File(Verb),
    /// Interactive exploration of commands.
    Help(UI),
}

/// The number of bytes in one unit of size: powers of 1000 with `si`,
/// of 1024 without.
pub open spec fn unit_size(sizes: Units, si: bool) -> nat {
    match sizes {
        Units::B => 1,
        Units::KB => if si { 1000 } else { 1024 },
        Units::MB => if si { 1000000 } else { 1048576 },
        Units::GB => if si { 1000000000 } else { 1073741824 },
        Units::TB => if si { 1000000000000 } else { 1099511627776 },
        Units::PB => if si { 1000000000000000 } else { 1125899906842624 },
    }
}

/// The bytes that the values of `ps` take, counted up to `u64::MAX`.
pub open spec fn stored_bytes(ps: Pairs) -> nat
    decreases ps.len(),
{
    if ps.len() == 0 {
        0
    } else {
        let total = stored_bytes(ps.drop_last()) + ps.last().1.len();
        if total > u64::MAX {
            u64::MAX as nat
        } else {
            total
        }
    }
}

/// One line of the usage report: the frame's name, a tab, the size of its
/// batches in whole units, and a newline.
pub open spec fn usage_line(pairs: Pairs, name: Seq<char>, sizes: Units, si: bool) -> Seq<char> {
    name + seq!['\t'] + decimal(stored_bytes(entry_pairs(pairs, name)) / unit_size(sizes, si)) + seq!['\n']
}

/// The usage report: one line for each of `names`, in order.
pub open spec fn usage_text(pairs: Pairs, names: Seq<Seq<char>>, sizes: Units, si: bool) -> Seq<char>
    decreases names.len(),
{
    if names.len() == 0 {
        Seq::empty()
    } else {
        usage_text(pairs, names.drop_last(), sizes, si) + usage_line(pairs, names.last(), sizes, si)
    }
}

/// The number of bytes in one unit of size.
fn unit_bytes(sizes: Units, si: bool) -> (n: u64)
    ensures
        n == unit_size(sizes, si),
{
    match sizes {
        Units::B => 1,
        Units::KB => if si { 1000 } else { 1024 },
        Units::MB => if si { 1000000 } else { 1048576 },
        Units::GB => if si { 1000000000 } else { 1073741824 },
        Units::TB => if si { 1000000000000 } else { 1099511627776 },
        Units::PB => if si { 1000000000000000 } else { 1125899906842624 },
    }
}

/// The bytes that the batches of the frame `name` take.
fn frame_bytes(file: &Frames, name: &String) -> (n: u64)
    requires
        file.wf(),
    ensures
        n == stored_bytes(entry_pairs(file@.store.pairs, name@)),
{
    let interval = match Interval::over(name.clone()) {
        Ok(i) => i,
        Err(_) => {
            return 0;
        },
    };
    let store = file.store();
    let ghost pairs = store@.pairs;
    let a = store.lower_bound(interval.min());
    let b = store.lower_bound(interval.max());
    if a >= b {
        assert(entry_pairs(pairs, name@).len() == 0);
        return 0;
    }
    assert(entry_pairs(pairs, name@) == pairs.subrange(a as int, b as int));
    let mut total: u64 = 0;
    let mut i = a;
    assert(pairs.subrange(a as int, a as int) =~= Seq::<(Seq<char>, Seq<u8>)>::empty());
    while i < b
        invariant
            a <= i <= b <= pairs.len(),
            pairs == store@.pairs,
            total == stored_bytes(pairs.subrange(a as int, i as int)),
        decreases b - i,
    {
        let len = store.value(i).len();
        assert(pairs.subrange(a as int, i + 1).drop_last() =~= pairs.subrange(a as int, i as int));
        assert(pairs.subrange(a as int, i + 1).last() == pairs[i as int]);
        total = total.saturating_add(len as u64);
        i = i + 1;
    }
    total
}

/// The usage report of every frame of `file`.
fn usage(file: &Frames, sizes: Units, si: bool) -> (s: String)
    requires
        file.wf(),
    ensures
        s@ == usage_text(file@.store.pairs, listed_names(file@.store.pairs), sizes, si),
{
    let ghost pairs = file@.store.pairs;
    let names = match file.list_names() {
        Ok(v) => v,
        Err(_) => {
            return String::new();
        },
    };
    let ghost views = names@.map_values(|n: String| n@);
    let unit = unit_bytes(sizes, si);
    let mut out = String::new();
    assert(out@ =~= usage_text(pairs, views.take(0), sizes, si));
    for i in 0..names.len()
        invariant
            file.wf(),
            pairs == file@.store.pairs,
            views == names@.map_values(|n: String| n@),
            unit == unit_size(sizes, si),
            out@ == usage_text(pairs, views.take(i as int), sizes, si),
    {
        let name = &names[i];
        let bytes = frame_bytes(file, name);
        let ghost before = out@;
        out.append(name.as_str());
        push_char(&mut out, '\t');
        let digits = decimal_string(bytes / unit);
        out.append(digits.as_str());
        push_char(&mut out, '\n');
        assert(views.take(i + 1).drop_last() =~= views.take(i as int));
        assert(views.take(i + 1).last() == name@);
        assert(out@ =~= before + usage_line(pairs, name@, sizes, si));
    }
    assert(views.take(names@.len() as int) =~= views);
    out
}

impl Verb {
    /// The message the program prints for this request on `file`; `file_size`
    /// is the size of the file on disk, which only `Size` reads. Transactions
    /// left open by dropped `Txn`s are undone first.
    pub fn with(self, file: &mut Frames, file_size: Option<u64>) -> (r: Result<Option<String>, StorageError>)
        requires
            old(file).wf(),
            self is Size ==> file_size is Some,
        ensures
            final(file)@ == (FramesView { path: old(file)@.path, store: old(file)@.store.close_above(0) }),
            match self {
                Verb::Compact => r matches Ok(Some(s)) && s@ == "no work to do"@,
                Verb::Info(i) => r matches Ok(Some(s))
                    && s@ == usage_text(old(file)@.store.close_above(0).pairs, listed_names(old(file)@.store.close_above(0).pairs), i.sizes, i.si),
                Verb::PageSize => r matches Ok(Some(s)) && s@ == decimal(PAGE_SIZE as nat),
                Verb::Path => r matches Ok(Some(s)) && s@ == old(file)@.path,
                Verb::Size => r matches Ok(Some(s)) && s@ == decimal(file_size.unwrap() as nat),
            },
    {
        file.close_above(0);
        let msg = match self {
            Verb::Compact => match file.compact() {
                Ok(false) => Some("no work to do".to_string()),
                Ok(true) => None,
                Err(e) => {
                    return Err(e);
                },
            },
            Verb::Info(i) => Some(usage(file, i.sizes, i.si)),
            Verb::PageSize => match file.page_size() {
                Ok(n) => Some(decimal_string(n as u64)),
                Err(e) => {
                    return Err(e);
                },
            },
            Verb::Path => match file.file_path() {
                Ok(p) => Some(p),
                Err(e) => {
                    return Err(e);
                },
            },
            Verb::Size => match file_size {
                Some(n) => Some(decimal_string(n)),
                None => None,
            },
        };
        Ok(msg)
    }
}

} // verus!

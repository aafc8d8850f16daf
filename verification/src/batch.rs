//! Batches of rows and the bytes they are stored as.
//!
//! A batch is stored as its rows one after the other, each row preceded by
//! its length in eight little-endian bytes.

use vstd::prelude::*;
use vstd::bytes::{
    lemma_auto_spec_u64_to_from_le_bytes, spec_u64_from_le_bytes, spec_u64_to_le_bytes,
    u64_from_le_bytes, u64_to_le_bytes,
};
use vstd::slice::{slice_subrange, slice_to_vec};
use crate::error::StorageError;

verus! {

/// One row as stored: its length, then its bytes.
pub open spec fn frame_row(row: Seq<u8>) -> Seq<u8> {
    spec_u64_to_le_bytes(row.len() as u64) + row
}

/// The bytes a sequence of rows is stored as.
pub open spec fn encode_rows(rows: Seq<Seq<u8>>) -> Seq<u8>
    decreases rows.len(),
{
    if rows.len() == 0 {
        Seq::empty()
    } else {
        frame_row(rows[0]) + encode_rows(rows.drop_first())
    }
}

/// The rows that stored bytes hold, if they are well formed.
pub open spec fn decode_rows(b: Seq<u8>) -> Option<Seq<Seq<u8>>>
    decreases b.len(),
{
    if b.len() == 0 {
        Some(Seq::empty())
    } else if b.len() < 8 {
        None
    } else {
        let n = spec_u64_from_le_bytes(b.subrange(0, 8));
        if n > b.len() - 8 {
            None
        } else {
            match decode_rows(b.subrange(8 + n, b.len() as int)) {
                Some(rest) => Some(seq![b.subrange(8, 8 + n)] + rest),
                None => None,
            }
        }
    }
}

/// Every row is short enough for its length to be stored.
pub open spec fn rows_fit(rows: Seq<Seq<u8>>) -> bool {
    forall|i: int| 0 <= i < rows.len() ==> #[trigger] rows[i].len() <= u64::MAX
}

pub proof fn lemma_encode_append(a: Seq<Seq<u8>>, b: Seq<Seq<u8>>)
    ensures
        encode_rows(a + b) == encode_rows(a) + encode_rows(b),
    decreases a.len(),
{
    if a.len() == 0 {
        assert(a + b =~= b);
    } else {
        lemma_encode_append(a.drop_first(), b);
        assert((a + b).drop_first() =~= a.drop_first() + b);
        assert((a + b)[0] == a[0]);
    }
}

/// Stored rows read back as the same rows.
pub proof fn lemma_decode_encode(rows: Seq<Seq<u8>>)
    requires
        rows_fit(rows),
    ensures
        decode_rows(encode_rows(rows)) == Some(rows),
    decreases rows.len(),
{
    lemma_auto_spec_u64_to_from_le_bytes();
    if rows.len() > 0 {
        let r = rows[0];
        let rest = rows.drop_first();
        assert(rows_fit(rest)) by {
            assert forall|i: int| 0 <= i < rest.len() implies #[trigger] rest[i].len() <= u64::MAX by {
                assert(rest[i] == rows[i + 1]);
            }
        }
        lemma_decode_encode(rest);
        let b = encode_rows(rows);
        let len8 = spec_u64_to_le_bytes(r.len() as u64);
        assert(r.len() <= u64::MAX);
        assert(b =~= len8 + r + encode_rows(rest));
        assert(b.subrange(0, 8) =~= len8);
        assert(b.subrange(8, 8 + r.len() as int) =~= r);
        assert(b.subrange(8 + r.len() as int, b.len() as int) =~= encode_rows(rest));
        assert(seq![r] + rest =~= rows);
    } else {
        assert(encode_rows(rows) =~= Seq::<u8>::empty());
        assert(rows =~= Seq::<Seq<u8>>::empty());
    }
}

/// Well-formed stored bytes are exactly the storage of the rows they hold.
pub proof fn lemma_encode_decode(b: Seq<u8>)
    requires
        decode_rows(b) is Some,
    ensures
        encode_rows(decode_rows(b).unwrap()) == b,
        rows_fit(decode_rows(b).unwrap()),
    decreases b.len(),
{
    lemma_auto_spec_u64_to_from_le_bytes();
    if b.len() > 0 {
        let n = spec_u64_from_le_bytes(b.subrange(0, 8));
        let tail = b.subrange(8 + n, b.len() as int);
        lemma_encode_decode(tail);
        let rest = decode_rows(tail).unwrap();
        let r = b.subrange(8, 8 + n);
        let rows = seq![r] + rest;
        assert(rows.drop_first() =~= rest);
        assert(rows[0] == r);
        assert(r.len() == n);
        assert(spec_u64_to_le_bytes(spec_u64_from_le_bytes(b.subrange(0, 8))) == b.subrange(0, 8));
        assert(b =~= b.subrange(0, 8) + r + tail);
        assert(rows_fit(rows)) by {
            assert forall|i: int| 0 <= i < rows.len() implies #[trigger] rows[i].len() <= u64::MAX by {
                if i > 0 {
                    assert(rows[i] == rest[i - 1]);
                }
            }
        }
    } else {
        assert(decode_rows(b).unwrap() =~= Seq::<Seq<u8>>::empty());
        assert(encode_rows(Seq::<Seq<u8>>::empty()) =~= b);
    }
}

/// A batch of rows; each row is an opaque byte string.
pub struct RecordBatch {
    rows: Vec<Vec<u8>>,
}

impl View for RecordBatch {
    type V = Seq<Seq<u8>>;

    closed spec fn view(&self) -> Seq<Seq<u8>> {
        self.rows@.map_values(|r: Vec<u8>| r@)
    }
}

/// The rows of a sequence of batches, one batch after the other.
pub open spec fn concat_batches(bs: Seq<Seq<Seq<u8>>>) -> Seq<Seq<u8>>
    decreases bs.len(),
{
    if bs.len() == 0 {
        Seq::empty()
    } else {
        concat_batches(bs.drop_last()) + bs.last()
    }
}

impl RecordBatch {
    /// Every row of a batch is short enough for its length to be stored.
    #[verifier::type_invariant]
    pub open spec fn rows_fit_invariant(self) -> bool {
        rows_fit(self@)
    }

    /// A batch holding `rows`.
    pub fn new(rows: Vec<Vec<u8>>) -> (b: RecordBatch)
        ensures
            b@ == rows@.map_values(|r: Vec<u8>| r@),
    {
        // Each row's length is a `usize`, so it fits the stored length.
        for i in 0..rows.len()
            invariant
                forall|j: int| 0 <= j < i ==> #[trigger] rows@[j]@.len() <= u64::MAX,
        {
            let n = rows[i].len();
            assert(n <= u64::MAX);
        }
        let ghost rv = rows@.map_values(|r: Vec<u8>| r@);
        assert(rows_fit(rv)) by {
            assert forall|j: int| 0 <= j < rv.len() implies #[trigger] rv[j].len() <= u64::MAX by {
                assert(rv[j] == rows@[j]@);
            }
        }
        RecordBatch { rows }
    }

    /// Gives back the rows.
    pub fn into_rows(self) -> (r: Vec<Vec<u8>>)
        ensures
            r@.map_values(|x: Vec<u8>| x@) == self@,
    {
        self.rows
    }

    /// The number of rows.
    pub fn num_rows(&self) -> (n: usize)
        ensures
            n == self@.len(),
    {
        self.rows.len()
    }

    /// The `i`-th row.
    pub fn row(&self, i: usize) -> (r: &[u8])
        requires
            i < self@.len(),
        ensures
            r@ == self@[i as int],
    {
        self.rows[i].as_slice()
    }

    /// The batch of `length` rows from `offset` on.
    pub fn slice(&self, offset: usize, length: usize) -> (b: RecordBatch)
        requires
            offset + length <= self@.len(),
        ensures
            b@ == self@.subrange(offset as int, offset + length),
    {
        proof {
            use_type_invariant(self);
        }
        let mut rows: Vec<Vec<u8>> = Vec::new();
        let mut i = offset;
        let n = self.rows.len();
        assert(self@.len() == n);
        let end = offset + length;
        while i < end
            invariant
                end == offset + length,
                offset <= i <= offset + length <= self@.len(),
                rows@.map_values(|r: Vec<u8>| r@) == self@.subrange(offset as int, i as int),
                rows_fit(self@),
            decreases end - i,
        {
            let row = slice_to_vec(self.rows[i].as_slice());
            let ghost before = rows@.map_values(|r: Vec<u8>| r@);
            rows.push(row);
            assert(rows@.map_values(|r: Vec<u8>| r@) =~= before.push(self@[i as int]));
            assert(self@.subrange(offset as int, i + 1) =~= self@.subrange(offset as int, i as int).push(self@[i as int]));
            i = i + 1;
        }
        let ghost rv = rows@.map_values(|r: Vec<u8>| r@);
        assert(rows_fit(rv)) by {
            assert forall|j: int| 0 <= j < rv.len() implies #[trigger] rv[j].len() <= u64::MAX by {
                assert(rv[j] == self@[offset + j]);
            }
        }
        RecordBatch { rows }
    }

    /// Appends the rows of `others`, one batch after the other.
    pub fn extend(&mut self, others: &Vec<RecordBatch>)
        ensures
            final(self)@ == old(self)@ + concat_batches(others@.map_values(|b: RecordBatch| b@)),
    {
        proof {
            use_type_invariant(&*self);
        }
        let ghost bs = others@.map_values(|b: RecordBatch| b@);
        let ghost start = self@;
        let mut rows: Vec<Vec<u8>> = Vec::new();
        std::mem::swap(&mut rows, &mut self.rows);
        assert(rows@.map_values(|r: Vec<u8>| r@) == start);
        for j in 0..others.len()
            invariant
                bs == others@.map_values(|b: RecordBatch| b@),
                rows@.map_values(|r: Vec<u8>| r@) == start + concat_batches(bs.take(j as int)),
                rows_fit(rows@.map_values(|r: Vec<u8>| r@)),
        {
            let other = &others[j];
            proof {
                use_type_invariant(other);
            }
            for i in 0..other.rows.len()
                invariant
                    bs == others@.map_values(|b: RecordBatch| b@),
                    other == others@[j as int],
                    rows_fit(other@),
                    rows@.map_values(|r: Vec<u8>| r@) == start + concat_batches(bs.take(j as int)) + other@.subrange(0, i as int),
                    rows_fit(rows@.map_values(|r: Vec<u8>| r@)),
            {
                let row = slice_to_vec(other.rows[i].as_slice());
                let ghost before = rows@.map_values(|r: Vec<u8>| r@);
                rows.push(row);
                assert(rows@.map_values(|r: Vec<u8>| r@) =~= before.push(other@[i as int]));
                assert(other@.subrange(0, i + 1) =~= other@.subrange(0, i as int).push(other@[i as int]));
                let ghost rv = rows@.map_values(|r: Vec<u8>| r@);
                assert(rows_fit(rv)) by {
                    assert forall|x: int| 0 <= x < rv.len() implies #[trigger] rv[x].len() <= u64::MAX by {
                        if x < before.len() {
                            assert(rv[x] == before[x]);
                        }
                    }
                }
            }
            assert(bs.take(j + 1).drop_last() =~= bs.take(j as int));
            assert(other@.subrange(0, other@.len() as int) =~= other@);
            assert(rows@.map_values(|r: Vec<u8>| r@) =~= start + concat_batches(bs.take(j + 1)));
        }
        assert(bs.take(others.len() as int) =~= bs);
        self.rows = rows;
    }

    /// The bytes this batch is stored as.
    pub fn compress(batch: &RecordBatch) -> (r: Result<Vec<u8>, StorageError>)
        ensures
            r matches Ok(b) && b@ == encode_rows(batch@) && decode_rows(b@) == Some(batch@),
    {
        proof {
            use_type_invariant(batch);
            lemma_decode_encode(batch@);
        }
        let mut out: Vec<u8> = Vec::new();
        for i in 0..batch.rows.len()
            invariant
                out@ == encode_rows(batch@.take(i as int)),
        {
            let row = batch.rows[i].as_slice();
            let mut len = u64_to_le_bytes(row.len() as u64);
            let mut bytes = slice_to_vec(row);
            let ghost before = out@;
            out.append(&mut len);
            out.append(&mut bytes);
            proof {
                lemma_encode_append(batch@.take(i as int), seq![batch@[i as int]]);
                assert(batch@.take(i + 1) =~= batch@.take(i as int) + seq![batch@[i as int]]);
                assert(seq![batch@[i as int]].drop_first() =~= Seq::<Seq<u8>>::empty());
                assert(encode_rows(Seq::<Seq<u8>>::empty()) =~= Seq::<u8>::empty());
                assert(encode_rows(seq![batch@[i as int]]) =~= frame_row(batch@[i as int]) + Seq::<u8>::empty());
                assert(frame_row(batch@[i as int]) + Seq::<u8>::empty() =~= frame_row(batch@[i as int]));
            }
            assert(out@ =~= encode_rows(batch@.take(i + 1)));
        }
        assert(batch@.take(batch.rows@.len() as int) =~= batch@);
        Ok(out)
    }

    /// The batch that `bytes` store; `Decompression` when they are not well formed.
    pub fn decompress(bytes: &[u8]) -> (r: Result<RecordBatch, StorageError>)
        ensures
            decode_rows(bytes@) matches Some(rows) ==> (r matches Ok(b) && b@ == rows),
            decode_rows(bytes@) is None ==> (r matches Err(e) && e is Decompression),
    {
        let mut rows: Vec<Vec<u8>> = Vec::new();
        let mut p: usize = 0;
        let len = bytes.len();
        assert(bytes@.subrange(0, len as int) =~= bytes@);
        assert(rows@.map_values(|r: Vec<u8>| r@) =~= Seq::<Seq<u8>>::empty());
        proof {
            if let Some(all) = decode_rows(bytes@) {
                assert(Seq::<Seq<u8>>::empty() + all =~= all);
            }
        }
        while p < len
            invariant
                len == bytes@.len(),
                p <= len,
                match decode_rows(bytes@.subrange(p as int, len as int)) {
                    Some(rest) => decode_rows(bytes@) == Some(rows@.map_values(|r: Vec<u8>| r@) + rest),
                    None => decode_rows(bytes@) is None,
                },
                rows_fit(rows@.map_values(|r: Vec<u8>| r@)),
            decreases len - p,
        {
            let ghost b = bytes@.subrange(p as int, len as int);
            if len - p < 8 {
                return Err(StorageError::Decompression("truncated row length".to_owned()));
            }
            let n = u64_from_le_bytes(slice_subrange(bytes, p, p + 8));
            assert(b.subrange(0, 8) =~= bytes@.subrange(p as int, p + 8));
            if n > (len - p - 8) as u64 {
                return Err(StorageError::Decompression("truncated row".to_owned()));
            }
            let n = n as usize;
            let row = slice_to_vec(slice_subrange(bytes, p + 8, p + 8 + n));
            assert(b.subrange(8, 8 + n) =~= row@);
            assert(b.subrange(8 + n, b.len() as int) =~= bytes@.subrange(p + 8 + n, len as int));
            let ghost before = rows@.map_values(|r: Vec<u8>| r@);
            rows.push(row);
            assert(rows@.map_values(|r: Vec<u8>| r@) =~= before.push(row@));
            let ghost rv = rows@.map_values(|r: Vec<u8>| r@);
            assert(rows_fit(rv)) by {
                assert forall|x: int| 0 <= x < rv.len() implies #[trigger] rv[x].len() <= u64::MAX by {
                    if x < before.len() {
                        assert(rv[x] == before[x]);
                    }
                }
            }
            proof {
                match decode_rows(bytes@.subrange(p + 8 + n, len as int)) {
                    Some(rest) => {
                        assert(before + (seq![row@] + rest) =~= before.push(row@) + rest);
                    },
                    None => {},
                }
            }
            p = p + 8 + n;
        }
        assert(bytes@.subrange(len as int, len as int) =~= Seq::<u8>::empty());
        assert(rows@.map_values(|r: Vec<u8>| r@) + Seq::<Seq<u8>>::empty() =~= rows@.map_values(|r: Vec<u8>| r@));
        Ok(RecordBatch { rows })
    }
}

impl Default for RecordBatch {
    /// A batch with no rows.
    fn default() -> (b: RecordBatch)
        ensures
            b@ == Seq::<Seq<u8>>::empty(),
    {
        let b = RecordBatch { rows: Vec::new() };
        assert(b@ =~= Seq::<Seq<u8>>::empty());
        b
    }
}

} // verus!

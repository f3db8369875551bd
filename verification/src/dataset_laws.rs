//! Which vector files are read, and what their values are.

use vstd::prelude::*;

use crate::bytes;
use crate::dataset;
use crate::error::HnswError;

verus! {

/// The records are those of a vector file: they have one dimension, between 1
/// and 65535.
pub open spec fn uniform(records: Seq<Seq<u32>>) -> bool {
    forall|i: int|
        0 <= i < records.len() ==> (#[trigger] records[i]).len() == records[0].len() && 1
            <= records[i].len() <= 65535
}

/// A vector file is read, and reads as these records, if and only if its
/// declared length is within the budget and its bytes, as many as declared,
/// are those of the records: for each its dimension and then its values, four
/// bytes each. A file that is declared empty has no records and is not looked
/// at. A length over the budget is an invalid argument, and anything else that
/// keeps a file from being read is corruption.
pub proof fn lemma_vector_file_accepted(
    kind: &'static str,
    file_len: u64,
    budget: u64,
    b: Seq<u8>,
    records: Seq<Seq<u32>>,
)
    requires
        file_len < u64::MAX,
    ensures
        dataset::parsed(kind, file_len, budget, b) == Ok::<Seq<Seq<u32>>, HnswError>(records)
            <==> {
            &&& file_len <= budget
            &&& uniform(records)
            &&& if file_len == 0 {
                records.len() == 0
            } else {
                &&& b.len() == file_len
                &&& b == dataset::vecs_bytes(records)
            }
        },
        dataset::parsed(kind, file_len, budget, b) matches Err(e) ==> {
            &&& file_len > budget <==> e is InvalidArgument
            &&& file_len <= budget <==> e is Corrupted
        },
{
    let r = dataset::parsed(kind, file_len, budget, b);
    dataset::lemma_declared_length_is_read(kind, file_len, budget, b);
    if file_len <= budget && uniform(records) && file_len > 0 && b.len() == file_len && b
        == dataset::vecs_bytes(records) {
        if records.len() == 0 {
            assert(b.len() == 0);
        }
        dataset::lemma_vector_files_read_back(kind, budget, records, records[0].len() as u32);
    }
    if file_len == 0 && file_len <= budget {
        if records.len() == 0 {
            assert(records =~= Seq::empty());
        }
        if r == Ok::<Seq<Seq<u32>>, HnswError>(records) {
            lemma_no_bytes(records);
        }
    }
    if let Ok(s) = dataset::reader_for(kind, file_len, budget) {
        lemma_failures_are_corruption(s, b);
    }
}

/// Records without bytes are none.
proof fn lemma_no_bytes(records: Seq<Seq<u32>>)
    requires
        dataset::vecs_bytes(records).len() == 0,
    ensures
        records.len() == 0,
{
    if records.len() > 0 {
        bytes::lemma_u32_le(records[0].len() as u32);
    }
}

/// A reader that fails reports corruption.
proof fn lemma_failures_are_corruption(s: dataset::ReaderView, b: Seq<u8>)
    requires
        dataset::reader_ok(s),
    ensures
        dataset::run(s, b) matches Err(e) ==> e is Corrupted,
    decreases s.left, dataset::rank(s.phase),
{
    let n = if b.len() <= dataset::wanted(s) {
        b.len() as int
    } else {
        dataset::wanted(s)
    };
    if s.phase != dataset::Phase::Done {
        if let Ok(s1) = dataset::fed(s, b.take(n)) {
            lemma_failures_are_corruption(s1, b.skip(n));
        }
    }
}

/// The bytes of a vector file, record by record: the dimension, and then the
/// values.
pub proof fn lemma_vector_file_layout(records: Seq<Seq<u32>>, dim: u32)
    requires
        records.len() > 0,
        records[0].len() == dim,
    ensures
        ({
            let b = dataset::vecs_bytes(records);
            let n = 4 + 4 * dim as int;
            &&& n <= b.len()
            &&& bytes::le32(b, 0) == dim
            &&& bytes::words_at(b, 4, dim as nat) == records[0]
            &&& b.skip(n) == dataset::vecs_bytes(records.skip(1))
        }),
{
    let b = dataset::vecs_bytes(records);
    let v = records[0];
    let n = 4 + 4 * dim as int;
    let x = bytes::u32_le(dim);
    bytes::lemma_u32_le(dim);
    bytes::lemma_words_le(v);
    assert(b[0] == x[0] && b[1] == x[1] && b[2] == x[2] && b[3] == x[3]);
    assert(b.subrange(4, n) =~= bytes::words_le(v));
    bytes::lemma_words_inside(b, 4, v);
    assert(b.skip(n) =~= dataset::vecs_bytes(records.skip(1)));
}

/// A word reads as the signed number that differs from it by a multiple of
/// `2^32`.
pub proof fn lemma_signed(w: u32)
    ensures
        dataset::signed(w) == w || dataset::signed(w) == w - 0x1_0000_0000,
        dataset::signed(w) >= 0 <==> w < 0x8000_0000,
{
}

} // verus!

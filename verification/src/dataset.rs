//! Vector files, and how well a search did.
//!
//! A vector file has no header. Each record is a dimension, a 4-byte
//! little-endian integer, and as many 4-byte little-endian values: `f32` in
//! an `.fvecs` file, `i32` in an `.ivecs` file. All records of a file have
//! the same dimension, so its length says how many there are.
//!
//! [`VecsReader`] decides what to read next and checks what came: whoever
//! owns the file does the reading. A file can change while it is read. No
//! more than one byte past its length is ever asked for, and a file that
//! shrank or grew is refused.

use vstd::prelude::*;

use crate::bytes;
use crate::error::HnswError;
use crate::fault::DataFault;
use crate::fault::Reason;
use crate::fault::RecallFault;
use crate::params::NodeId;

verus! {

// ---------------------------------------------------------------------
// Reading a vector file.
// ---------------------------------------------------------------------

/// What a reader waits for.
#[derive(Debug, Clone, Copy, PartialEq, Eq, Structural)]
pub enum Phase {
    /// A record's dimension, or the end of the file.
    Dim,
    /// A record's values.
    Values,
    /// The end of the file, once more: a byte here means that the file grew.
    Probe,
    /// Nothing.
    Done,
}

/// A vector file as it is read.
#[derive(Debug)]
pub struct VecsReader {
    kind: &'static str,
    file_len: u64,
    left: u64,
    phase: Phase,
    dim: u32,
    expected: u64,
    out: Vec<Vec<u32>>,
}

/// A reader, as contracts speak of it.
pub struct ReaderView {
    /// The kind of file, for messages.
    pub kind: &'static str,
    /// The length that the file is said to have.
    pub file_len: u64,
    /// How many bytes may still be asked for.
    pub left: u64,
    /// What the reader waits for.
    pub phase: Phase,
    /// The dimension of the records; 0 before the first.
    pub dim: u32,
    /// How many records the length stands for, once the dimension is known.
    pub expected: u64,
    /// The records so far.
    pub out: Seq<Seq<u32>>,
}

/// Lists of words, as contracts speak of them.
pub open spec fn rows(v: Seq<Vec<u32>>) -> Seq<Seq<u32>> {
    Seq::new(v.len(), |i: int| v[i]@)
}

impl View for VecsReader {
    type V = ReaderView;

    closed spec fn view(&self) -> ReaderView {
        ReaderView {
            kind: self.kind,
            file_len: self.file_len,
            left: self.left,
            phase: self.phase,
            dim: self.dim,
            expected: self.expected,
            out: rows(self.out@),
        }
    }
}

/// What every reader keeps: the dimension of the record whose values it waits
/// for.
pub open spec fn reader_ok(s: ReaderView) -> bool {
    &&& s.dim <= 0xffff
    &&& s.phase == Phase::Values ==> s.dim > 0
}

/// The error for a file that is not a vector file, or has changed.
pub open spec fn malformed(f: DataFault) -> HnswError {
    HnswError::Corrupted(Reason::Data(f))
}

/// The signed integer with these bits.
pub open spec fn signed(w: u32) -> i32 {
    if w < 0x8000_0000 {
        w as i32
    } else {
        (w - 0x1_0000_0000) as i32
    }
}

/// The signed integer with these bits.
pub fn as_signed(w: u32) -> (r: i32)
    ensures
        r == signed(w),
{
    if w < 0x8000_0000 {
        w as i32
    } else {
        (w as i64 - 0x1_0000_0000) as i32
    }
}

/// A reader for a file of this length; the checks in this order.
pub open spec fn reader_for(kind: &'static str, file_len: u64, budget: u64) -> Result<
    ReaderView,
    HnswError,
> {
    if file_len > budget {
        Err(
            HnswError::InvalidArgument(
                Reason::Data(DataFault::Budget { kind, len: file_len, budget }),
            ),
        )
    } else if file_len % 4 != 0 {
        Err(malformed(DataFault::Alignment { kind, len: file_len }))
    } else {
        Ok(
            ReaderView {
                kind,
                file_len,
                left: if file_len == u64::MAX {
                    u64::MAX
                } else {
                    (file_len + 1) as u64
                },
                phase: if file_len == 0 {
                    Phase::Done
                } else {
                    Phase::Dim
                },
                dim: 0,
                expected: 0,
                out: Seq::empty(),
            },
        )
    }
}

/// How many bytes a reader asks for.
pub open spec fn wanted(s: ReaderView) -> int {
    let need = match s.phase {
        Phase::Dim => 4,
        Phase::Values => 4 * s.dim,
        Phase::Probe => 1,
        Phase::Done => 0,
    };
    if need <= s.left {
        need
    } else {
        s.left as int
    }
}

/// What is wrong with the dimension `dim` of the next record, if anything.
pub open spec fn dim_fault(s: ReaderView, dim: i32) -> Option<DataFault> {
    let kind = s.kind;
    let record = s.out.len() as usize;
    let size = 4 + 4 * dim;
    if dim <= 0 {
        Some(DataFault::NonPositiveDim { kind, record, dim })
    } else if dim > 0xffff {
        Some(DataFault::WideDim { kind, record, dim })
    } else if s.dim == 0 && s.file_len as int % size != 0 {
        Some(
            DataFault::RecordSize {
                kind,
                len: s.file_len,
                size: size as u64,
                dim: dim as usize,
            },
        )
    } else if s.dim != 0 && s.dim != dim {
        Some(
            DataFault::DimChanged {
                kind,
                record,
                dim: dim as usize,
                expected: s.dim as usize,
            },
        )
    } else {
        None
    }
}

/// The reader after the bytes `b` that it asked for, or as many as there
/// were.
pub open spec fn fed(s: ReaderView, b: Seq<u8>) -> Result<ReaderView, HnswError> {
    let kind = s.kind;
    let record = s.out.len() as usize;
    let left = (s.left - b.len()) as u64;
    match s.phase {
        Phase::Dim => if b.len() == 0 {
            Ok(ReaderView { phase: Phase::Probe, ..s })
        } else if b.len() != 4 {
            Err(malformed(DataFault::PartialDim { kind, record, filled: b.len() as usize }))
        } else {
            let dim = signed(bytes::le32(b, 0));
            match dim_fault(s, dim) {
                Some(f) => Err(malformed(f)),
                None => Ok(
                    ReaderView {
                        phase: Phase::Values,
                        left,
                        dim: dim as u32,
                        expected: if s.dim == 0 {
                            (s.file_len as int / (4 + 4 * dim)) as u64
                        } else {
                            s.expected
                        },
                        ..s
                    },
                ),
            }
        },
        Phase::Values => if b.len() != 4 * s.dim {
            Err(
                malformed(
                    DataFault::TruncatedValues {
                        kind,
                        record,
                        filled: b.len() as usize,
                        need: (4 * s.dim) as usize,
                    },
                ),
            )
        } else {
            Ok(
                ReaderView {
                    phase: Phase::Dim,
                    left,
                    out: s.out.push(bytes::words_at(b, 0, s.dim as nat)),
                    ..s
                },
            )
        },
        Phase::Probe => if b.len() != 0 {
            Err(malformed(DataFault::Grew { kind, len: s.file_len }))
        } else if (s.dim == 0 && s.file_len > 0) || s.out.len() != s.expected {
            Err(
                malformed(
                    DataFault::Shrank {
                        kind,
                        records: record,
                        expected: s.expected,
                        len: s.file_len,
                    },
                ),
            )
        } else {
            Ok(ReaderView { phase: Phase::Done, ..s })
        },
        Phase::Done => Ok(s),
    }
}

impl VecsReader {
    /// A reader for a file that is said to be `file_len` long. The budget is
    /// checked first: nothing is read of a file that is over it.
    pub fn new(kind: &'static str, file_len: u64, budget: u64) -> (r: Result<Self, HnswError>)
        ensures
            match reader_for(kind, file_len, budget) {
                Err(e) => r == Err::<Self, HnswError>(e),
                Ok(s) => r matches Ok(v) && v@ == s && reader_ok(s),
            },
    {
        if file_len > budget {
            return Err(
                HnswError::InvalidArgument(
                    Reason::Data(DataFault::Budget { kind, len: file_len, budget }),
                ),
            );
        }
        if file_len % 4 != 0 {
            return Err(
                HnswError::Corrupted(Reason::Data(DataFault::Alignment { kind, len: file_len })),
            );
        }
        let phase: Phase = if file_len == 0 {
            Phase::Done
        } else {
            Phase::Dim
        };
        let v = VecsReader {
            kind,
            file_len,
            left: file_len.saturating_add(1),
            phase,
            dim: 0,
            expected: 0,
            out: Vec::new(),
        };
        assert(rows(v.out@) =~= Seq::<Seq<u32>>::empty());
        Ok(v)
    }

    /// Whether the file has been read.
    pub fn is_done(&self) -> (r: bool)
        ensures
            r == (self@.phase == Phase::Done),
    {
        self.phase == Phase::Done
    }

    /// How many bytes to read next.
    pub fn want(&self) -> (n: usize)
        requires
            reader_ok(self@),
        ensures
            n == wanted(self@),
    {
        let need: u64 = match self.phase {
            Phase::Dim => 4,
            Phase::Values => 4 * self.dim as u64,
            Phase::Probe => 1,
            Phase::Done => 0,
        };
        if need <= self.left {
            need as usize
        } else {
            self.left as usize
        }
    }

    /// Takes the bytes that were asked for. Fewer mean that the file ended.
    pub fn feed(&mut self, b: &[u8]) -> (r: Result<(), HnswError>)
        requires
            reader_ok(old(self)@),
            b@.len() <= wanted(old(self)@),
        ensures
            match fed(old(self)@, b@) {
                Err(e) => r == Err::<(), HnswError>(e) && final(self)@ == old(self)@,
                Ok(s) => r == Ok::<(), HnswError>(()) && final(self)@ == s,
            },
            reader_ok(final(self)@),
    {
        let kind: &'static str = self.kind;
        let record: usize = self.out.len();
        match self.phase {
            Phase::Dim => {
                if b.len() == 0 {
                    self.phase = Phase::Probe;
                    return Ok(());
                }
                if b.len() != 4 {
                    return Err(
                        HnswError::Corrupted(
                            Reason::Data(
                                DataFault::PartialDim { kind, record, filled: b.len() },
                            ),
                        ),
                    );
                }
                let dim: i32 = as_signed(bytes::get_u32(b, 0));
                if dim <= 0 {
                    return Err(
                        HnswError::Corrupted(
                            Reason::Data(DataFault::NonPositiveDim { kind, record, dim }),
                        ),
                    );
                }
                if dim > 0xffff {
                    return Err(
                        HnswError::Corrupted(
                            Reason::Data(DataFault::WideDim { kind, record, dim }),
                        ),
                    );
                }
                let size: u64 = 4 + 4 * dim as u64;
                if self.dim == 0 {
                    if self.file_len % size != 0 {
                        return Err(
                            HnswError::Corrupted(
                                Reason::Data(
                                    DataFault::RecordSize {
                                        kind,
                                        len: self.file_len,
                                        size,
                                        dim: dim as usize,
                                    },
                                ),
                            ),
                        );
                    }
                    self.expected = self.file_len / size;
                } else if self.dim != dim as u32 {
                    return Err(
                        HnswError::Corrupted(
                            Reason::Data(
                                DataFault::DimChanged {
                                    kind,
                                    record,
                                    dim: dim as usize,
                                    expected: self.dim as usize,
                                },
                            ),
                        ),
                    );
                }
                self.dim = dim as u32;
                self.left = self.left - 4;
                self.phase = Phase::Values;
                Ok(())
            },
            Phase::Values => {
                let need: usize = 4 * self.dim as usize;
                if b.len() != need {
                    return Err(
                        HnswError::Corrupted(
                            Reason::Data(
                                DataFault::TruncatedValues { kind, record, filled: b.len(), need },
                            ),
                        ),
                    );
                }
                let ghost before = self.out@;
                let row: Vec<u32> = bytes::get_words(b, 0, self.dim as usize);
                self.out.push(row);
                self.left = self.left - need as u64;
                self.phase = Phase::Dim;
                assert(rows(self.out@) =~= rows(before).push(row@));
                Ok(())
            },
            Phase::Probe => {
                if b.len() != 0 {
                    return Err(
                        HnswError::Corrupted(
                            Reason::Data(DataFault::Grew { kind, len: self.file_len }),
                        ),
                    );
                }
                if (self.dim == 0 && self.file_len > 0) || record as u64 != self.expected {
                    return Err(
                        HnswError::Corrupted(
                            Reason::Data(
                                DataFault::Shrank {
                                    kind,
                                    records: record,
                                    expected: self.expected,
                                    len: self.file_len,
                                },
                            ),
                        ),
                    );
                }
                self.phase = Phase::Done;
                Ok(())
            },
            Phase::Done => Ok(()),
        }
    }

    /// The records.
    pub fn into_rows(self) -> (v: Vec<Vec<u32>>)
        ensures
            rows(v@) == self@.out,
    {
        self.out
    }
}

/// The rank of a phase: how many phases are still to come without a byte.
pub open spec fn rank(p: Phase) -> int {
    match p {
        Phase::Values => 3,
        Phase::Dim => 2,
        Phase::Probe => 1,
        Phase::Done => 0,
    }
}

/// What a reader makes of a file with the bytes `b` from here on.
pub open spec fn run(s: ReaderView, b: Seq<u8>) -> Result<Seq<Seq<u32>>, HnswError>
    decreases s.left, rank(s.phase),
    when reader_ok(s)
{
    let n = if b.len() <= wanted(s) {
        b.len() as int
    } else {
        wanted(s)
    };
    if s.phase == Phase::Done {
        Ok(s.out)
    } else {
        match fed(s, b.take(n)) {
            Err(e) => Err(e),
            Ok(s1) => run(s1, b.skip(n)),
        }
    }
}

/// What [`read_vecs_stream`] answers.
pub open spec fn parsed(kind: &'static str, file_len: u64, budget: u64, b: Seq<u8>) -> Result<
    Seq<Seq<u32>>,
    HnswError,
> {
    match reader_for(kind, file_len, budget) {
        Err(e) => Err(e),
        Ok(s) => run(s, b),
    }
}

/// Reads a vector file that is said to be `file_len` long and has the bytes
/// `b`.
pub fn read_vecs_stream(b: &[u8], file_len: u64, budget: u64, kind: &'static str) -> (r: Result<
    Vec<Vec<u32>>,
    HnswError,
>)
    ensures
        match parsed(kind, file_len, budget, b@) {
            Err(e) => r == Err::<Vec<Vec<u32>>, HnswError>(e),
            Ok(v) => r matches Ok(w) && rows(w@) == v,
        },
{
    let mut s: VecsReader = match VecsReader::new(kind, file_len, budget) {
        Err(e) => {
            return Err(e);
        },
        Ok(s) => s,
    };
    let mut at: usize = 0;
    assert(b@.skip(0) =~= b@);
    while !s.is_done()
        invariant
            at <= b@.len(),
            reader_ok(s@),
            run(s@, b@.skip(at as int)) == parsed(kind, file_len, budget, b@),
        decreases s@.left, rank(s@.phase),
    {
        let want: usize = s.want();
        let n: usize = if b.len() - at <= want {
            b.len() - at
        } else {
            want
        };
        let chunk: &[u8] = vstd::slice::slice_subrange(b, at, at + n);
        proof {
            let rest = b@.skip(at as int);
            assert(chunk@ =~= rest.take(n as int));
            assert(rest.skip(n as int) =~= b@.skip(at + n));
        }
        match s.feed(chunk) {
            Err(e) => {
                return Err(e);
            },
            Ok(_) => {},
        }
        at = at + n;
    }
    Ok(s.into_rows())
}

/// Checks that a vector file is a regular file, before its length is trusted
/// or a byte is read.
pub fn check_regular(kind: &'static str, is_file: bool) -> (r: Result<(), HnswError>)
    ensures
        r == (if !is_file {
            Err::<(), HnswError>(
                HnswError::InvalidArgument(Reason::Data(DataFault::NotRegular { kind })),
            )
        } else {
            Ok(())
        }),
{
    if !is_file {
        return Err(HnswError::InvalidArgument(Reason::Data(DataFault::NotRegular { kind })));
    }
    Ok(())
}

/// Reads the bytes of an `.fvecs` file, if there are no more than the budget
/// allows. The values are the bits of `f32`.
pub fn read_fvecs_with_budget(b: &[u8], max_file_bytes: u64) -> (r: Result<
    Vec<Vec<u32>>,
    HnswError,
>)
    ensures
        match parsed("fvecs", b@.len() as u64, max_file_bytes, b@) {
            Err(e) => r == Err::<Vec<Vec<u32>>, HnswError>(e),
            Ok(v) => r matches Ok(w) && rows(w@) == v,
        },
{
    read_vecs_stream(b, b.len() as u64, max_file_bytes, "fvecs")
}

/// Reads the bytes of a trusted `.fvecs` file.
pub fn read_fvecs(b: &[u8]) -> (r: Result<Vec<Vec<u32>>, HnswError>)
    ensures
        match parsed("fvecs", b@.len() as u64, u64::MAX, b@) {
            Err(e) => r == Err::<Vec<Vec<u32>>, HnswError>(e),
            Ok(v) => r matches Ok(w) && rows(w@) == v,
        },
{
    read_fvecs_with_budget(b, u64::MAX)
}

/// Lists of signed integers, as contracts speak of them.
pub open spec fn signed_rows(v: Seq<Vec<i32>>) -> Seq<Seq<i32>> {
    Seq::new(v.len(), |i: int| v[i]@)
}

/// Words read as signed integers.
pub open spec fn all_signed(w: Seq<u32>) -> Seq<i32> {
    Seq::new(w.len(), |i: int| signed(w[i]))
}

/// Rows of words read as signed integers.
pub open spec fn rows_signed(v: Seq<Seq<u32>>) -> Seq<Seq<i32>> {
    Seq::new(v.len(), |i: int| all_signed(v[i]))
}

/// Reads rows of words as signed integers.
pub fn to_signed(v: &Vec<Vec<u32>>) -> (r: Vec<Vec<i32>>)
    ensures
        signed_rows(r@) == rows_signed(rows(v@)),
{
    let mut r: Vec<Vec<i32>> = Vec::new();
    let mut i: usize = 0;
    while i < v.len()
        invariant
            i <= v@.len(),
            r@.len() == i,
            signed_rows(r@) == rows_signed(rows(v@)).take(i as int),
        decreases v@.len() - i,
    {
        let ghost before = r@;
        let mut row: Vec<i32> = Vec::new();
        let mut j: usize = 0;
        while j < v[i].len()
            invariant
                i < v@.len(),
                j <= v@[i as int]@.len(),
                row@ == all_signed(v@[i as int]@).take(j as int),
            decreases v@[i as int]@.len() - j,
        {
            row.push(as_signed(v[i][j]));
            assert(row@ =~= all_signed(v@[i as int]@).take(j + 1));
            j = j + 1;
        }
        assert(row@ =~= all_signed(v@[i as int]@));
        r.push(row);
        assert(signed_rows(r@) =~= rows_signed(rows(v@)).take(i + 1)) by {
            let a = signed_rows(r@);
            let b = rows_signed(rows(v@)).take(i + 1);
            assert forall|k: int| 0 <= k < i + 1 implies a[k] == b[k] by {
                if k < i {
                    assert(signed_rows(before)[k] == rows_signed(rows(v@)).take(i as int)[k]);
                }
            }
        }
        i = i + 1;
    }
    assert(signed_rows(r@) =~= rows_signed(rows(v@)));
    r
}

/// Reads the bytes of an `.ivecs` file, if there are no more than the budget
/// allows.
pub fn read_ivecs_with_budget(b: &[u8], max_file_bytes: u64) -> (r: Result<
    Vec<Vec<i32>>,
    HnswError,
>)
    ensures
        match parsed("ivecs", b@.len() as u64, max_file_bytes, b@) {
            Err(e) => r == Err::<Vec<Vec<i32>>, HnswError>(e),
            Ok(v) => r matches Ok(w) && signed_rows(w@) == rows_signed(v),
        },
{
    match read_vecs_stream(b, b.len() as u64, max_file_bytes, "ivecs") {
        Err(e) => Err(e),
        Ok(v) => Ok(to_signed(&v)),
    }
}

/// Reads the bytes of a trusted `.ivecs` file.
pub fn read_ivecs(b: &[u8]) -> (r: Result<Vec<Vec<i32>>, HnswError>)
    ensures
        match parsed("ivecs", b@.len() as u64, u64::MAX, b@) {
            Err(e) => r == Err::<Vec<Vec<i32>>, HnswError>(e),
            Ok(v) => r matches Ok(w) && signed_rows(w@) == rows_signed(v),
        },
{
    read_ivecs_with_budget(b, u64::MAX)
}

// ---------------------------------------------------------------------
// What reading promises.
// ---------------------------------------------------------------------

/// No reader asks for more than one byte past the length of its file,
/// whatever comes: what it asks for is within what is left, and what comes
/// is taken off that.
pub proof fn lemma_reading_is_capped(s: ReaderView, b: Seq<u8>)
    requires
        reader_ok(s),
        b.len() <= wanted(s),
    ensures
        wanted(s) <= s.left,
        fed(s, b) matches Ok(s1) ==> s1.left == s.left - b.len() && reader_ok(s1),
        forall|kind: &'static str, len: u64, budget: u64|
            (#[trigger] reader_for(kind, len, budget)) matches Ok(s0) ==> s0.left <= len + 1,
{
}

/// The bytes of a vector file.
pub open spec fn vecs_bytes(records: Seq<Seq<u32>>) -> Seq<u8>
    decreases records.len(),
{
    if records.len() == 0 {
        Seq::empty()
    } else {
        bytes::u32_le(records[0].len() as u32) + bytes::words_le(records[0]) + vecs_bytes(
            records.skip(1),
        )
    }
}

/// A vector file is as long as its records.
proof fn lemma_vecs_len(records: Seq<Seq<u32>>, dim: u32)
    requires
        forall|i: int| 0 <= i < records.len() ==> (#[trigger] records[i]).len() == dim,
    ensures
        vecs_bytes(records).len() == records.len() * (4 + 4 * dim),
    decreases records.len(),
{
    let size = 4 + 4 * dim as int;
    if records.len() > 0 {
        let rest = records.skip(1);
        assert forall|i: int| 0 <= i < rest.len() implies (#[trigger] rest[i]).len() == dim by {
            assert(rest[i] == records[i + 1]);
        }
        lemma_vecs_len(rest, dim);
        bytes::lemma_words_le(records[0]);
        bytes::lemma_u32_le(records[0].len() as u32);
        assert(records.len() * size == rest.len() * size + size) by (nonlinear_arith)
            requires
                records.len() == rest.len() + 1,
        ;
    } else {
        assert(0 * size == 0);
    }
}

/// A reader that has its dimension reads a record.
proof fn lemma_run_record(s: ReaderView, db: Seq<u8>, vb: Seq<u8>, rb: Seq<u8>)
    requires
        s.phase == Phase::Dim,
        1 <= s.dim <= 0xffff,
        db.len() == 4,
        bytes::le32(db, 0) == s.dim,
        vb.len() == 4 * s.dim,
        s.left >= 4 + 4 * s.dim,
    ensures
        run(s, db + vb + rb) == run(
            ReaderView {
                left: (s.left - 4 - 4 * s.dim) as u64,
                out: s.out.push(bytes::words_at(vb, 0, s.dim as nat)),
                ..s
            },
            rb,
        ),
{
    let b = db + vb + rb;
    let s1 = ReaderView { phase: Phase::Values, left: (s.left - 4) as u64, ..s };
    let s2 = ReaderView {
        left: (s.left - 4 - 4 * s.dim) as u64,
        out: s.out.push(bytes::words_at(vb, 0, s.dim as nat)),
        ..s
    };
    assert(b.take(4) =~= db);
    assert(b.skip(4) =~= vb + rb);
    assert(fed(s, db) == Ok::<ReaderView, HnswError>(s1));
    assert(run(s, b) == run(s1, vb + rb));
    let n = 4 * s.dim as int;
    assert((vb + rb).take(n) =~= vb);
    assert((vb + rb).skip(n) =~= rb);
    assert(fed(s1, vb) == Ok::<ReaderView, HnswError>(s2));
    assert(run(s1, vb + rb) == run(s2, rb));
}

/// A reader that has its dimension reads the records that are left.
proof fn lemma_run_reads(s: ReaderView, records: Seq<Seq<u32>>)
    requires
        s.phase == Phase::Dim,
        1 <= s.dim <= 0xffff,
        s.left == vecs_bytes(records).len() + 1,
        s.out.len() + records.len() == s.expected,
        forall|i: int| 0 <= i < records.len() ==> (#[trigger] records[i]).len() == s.dim,
    ensures
        run(s, vecs_bytes(records)) == Ok::<Seq<Seq<u32>>, HnswError>(s.out + records),
    decreases records.len(),
{
    let b = vecs_bytes(records);
    if records.len() == 0 {
        reveal_with_fuel(run, 3);
        assert(b.take(0) =~= Seq::<u8>::empty());
        assert(b.skip(0) =~= b);
        assert(s.out + records =~= s.out);
    } else {
        let v = records[0];
        let rest = records.skip(1);
        let db = bytes::u32_le(s.dim);
        let vb = bytes::words_le(v);
        let rb = vecs_bytes(rest);
        bytes::lemma_u32_le(s.dim);
        bytes::lemma_words_le(v);
        assert(bytes::words_at(vb, 0, s.dim as nat) == v) by {
            assert(vb.subrange(0, 4 * s.dim as int) =~= vb);
            bytes::lemma_words_inside(vb, 0, v);
        }
        lemma_run_record(s, db, vb, rb);
        let s2 = ReaderView {
            left: (s.left - 4 - 4 * s.dim) as u64,
            out: s.out.push(v),
            ..s
        };
        assert forall|i: int| 0 <= i < rest.len() implies (#[trigger] rest[i]).len()
            == s2.dim by {
            assert(rest[i] == records[i + 1]);
        }
        lemma_run_reads(s2, rest);
        assert(s2.out + rest =~= s.out + records);
    }
}

/// A file reads as the records that it was made of: any number of records
/// with one dimension between 1 and 65535, within the budget.
pub proof fn lemma_vector_files_read_back(
    kind: &'static str,
    budget: u64,
    records: Seq<Seq<u32>>,
    dim: u32,
)
    requires
        1 <= dim <= 0xffff,
        forall|i: int| 0 <= i < records.len() ==> (#[trigger] records[i]).len() == dim,
        vecs_bytes(records).len() < u64::MAX,
        vecs_bytes(records).len() <= budget,
    ensures
        parsed(kind, vecs_bytes(records).len() as u64, budget, vecs_bytes(records)) == Ok::<
            Seq<Seq<u32>>,
            HnswError,
        >(records),
{
    let b = vecs_bytes(records);
    let len = b.len() as u64;
    let size = 4 + 4 * dim as int;
    let n = records.len() as int;
    lemma_vecs_len(records, dim);
    assert(n * size == 4 * (n * (1 + dim))) by (nonlinear_arith)
        requires
            size == 4 + 4 * dim,
    ;
    let s = reader_for(kind, len, budget)->Ok_0;
    if n == 0 {
        assert(records =~= Seq::empty());
    } else {
        assert(len > 0) by (nonlinear_arith)
            requires
                len == n * size,
                n > 0,
                size > 0,
        ;
        assert(len as int % size == 0 && len as int / size == n) by (nonlinear_arith)
            requires
                len == n * size,
                size > 0,
        ;
        let t = ReaderView { dim, expected: n as u64, ..s };
        lemma_run_reads(t, records);
        let v = records[0];
        let db = bytes::u32_le(dim);
        bytes::lemma_u32_le(dim);
        bytes::lemma_words_le(v);
        assert(b.take(4) =~= db);
        assert(n <= n * size) by (nonlinear_arith)
            requires
                n > 0,
                size >= 1,
        ;
        assert(fed(s, db) == fed(t, db));
        assert(run(s, b) == run(t, b)) by {
            reveal_with_fuel(run, 2);
        }
        assert(t.out + records =~= records);
    }
}

/// What every reader of a file keeps from the start: the length that the file
/// is said to have is a whole number of the records that were seen, and it is
/// spent on those records when the reader is done.
#[verifier::opaque]
pub open spec fn accounts(s: ReaderView) -> bool {
    let size = 4 + 4 * s.dim;
    &&& s.dim == 0 ==> s.out.len() == 0
    &&& s.dim > 0 ==> s.file_len as int % size == 0 && s.expected == s.file_len as int / size
    &&& forall|i: int| 0 <= i < s.out.len() ==> (#[trigger] s.out[i]).len() == s.dim
    &&& s.phase == Phase::Dim || s.phase == Phase::Values ==> s.left % 4 == 1
    &&& s.phase == Phase::Done ==> s.out.len() * size == s.file_len
}

/// The records have one dimension, between 1 and 65535.
pub open spec fn one_dimension(records: Seq<Seq<u32>>) -> bool {
    forall|i: int|
        0 <= i < records.len() ==> (#[trigger] records[i]).len() == records[0].len() && 1
            <= records[i].len() <= 0xffff
}

/// A new reader accounts for its file.
pub proof fn lemma_new_readers_account(kind: &'static str, file_len: u64, budget: u64)
    ensures
        reader_for(kind, file_len, budget) matches Ok(s) ==> accounts(s),
{
    reveal(accounts);
}

/// A reader that accounts for its file goes on doing so, whatever bytes come
/// and in whatever pieces. So a reader that is done has records if and only
/// if its file was said to have bytes: a file that was emptied under the
/// reader is never read as one without records.
pub proof fn lemma_readers_account(s: ReaderView, b: Seq<u8>)
    requires
        reader_ok(s),
        accounts(s),
        b.len() <= wanted(s),
    ensures
        fed(s, b) matches Ok(s1) ==> accounts(s1),
        s.phase == Phase::Done ==> (s.out.len() > 0 <==> s.file_len > 0),
{
    reveal(accounts);
    let size = 4 + 4 * s.dim as int;
    if s.phase == Phase::Done {
        assert(s.out.len() > 0 <==> s.file_len > 0) by (nonlinear_arith)
            requires
                s.out.len() * size == s.file_len,
                size > 0,
                s.out.len() >= 0,
        ;
    }
    if s.phase == Phase::Probe && s.dim > 0 && s.out.len() == s.expected {
        assert(s.out.len() * size == s.file_len) by (nonlinear_arith)
            requires
                s.file_len as int % size == 0,
                s.out.len() == s.file_len as int / size,
                size > 0,
        ;
    }
}

/// The bytes of a vector file with one more record.
proof fn lemma_vecs_push(records: Seq<Seq<u32>>, v: Seq<u32>)
    ensures
        vecs_bytes(records.push(v)) == vecs_bytes(records) + bytes::u32_le(v.len() as u32)
            + bytes::words_le(v),
    decreases records.len(),
{
    let all = records.push(v);
    if records.len() == 0 {
        assert(all.skip(1) =~= Seq::empty());
        assert(vecs_bytes(all.skip(1)) =~= Seq::empty());
        assert(vecs_bytes(all) =~= vecs_bytes(records) + bytes::u32_le(v.len() as u32)
            + bytes::words_le(v));
    } else {
        assert(all.skip(1) =~= records.skip(1).push(v));
        lemma_vecs_push(records.skip(1), v);
        assert(vecs_bytes(all) =~= vecs_bytes(records) + bytes::u32_le(v.len() as u32)
            + bytes::words_le(v));
    }
}

/// The bytes of the record that a reader is in the middle of.
spec fn begun(s: ReaderView) -> Seq<u8> {
    if s.phase == Phase::Values {
        bytes::u32_le(s.dim)
    } else {
        Seq::empty()
    }
}

/// What a reader makes of the bytes that it takes at once.
proof fn lemma_fed_exact(s: ReaderView, b: Seq<u8>)
    requires
        reader_ok(s),
        accounts(s),
        fed(s, b) is Ok,
        b.len() <= wanted(s),
    ensures
        ({
            let s1 = fed(s, b)->Ok_0;
            vecs_bytes(s1.out) + begun(s1) == vecs_bytes(s.out) + begun(s) + b
        }),
        s.phase == Phase::Dim ==> wanted(s) > 0,
{
    reveal(accounts);
    let s1 = fed(s, b)->Ok_0;
    match s.phase {
        Phase::Dim => {
            if b.len() != 0 {
                bytes::lemma_le32_bytes(b, 0);
                assert(b.subrange(0, 4) =~= b);
                assert(s1.dim == bytes::le32(b, 0));
            }
        },
        Phase::Values => {
            let v = bytes::words_at(b, 0, s.dim as nat);
            bytes::lemma_words_at_bytes(b, 0, s.dim as nat);
            assert(b.subrange(0, 4 * s.dim as int) =~= b);
            lemma_vecs_push(s.out, v);
        },
        _ => {},
    }
    assert(vecs_bytes(s1.out) + begun(s1) =~= vecs_bytes(s.out) + begun(s) + b);
}

/// A reader's next step leaves the rest of the file to the steps after it.
proof fn lemma_run_step(s: ReaderView, b: Seq<u8>, n: int)
    requires
        reader_ok(s),
        accounts(s),
        s.phase != Phase::Done,
        s.phase == Phase::Probe ==> b.len() == 0,
        n == if b.len() <= wanted(s) {
            b.len() as int
        } else {
            wanted(s)
        },
        fed(s, b.take(n)) is Ok,
    ensures
        ({
            let s1 = fed(s, b.take(n))->Ok_0;
            &&& reader_ok(s1)
            &&& accounts(s1)
            &&& s1.file_len == s.file_len
            &&& s1.left < s.left || s1.left == s.left && rank(s1.phase) < rank(s.phase)
            &&& s1.phase == Phase::Probe || s1.phase == Phase::Done ==> b.skip(n).len() == 0
            &&& vecs_bytes(s1.out) + begun(s1) + b.skip(n) == vecs_bytes(s.out) + begun(s) + b
        }),
{
    let t = b.take(n);
    let s1 = fed(s, t)->Ok_0;
    lemma_readers_account(s, t);
    lemma_fed_exact(s, t);
    assert(t + b.skip(n) =~= b);
    assert(vecs_bytes(s1.out) + begun(s1) + b.skip(n) =~= vecs_bytes(s.out) + begun(s) + b);
}

/// What a reader answers is what its file holds.
proof fn lemma_run_exact(s: ReaderView, b: Seq<u8>)
    requires
        reader_ok(s),
        accounts(s),
        s.phase == Phase::Probe || s.phase == Phase::Done ==> b.len() == 0,
    ensures
        run(s, b) matches Ok(v) ==> {
            &&& vecs_bytes(v) == vecs_bytes(s.out) + begun(s) + b
            &&& vecs_bytes(v).len() == s.file_len
            &&& one_dimension(v)
        },
    decreases s.left, rank(s.phase),
{
    let n = if b.len() <= wanted(s) {
        b.len() as int
    } else {
        wanted(s)
    };
    if s.phase == Phase::Done {
        reveal(accounts);
        lemma_vecs_len(s.out, s.dim);
        assert(vecs_bytes(s.out) + begun(s) + b =~= vecs_bytes(s.out));
    } else if fed(s, b.take(n)) is Ok {
        lemma_run_step(s, b, n);
        lemma_run_exact(fed(s, b.take(n))->Ok_0, b.skip(n));
    }
}

/// What is read accounts for every byte that the file is said to have. The
/// records of a file that is read are as long as its declared length; unless
/// that is 0, there is a record, and the file is the bytes of its records and
/// nothing else. All records have one dimension.
pub proof fn lemma_declared_length_is_read(
    kind: &'static str,
    file_len: u64,
    budget: u64,
    b: Seq<u8>,
)
    ensures
        parsed(kind, file_len, budget, b) matches Ok(v) ==> {
            &&& vecs_bytes(v).len() == file_len
            &&& one_dimension(v)
            &&& file_len > 0 ==> v.len() > 0 && b == vecs_bytes(v)
        },
{
    if reader_for(kind, file_len, budget) is Ok {
        let s = reader_for(kind, file_len, budget)->Ok_0;
        lemma_new_readers_account(kind, file_len, budget);
        if s.phase != Phase::Done {
            lemma_run_exact(s, b);
            assert(vecs_bytes(s.out) + begun(s) + b =~= b);
        }
    }
}

// ---------------------------------------------------------------------
// Recall.
// ---------------------------------------------------------------------

/// How well a search did: of the `k` nearest vectors of each of `queries`
/// queries, `hits` were found.
#[derive(Debug, Clone, Copy, PartialEq, Eq, Structural)]
pub struct RecallScore {
    /// How many were found.
    pub hits: u128,
    /// The number of queries.
    pub queries: usize,
    /// How many were looked for, per query.
    pub k: usize,
}

/// What is wrong with the first `n` ids of a ground-truth row, if anything.
pub open spec fn truth_fault(query: usize, row: Seq<i32>, base_count: u32, n: nat) -> Option<
    RecallFault,
>
    decreases n,
{
    if n == 0 {
        None
    } else {
        let id = row[n - 1];
        match truth_fault(query, row, base_count, (n - 1) as nat) {
            Some(f) => Some(f),
            None => if id < 0 {
                Some(RecallFault::TruthNegative { query, id })
            } else if id >= base_count {
                Some(RecallFault::TruthRange { query, id: id as u32, base_count })
            } else {
                None
            },
        }
    }
}

/// What is wrong with the first `n` ids of a retrieved row, if anything.
pub open spec fn retrieved_fault(
    query: usize,
    row: Seq<NodeId>,
    base_count: u32,
    n: nat,
) -> Option<RecallFault>
    decreases n,
{
    if n == 0 {
        None
    } else {
        let id = row[n - 1].0;
        match retrieved_fault(query, row, base_count, (n - 1) as nat) {
            Some(f) => Some(f),
            None => if id >= base_count {
                Some(RecallFault::RetrievedRange { query, id, base_count })
            } else {
                None
            },
        }
    }
}

/// What is wrong with the rows of a query, if anything; the checks in this
/// order.
pub open spec fn row_fault(
    query: usize,
    truth: Seq<i32>,
    retrieved: Seq<NodeId>,
    k: usize,
    base_count: u32,
) -> Option<RecallFault> {
    if truth.len() < k {
        Some(RecallFault::TruthShort { query, len: truth.len() as usize, k })
    } else if truth_fault(query, truth, base_count, k as nat) is Some {
        truth_fault(query, truth, base_count, k as nat)
    } else if !truth.take(k as int).no_duplicates() {
        Some(RecallFault::TruthDuplicate { query, k })
    } else if retrieved.len() < k {
        Some(RecallFault::RetrievedShort { query, len: retrieved.len() as usize, k })
    } else if retrieved_fault(query, retrieved, base_count, k as nat) is Some {
        retrieved_fault(query, retrieved, base_count, k as nat)
    } else if !retrieved.take(k as int).no_duplicates() {
        Some(RecallFault::RetrievedDuplicate { query, k })
    } else {
        None
    }
}

/// Whether a ground-truth id is among the first `k` of a retrieved row.
pub open spec fn found(id: i32, retrieved: Seq<NodeId>, k: usize) -> bool {
    exists|j: int| 0 <= j < k && (#[trigger] retrieved[j]).0 == id
}

/// How many of the first `n` ids of a ground-truth row are among the first
/// `k` of a retrieved row. The row's own order decides which ids count: they
/// are not sorted, and ties are not added.
pub open spec fn row_hits(truth: Seq<i32>, retrieved: Seq<NodeId>, k: usize, n: nat) -> nat
    decreases n,
{
    if n == 0 {
        0
    } else {
        row_hits(truth, retrieved, k, (n - 1) as nat) + if found(truth[n - 1], retrieved, k) {
            1nat
        } else {
            0
        }
    }
}

/// The hits of the first `n` queries.
pub open spec fn scored(
    truth: Seq<Seq<i32>>,
    retrieved: Seq<Seq<NodeId>>,
    k: usize,
    base_count: u32,
    n: nat,
) -> Result<nat, HnswError>
    decreases n,
{
    if n == 0 {
        Ok(0)
    } else {
        match scored(truth, retrieved, k, base_count, (n - 1) as nat) {
            Err(e) => Err(e),
            Ok(hits) => match row_fault(
                (n - 1) as usize,
                truth[n - 1],
                retrieved[n - 1],
                k,
                base_count,
            ) {
                Some(f) => Err(HnswError::InvalidArgument(Reason::Recall(f))),
                None => Ok(hits + row_hits(truth[n - 1], retrieved[n - 1], k, k as nat)),
            },
        }
    }
}

/// What [`recall_at_k`] answers; the checks in this order.
pub open spec fn recall(
    truth: Seq<Seq<i32>>,
    retrieved: Seq<Seq<NodeId>>,
    k: usize,
    base_count: u32,
) -> Result<RecallScore, HnswError> {
    if k == 0 {
        Err(HnswError::InvalidArgument(Reason::Recall(RecallFault::KZero)))
    } else if truth.len() != retrieved.len() {
        Err(
            HnswError::InvalidArgument(
                Reason::Recall(
                    RecallFault::Rows {
                        truth: truth.len() as usize,
                        retrieved: retrieved.len() as usize,
                    },
                ),
            ),
        )
    } else if truth.len() == 0 {
        Err(HnswError::InvalidArgument(Reason::Recall(RecallFault::NoQueries)))
    } else {
        match scored(truth, retrieved, k, base_count, truth.len()) {
            Err(e) => Err(e),
            Ok(hits) => Ok(
                RecallScore { hits: hits as u128, queries: truth.len() as usize, k },
            ),
        }
    }
}

/// A fault among the first ids is the fault of the row.
proof fn lemma_truth_fault_stays(query: usize, row: Seq<i32>, base_count: u32, n: nat, all: nat)
    requires
        n <= all,
        truth_fault(query, row, base_count, n) is Some,
    ensures
        truth_fault(query, row, base_count, all) == truth_fault(query, row, base_count, n),
    decreases all - n,
{
    if n < all {
        lemma_truth_fault_stays(query, row, base_count, n, (all - 1) as nat);
    }
}

/// A fault among the first ids is the fault of the row.
proof fn lemma_retrieved_fault_stays(
    query: usize,
    row: Seq<NodeId>,
    base_count: u32,
    n: nat,
    all: nat,
)
    requires
        n <= all,
        retrieved_fault(query, row, base_count, n) is Some,
    ensures
        retrieved_fault(query, row, base_count, all) == retrieved_fault(query, row, base_count, n),
    decreases all - n,
{
    if n < all {
        lemma_retrieved_fault_stays(query, row, base_count, n, (all - 1) as nat);
    }
}

/// Checks the ids of a ground-truth row.
fn check_truth(query: usize, row: &Vec<i32>, base_count: u32, k: usize) -> (r: Option<RecallFault>)
    requires
        k <= row@.len(),
    ensures
        r == truth_fault(query, row@, base_count, k as nat),
{
    let mut i: usize = 0;
    while i < k
        invariant
            i <= k <= row@.len(),
            truth_fault(query, row@, base_count, i as nat) is None,
        decreases k - i,
    {
        let id: i32 = row[i];
        if id < 0 {
            proof {
                lemma_truth_fault_stays(query, row@, base_count, (i + 1) as nat, k as nat);
            }
            return Some(RecallFault::TruthNegative { query, id });
        }
        if id as u32 >= base_count {
            proof {
                lemma_truth_fault_stays(query, row@, base_count, (i + 1) as nat, k as nat);
            }
            return Some(RecallFault::TruthRange { query, id: id as u32, base_count });
        }
        i = i + 1;
    }
    None
}

/// Checks the ids of a retrieved row.
fn check_retrieved(query: usize, row: &Vec<NodeId>, base_count: u32, k: usize) -> (r: Option<
    RecallFault,
>)
    requires
        k <= row@.len(),
    ensures
        r == retrieved_fault(query, row@, base_count, k as nat),
{
    let mut i: usize = 0;
    while i < k
        invariant
            i <= k <= row@.len(),
            retrieved_fault(query, row@, base_count, i as nat) is None,
        decreases k - i,
    {
        let id: u32 = row[i].0;
        if id >= base_count {
            proof {
                lemma_retrieved_fault_stays(query, row@, base_count, (i + 1) as nat, k as nat);
            }
            return Some(RecallFault::RetrievedRange { query, id, base_count });
        }
        i = i + 1;
    }
    None
}

/// Whether the first `k` ids of a ground-truth row are all different.
fn distinct_truth(row: &Vec<i32>, k: usize) -> (r: bool)
    requires
        k <= row@.len(),
    ensures
        r == row@.take(k as int).no_duplicates(),
{
    let ghost t = row@.take(k as int);
    let mut i: usize = 0;
    while i < k
        invariant
            i <= k <= row@.len(),
            t == row@.take(k as int),
            forall|a: int, b: int| 0 <= a < i && 0 <= b < k && a != b ==> t[a] != t[b],
        decreases k - i,
    {
        let mut j: usize = i + 1;
        while j < k
            invariant
                i < j <= k <= row@.len(),
                t == row@.take(k as int),
                forall|b: int| i < b < j ==> t[i as int] != t[b],
            decreases k - j,
        {
            if row[i] == row[j] {
                assert(t[i as int] == t[j as int]);
                return false;
            }
            j = j + 1;
        }
        i = i + 1;
    }
    true
}

/// Whether the first `k` ids of a retrieved row are all different.
fn distinct_retrieved(row: &Vec<NodeId>, k: usize) -> (r: bool)
    requires
        k <= row@.len(),
    ensures
        r == row@.take(k as int).no_duplicates(),
{
    let ghost t = row@.take(k as int);
    let mut i: usize = 0;
    while i < k
        invariant
            i <= k <= row@.len(),
            t == row@.take(k as int),
            forall|a: int, b: int| 0 <= a < i && 0 <= b < k && a != b ==> t[a] != t[b],
        decreases k - i,
    {
        let mut j: usize = i + 1;
        while j < k
            invariant
                i < j <= k <= row@.len(),
                t == row@.take(k as int),
                forall|b: int| i < b < j ==> t[i as int] != t[b],
            decreases k - j,
        {
            if row[i].0 == row[j].0 {
                assert(t[i as int] == t[j as int]);
                return false;
            }
            assert(t[i as int].0 != t[j as int].0);
            j = j + 1;
        }
        i = i + 1;
    }
    true
}

/// Checks the rows of a query.
fn check_rows(
    query: usize,
    truth: &Vec<i32>,
    retrieved: &Vec<NodeId>,
    k: usize,
    base_count: u32,
) -> (r: Option<RecallFault>)
    ensures
        r == row_fault(query, truth@, retrieved@, k, base_count),
{
    if truth.len() < k {
        return Some(RecallFault::TruthShort { query, len: truth.len(), k });
    }
    match check_truth(query, truth, base_count, k) {
        Some(f) => {
            return Some(f);
        },
        None => {},
    }
    if !distinct_truth(truth, k) {
        return Some(RecallFault::TruthDuplicate { query, k });
    }
    if retrieved.len() < k {
        return Some(RecallFault::RetrievedShort { query, len: retrieved.len(), k });
    }
    match check_retrieved(query, retrieved, base_count, k) {
        Some(f) => {
            return Some(f);
        },
        None => {},
    }
    if !distinct_retrieved(retrieved, k) {
        return Some(RecallFault::RetrievedDuplicate { query, k });
    }
    None
}

/// Whether an id is among the first `k` of a retrieved row.
fn find_id(id: i32, retrieved: &Vec<NodeId>, k: usize) -> (r: bool)
    requires
        k <= retrieved@.len(),
    ensures
        r == found(id, retrieved@, k),
{
    let mut j: usize = 0;
    while j < k
        invariant
            j <= k <= retrieved@.len(),
            forall|i: int| 0 <= i < j ==> (#[trigger] retrieved@[i]).0 != id,
        decreases k - j,
    {
        if id >= 0 && retrieved[j].0 == id as u32 {
            assert(retrieved@[j as int].0 == id);
            return true;
        }
        j = j + 1;
    }
    false
}

/// Counts the hits of a query.
fn count_hits(truth: &Vec<i32>, retrieved: &Vec<NodeId>, k: usize) -> (n: usize)
    requires
        k <= truth@.len(),
        k <= retrieved@.len(),
    ensures
        n == row_hits(truth@, retrieved@, k, k as nat),
        n <= k,
{
    let mut n: usize = 0;
    let mut i: usize = 0;
    while i < k
        invariant
            i <= k <= truth@.len(),
            k <= retrieved@.len(),
            n == row_hits(truth@, retrieved@, k, i as nat),
            n <= i,
        decreases k - i,
    {
        if find_id(truth[i], retrieved, k) {
            n = n + 1;
        }
        i = i + 1;
    }
    n
}

/// A failure at the first queries is the failure of all.
proof fn lemma_scored_fails(
    truth: Seq<Seq<i32>>,
    retrieved: Seq<Seq<NodeId>>,
    k: usize,
    base_count: u32,
    n: nat,
    all: nat,
)
    requires
        n <= all,
        scored(truth, retrieved, k, base_count, n) is Err,
    ensures
        scored(truth, retrieved, k, base_count, all) == scored(truth, retrieved, k, base_count, n),
    decreases all - n,
{
    if n < all {
        lemma_scored_fails(truth, retrieved, k, base_count, n, (all - 1) as nat);
    }
}

/// Lists of ids, as contracts speak of them.
pub open spec fn id_rows(v: Seq<Vec<NodeId>>) -> Seq<Seq<NodeId>> {
    Seq::new(v.len(), |i: int| v[i]@)
}

/// Recall: how many of the first `k` ids of each ground-truth row a search
/// retrieved. A row that is too short, holds an id that is no base vector, or
/// holds an id twice, is refused: it would lower the score without a word.
pub fn recall_at_k(
    ground_truth: &[Vec<i32>],
    retrieved: &[Vec<NodeId>],
    k: usize,
    base_count: u32,
) -> (r: Result<RecallScore, HnswError>)
    ensures
        r == recall(signed_rows(ground_truth@), id_rows(retrieved@), k, base_count),
{
    let ghost truth = signed_rows(ground_truth@);
    let ghost got = id_rows(retrieved@);
    if k == 0 {
        return Err(HnswError::InvalidArgument(Reason::Recall(RecallFault::KZero)));
    }
    if ground_truth.len() != retrieved.len() {
        return Err(
            HnswError::InvalidArgument(
                Reason::Recall(
                    RecallFault::Rows { truth: ground_truth.len(), retrieved: retrieved.len() },
                ),
            ),
        );
    }
    if ground_truth.len() == 0 {
        return Err(HnswError::InvalidArgument(Reason::Recall(RecallFault::NoQueries)));
    }
    let mut hits: u128 = 0;
    let mut q: usize = 0;
    assert(0 * k == 0);
    while q < ground_truth.len()
        invariant
            q <= ground_truth.len(),
            ground_truth@.len() == retrieved@.len(),
            truth == signed_rows(ground_truth@),
            got == id_rows(retrieved@),
            scored(truth, got, k, base_count, q as nat) == Ok::<nat, HnswError>(hits as nat),
            hits <= q * k,
        decreases ground_truth@.len() - q,
    {
        assert(truth[q as int] == ground_truth@[q as int]@);
        assert(got[q as int] == retrieved@[q as int]@);
        match check_rows(q, &ground_truth[q], &retrieved[q], k, base_count) {
            Some(f) => {
                proof {
                    lemma_scored_fails(truth, got, k, base_count, (q + 1) as nat, truth.len());
                }
                return Err(HnswError::InvalidArgument(Reason::Recall(f)));
            },
            None => {},
        }
        let n: usize = count_hits(&ground_truth[q], &retrieved[q], k);
        proof {
            assert((q + 1) * k == q * k + k) by (nonlinear_arith);
            assert((q + 1) * k <= 0xffff_ffff_ffff_ffff * 0xffff_ffff_ffff_ffff)
                by (nonlinear_arith)
                requires
                    q + 1 <= 0xffff_ffff_ffff_ffff,
                    k <= 0xffff_ffff_ffff_ffff,
            ;
        }
        hits = hits + n as u128;
        q = q + 1;
    }
    Ok(RecallScore { hits, queries: ground_truth.len(), k })
}

/// A score is at most 1: no more is found than was looked for. It is 1
/// exactly where every row's first `k` ids were all retrieved.
pub proof fn lemma_recall_is_a_fraction(
    truth: Seq<Seq<i32>>,
    retrieved: Seq<Seq<NodeId>>,
    k: usize,
    base_count: u32,
    n: nat,
)
    ensures
        scored(truth, retrieved, k, base_count, n) matches Ok(hits) ==> {
            &&& hits <= n * k
            &&& hits == n * k <==> forall|q: int, i: int|
                0 <= q < n && 0 <= i < k ==> found(#[trigger] truth[q][i], retrieved[q], k)
        },
    decreases n,
{
    if n > 0 {
        lemma_recall_is_a_fraction(truth, retrieved, k, base_count, (n - 1) as nat);
        if let Ok(hits) = scored(truth, retrieved, k, base_count, n) {
            lemma_row_hits(truth[n - 1], retrieved[n - 1], k, k as nat);
            assert(n * k == (n - 1) * k + k) by (nonlinear_arith)
                requires
                    n >= 1,
            ;
            let before = scored(truth, retrieved, k, base_count, (n - 1) as nat)->Ok_0;
            if hits == n * k {
                assert forall|q: int, i: int| 0 <= q < n && 0 <= i < k implies found(
                    #[trigger] truth[q][i],
                    retrieved[q],
                    k,
                ) by {}
            } else if forall|q: int, i: int|
                0 <= q < n && 0 <= i < k ==> found(#[trigger] truth[q][i], retrieved[q], k) {
                assert forall|i: int| 0 <= i < k implies found(
                    #[trigger] truth[n - 1][i],
                    retrieved[n - 1],
                    k,
                ) by {}
            }
        }
    } else {
        assert(0 * k == 0);
    }
}

/// A row has at most as many hits as ids, and as many exactly where all were
/// found.
proof fn lemma_row_hits(truth: Seq<i32>, retrieved: Seq<NodeId>, k: usize, n: nat)
    ensures
        row_hits(truth, retrieved, k, n) <= n,
        row_hits(truth, retrieved, k, n) == n <==> forall|i: int|
            0 <= i < n ==> found(#[trigger] truth[i], retrieved, k),
    decreases n,
{
    if n > 0 {
        lemma_row_hits(truth, retrieved, k, (n - 1) as nat);
        if forall|i: int| 0 <= i < n ==> found(#[trigger] truth[i], retrieved, k) {
            assert(found(truth[n - 1], retrieved, k));
        }
    }
}

} // verus!

//! The delta format: a compact binary encoding of how to rebuild a target
//! object from a base object. A delta is a header (base size, result size,
//! each a little-endian base-128 integer) followed by COPY and INSERT
//! operations.

use vstd::prelude::*;
use crate::bytes::append_range;

verus! {

/// Why reading or applying a delta failed.
#[derive(Debug, PartialEq, Eq, Structural)]
pub enum DeltaError {
    /// A read went past the end of the delta data.
    UnexpectedEnd,
    /// A variable-length size needs more bits than a `usize` holds.
    SizeOverflow,
    /// An INSERT announces more bytes than the delta has left.
    InsertOverflow,
    /// The base object does not have the size the header announces.
    BaseSizeMismatch { expected: usize, actual: usize },
    /// `offset + length` of a COPY does not fit in a `usize`.
    CopyOverflow,
    /// A COPY reaches outside the base object.
    CopyOutOfRange { offset: usize, end: usize, base_len: usize },
    /// The rebuilt object does not have the size the header announces.
    ResultSizeMismatch { expected: usize, actual: usize },
}

/// A single delta operation.
#[derive(Debug, PartialEq, Eq)]
pub enum DeltaOp {
    /// Copy `length` bytes of the base object, starting at `offset`.
    Copy { offset: usize, length: usize },
    /// Append these bytes.
    Insert(Vec<u8>),
}

/// The mathematical value of a delta operation.
pub ghost enum OpModel {
    Copy { offset: usize, length: usize },
    Insert(Seq<u8>),
}

impl View for DeltaOp {
    type V = OpModel;

    open spec fn view(&self) -> OpModel {
        match self {
            DeltaOp::Copy { offset, length } => OpModel::Copy { offset: *offset, length: *length },
            DeltaOp::Insert(d) => OpModel::Insert(d@),
        }
    }
}

/// The models of a sequence of operations.
pub open spec fn ops_model(ops: Seq<DeltaOp>) -> Seq<OpModel> {
    ops.map_values(|o: DeltaOp| o@)
}

/// A reader over raw delta bytes.
pub struct Delta<'a> {
    data: &'a [u8],
    position: usize,
}

// ---------------------------------------------------------------------------
// The format, as functions of the bytes and a read position. Each returns what
// is read and the position after the read (on failure, where reading stopped).
// ---------------------------------------------------------------------------
/// Reading one byte.
pub open spec fn spec_read_byte(data: Seq<u8>, pos: int) -> (Result<u8, DeltaError>, int) {
    if 0 <= pos < data.len() {
        (Ok(data[pos]), pos + 1)
    } else {
        (Err(DeltaError::UnexpectedEnd), pos)
    }
}

/// The value of a little-endian base-128 integer whose first byte is at `pos`,
/// given the bits `acc` already gathered and the place `shift` of the next group:
/// each byte gives its low 7 bits; a byte with the high bit clear ends it.
pub open spec fn spec_size_from(data: Seq<u8>, pos: int, shift: u32, acc: usize) -> (Result<usize, DeltaError>, int)
    decreases usize::BITS - shift,
{
    if !(0 <= pos < data.len()) {
        (Err(DeltaError::UnexpectedEnd), pos)
    } else {
        let b = data[pos];
        let acc2 = if shift < usize::BITS { acc | (((b & 0x7f) as usize) << shift) } else { acc };
        if b & 0x80 == 0 {
            (Ok(acc2), pos + 1)
        } else if shift + 7 >= usize::BITS {
            (Err(DeltaError::SizeOverflow), pos + 1)
        } else {
            spec_size_from(data, pos + 1, (shift + 7) as u32, acc2)
        }
    }
}

/// Reading a variable-length size.
pub open spec fn spec_read_size(data: Seq<u8>, pos: int) -> (Result<usize, DeltaError>, int) {
    spec_size_from(data, pos, 0, 0)
}

/// Reading the header: the base size, then the result size.
pub open spec fn spec_parse_header(data: Seq<u8>, pos: int) -> (Result<(usize, usize), DeltaError>, int) {
    let (r1, p1) = spec_read_size(data, pos);
    match r1 {
        Err(e) => (Err(e), p1),
        Ok(base_size) => {
            let (r2, p2) = spec_read_size(data, p1);
            match r2 {
                Err(e) => (Err(e), p2),
                Ok(result_size) => (Ok((base_size, result_size)), p2),
            }
        },
    }
}

/// Whether bit `i` of `cmd` is set.
pub open spec fn bit_set(cmd: u8, i: int) -> bool {
    0 <= i < 8 && (cmd >> (i as u8)) & 1 == 1
}

/// The weight of byte `k` of a little-endian field.
pub open spec fn byte_weight(k: int) -> int {
    if k <= 0 {
        1
    } else if k == 1 {
        0x100
    } else if k == 2 {
        0x10000
    } else if k == 3 {
        0x1000000
    } else {
        0x100000000
    }
}

/// A little-endian field of a COPY: for each bit `i` in `i..end` of `cmd` that is
/// set, one byte follows, of weight `byte_weight(i - first)`. `None` when the data
/// ends before the field does; otherwise the value and the position after it.
pub open spec fn spec_flagged_field(data: Seq<u8>, pos: int, cmd: u8, first: int, i: int, end: int) -> Option<(int, int)>
    decreases end - i,
{
    if i >= end {
        Some((0, pos))
    } else if !bit_set(cmd, i) {
        spec_flagged_field(data, pos, cmd, first, i + 1, end)
    } else if !(0 <= pos < data.len()) {
        None
    } else {
        match spec_flagged_field(data, pos + 1, cmd, first, i + 1, end) {
            Some((v, q)) => Some((data[pos] * byte_weight(i - first) + v, q)),
            None => None,
        }
    }
}

/// Reading the fields of a COPY whose command byte is `cmd`: bits 0-3 flag the
/// offset bytes, bits 4-6 the length bytes; a length of 0 stands for 0x10000.
pub open spec fn spec_parse_copy(data: Seq<u8>, pos: int, cmd: u8) -> (Result<(usize, usize), DeltaError>, int) {
    match spec_flagged_field(data, pos, cmd, 0, 0, 4) {
        None => (Err(DeltaError::UnexpectedEnd), data.len() as int),
        Some((offset, p1)) => match spec_flagged_field(data, p1, cmd, 4, 4, 7) {
            None => (Err(DeltaError::UnexpectedEnd), data.len() as int),
            Some((length, p2)) => (
                Ok((offset as usize, if length == 0 { 0x10000usize } else { length as usize })),
                p2,
            ),
        },
    }
}

/// Reading the data of an INSERT whose command byte (its length) is `cmd`.
pub open spec fn spec_parse_insert(data: Seq<u8>, pos: int, cmd: u8) -> (Result<Seq<u8>, DeltaError>, int) {
    if pos + cmd > data.len() {
        (Err(DeltaError::InsertOverflow), pos)
    } else {
        (Ok(data.subrange(pos, pos + cmd)), pos + cmd)
    }
}

/// Reading operations from `pos` to the end of the data, after the operations
/// `acc` already read. A command byte with the high bit set starts a COPY;
/// otherwise it is the length of an INSERT.
pub open spec fn spec_ops_from(data: Seq<u8>, pos: int, acc: Seq<OpModel>) -> (Result<Seq<OpModel>, DeltaError>, int)
    decreases data.len() - pos,
{
    if !(0 <= pos < data.len()) {
        (Ok(acc), pos)
    } else {
        let cmd = data[pos];
        if cmd & 0x80 != 0 {
            let (r, p) = spec_parse_copy(data, pos + 1, cmd);
            match r {
                Err(e) => (Err(e), p),
                Ok((offset, length)) => if p <= pos || p > data.len() {
                    (Ok(acc), p)
                } else {
                    spec_ops_from(data, p, acc.push(OpModel::Copy { offset, length }))
                },
            }
        } else {
            let (r, p) = spec_parse_insert(data, pos + 1, cmd);
            match r {
                Err(e) => (Err(e), p),
                Ok(d) => spec_ops_from(data, p, acc.push(OpModel::Insert(d))),
            }
        }
    }
}

/// Reading all operations from `pos` on.
pub open spec fn spec_parse_ops(data: Seq<u8>, pos: int) -> (Result<Seq<OpModel>, DeltaError>, int) {
    spec_ops_from(data, pos, Seq::empty())
}

/// Applying operations to `base`, after `out` was already produced.
pub open spec fn spec_apply_ops(base: Seq<u8>, ops: Seq<OpModel>, out: Seq<u8>) -> Result<Seq<u8>, DeltaError>
    decreases ops.len(),
{
    if ops.len() == 0 {
        Ok(out)
    } else {
        let rest = ops.drop_first();
        match ops[0] {
            OpModel::Copy { offset, length } => {
                if offset + length > usize::MAX {
                    Err(DeltaError::CopyOverflow)
                } else if offset >= base.len() || offset + length > base.len() {
                    Err(DeltaError::CopyOutOfRange {
                        offset,
                        end: (offset + length) as usize,
                        base_len: base.len() as usize,
                    })
                } else {
                    spec_apply_ops(base, rest, out + base.subrange(offset as int, offset + length))
                }
            },
            OpModel::Insert(d) => spec_apply_ops(base, rest, out + d),
        }
    }
}

/// What applying `delta` to `base` gives.
pub open spec fn spec_apply_delta(base: Seq<u8>, delta: Seq<u8>) -> Result<Seq<u8>, DeltaError> {
    let (h, p) = spec_parse_header(delta, 0);
    match h {
        Err(e) => Err(e),
        Ok((base_size, result_size)) => if base.len() != base_size {
            Err(DeltaError::BaseSizeMismatch { expected: base_size, actual: base.len() as usize })
        } else {
            let (ops, _) = spec_parse_ops(delta, p);
            match ops {
                Err(e) => Err(e),
                Ok(ops) => spec_check_result_size(spec_apply_ops(base, ops, Seq::empty()), result_size),
            }
        },
    }
}

/// A rebuilt object is accepted only with the size the header announces.
pub open spec fn spec_check_result_size(r: Result<Seq<u8>, DeltaError>, result_size: usize) -> Result<Seq<u8>, DeltaError> {
    match r {
        Err(e) => Err(e),
        Ok(result) => if result.len() != result_size {
            Err(DeltaError::ResultSizeMismatch { expected: result_size, actual: result.len() as usize })
        } else {
            Ok(result)
        },
    }
}

impl<'a> Delta<'a> {
    /// The bytes being read.
    pub closed spec fn bytes(&self) -> Seq<u8> {
        self.data@
    }

    /// The read position.
    pub closed spec fn pos(&self) -> int {
        self.position as int
    }

    /// The position never passes the end of the data.
    pub closed spec fn wf(&self) -> bool {
        self.position <= self.data@.len()
    }

    /// The read position is never negative, and in a well-formed reader it
    /// lies within the data.
    pub proof fn lemma_pos_in_range(&self)
        ensures
            0 <= self.pos(),
            self.wf() <==> self.pos() <= self.bytes().len(),
    {
    }

    /// Creates a reader at the start of `data`.
    pub fn new(data: &'a [u8]) -> (d: Self)
        ensures
            d.bytes() == data@,
            d.pos() == 0,
            d.wf(),
    {
        Self { data, position: 0 }
    }

    /// Reads one byte.
    pub fn read_byte(&mut self) -> (r: Result<u8, DeltaError>)
        requires
            old(self).wf(),
        ensures
            final(self).wf(),
            final(self).bytes() == old(self).bytes(),
            (r, final(self).pos()) == spec_read_byte(old(self).bytes(), old(self).pos()),
    {
        if self.position >= self.data.len() {
            return Err(DeltaError::UnexpectedEnd);
        }
        let b = self.data[self.position];
        self.position = self.position + 1;
        Ok(b)
    }

    /// Reads a variable-length size: little-endian groups of 7 bits, each byte
    /// but the last with its high bit set.
    pub fn read_size(&mut self) -> (r: Result<usize, DeltaError>)
        requires
            old(self).wf(),
        ensures
            final(self).wf(),
            final(self).bytes() == old(self).bytes(),
            (r, final(self).pos()) == spec_read_size(old(self).bytes(), old(self).pos()),
    {
        let ghost data = self.bytes();
        let ghost start = self.pos();
        let mut size: usize = 0;
        let mut shift: u32 = 0;
        loop
            invariant
                self.wf(),
                self.bytes() == data,
                data == old(self).bytes(),
                start == old(self).pos(),
                shift < usize::BITS,
                spec_read_size(data, start) == spec_size_from(data, self.pos(), shift, size),
            decreases usize::BITS - shift,
        {
            let byte: u8 = match self.read_byte() {
                Ok(b) => b,
                Err(e) => {
                    return Err(e);
                },
            };
            size = size | (((byte & 0x7F) as usize) << shift);
            if (byte & 0x80) == 0 {
                return Ok(size);
            }
            if shift + 7 >= usize::BITS {
                return Err(DeltaError::SizeOverflow);
            }
            shift = shift + 7;
        }
    }

    /// Parses the header: the base size, then the result size.
    pub fn parse_header(&mut self) -> (r: Result<(usize, usize), DeltaError>)
        requires
            old(self).wf(),
        ensures
            final(self).wf(),
            final(self).bytes() == old(self).bytes(),
            (r, final(self).pos()) == spec_parse_header(old(self).bytes(), old(self).pos()),
    {
        let base_size: usize = match self.read_size() {
            Ok(s) => s,
            Err(e) => {
                return Err(e);
            },
        };
        let result_size: usize = match self.read_size() {
            Ok(s) => s,
            Err(e) => {
                return Err(e);
            },
        };
        Ok((base_size, result_size))
    }

    /// Parses the offset and length of a COPY whose command byte is `cmd`.
    /// Bits 0-3 of `cmd` say which offset bytes follow, bits 4-6 which length
    /// bytes follow, least significant first; a length of 0 means 0x10000.
    pub fn parse_copy_op(&mut self, cmd: u8) -> (r: Result<(usize, usize), DeltaError>)
        requires
            old(self).wf(),
        ensures
            final(self).wf(),
            final(self).bytes() == old(self).bytes(),
            final(self).pos() >= old(self).pos(),
            (r, final(self).pos()) == spec_parse_copy(old(self).bytes(), old(self).pos(), cmd),
    {
        let ghost data = self.bytes();
        let ghost start = self.pos();
        let mut offset: usize = 0;
        let mut i: u32 = 0;
        while i < 4
            invariant
                self.wf(),
                self.bytes() == data,
                data == old(self).bytes(),
                start == old(self).pos(),
                start <= self.pos(),
                i <= 4,
                offset < byte_weight(i as int),
                spec_flagged_field(data, start, cmd, 0, 0, 4) == add_field(
                    offset as int,
                    spec_flagged_field(data, self.pos(), cmd, 0, i as int, 4),
                ),
            decreases 4 - i,
        {
            proof {
                lemma_bit_set(cmd, i);
            }
            if cmd & (1u8 << i) != 0 {
                let b: u8 = match self.read_byte() {
                    Ok(b) => b,
                    Err(e) => {
                        return Err(e);
                    },
                };
                proof {
                    lemma_or_byte(offset, b, i);
                }
                offset = offset | ((b as usize) << (i * 8));
            }
            i = i + 1;
        }
        let ghost mid = self.pos();
        let mut length: usize = 0;
        while i < 7
            invariant
                self.wf(),
                self.bytes() == data,
                data == old(self).bytes(),
                start == old(self).pos(),
                start <= mid <= self.pos(),
                4 <= i <= 7,
                length < byte_weight(i - 4),
                offset < byte_weight(4),
                spec_flagged_field(data, start, cmd, 0, 0, 4) == Some((offset as int, mid)),
                spec_flagged_field(data, mid, cmd, 4, 4, 7) == add_field(
                    length as int,
                    spec_flagged_field(data, self.pos(), cmd, 4, i as int, 7),
                ),
            decreases 7 - i,
        {
            proof {
                lemma_bit_set(cmd, i);
            }
            if cmd & (1u8 << i) != 0 {
                let b: u8 = match self.read_byte() {
                    Ok(b) => b,
                    Err(e) => {
                        return Err(e);
                    },
                };
                proof {
                    lemma_or_byte(length, b, (i - 4) as u32);
                }
                length = length | ((b as usize) << ((i - 4) * 8));
            }
            i = i + 1;
        }
        if length == 0 {
            length = 0x10000;
        }
        Ok((offset, length))
    }

    /// Reads the data of an INSERT; the command byte `cmd` is its length.
    pub fn parse_insert_data(&mut self, cmd: u8) -> (r: Result<Vec<u8>, DeltaError>)
        requires
            old(self).wf(),
        ensures
            final(self).wf(),
            final(self).bytes() == old(self).bytes(),
            final(self).pos() >= old(self).pos(),
            (result_view(r), final(self).pos()) == spec_parse_insert(
                old(self).bytes(),
                old(self).pos(),
                cmd,
            ),
    {
        let length: usize = cmd as usize;
        if length > self.data.len() - self.position {
            return Err(DeltaError::InsertOverflow);
        }
        let start: usize = self.position;
        let end: usize = start + length;
        self.position = end;
        let mut out: Vec<u8> = Vec::new();
        append_range(&mut out, self.data, start, end);
        assert(out@ =~= self.data@.subrange(start as int, end as int));
        Ok(out)
    }

    /// Parses every operation from the current position to the end of the data.
    pub fn parse_ops(&mut self) -> (r: Result<Vec<DeltaOp>, DeltaError>)
        requires
            old(self).wf(),
        ensures
            final(self).wf(),
            final(self).bytes() == old(self).bytes(),
            (ops_result_view(r), final(self).pos()) == spec_parse_ops(
                old(self).bytes(),
                old(self).pos(),
            ),
            r is Ok ==> final(self).pos() == final(self).bytes().len(),
    {
        let ghost data = self.bytes();
        let ghost start = self.pos();
        let mut ops: Vec<DeltaOp> = Vec::new();
        assert(ops_model(ops@) =~= Seq::empty());
        while self.position < self.data.len()
            invariant
                self.wf(),
                self.bytes() == data,
                data == old(self).bytes(),
                start == old(self).pos(),
                spec_parse_ops(data, start) == spec_ops_from(data, self.pos(), ops_model(ops@)),
            decreases data.len() - self.pos(),
        {
            let ghost here = self.pos();
            let cmd: u8 = match self.read_byte() {
                Ok(c) => c,
                Err(e) => {
                    return Err(e);
                },
            };
            if cmd & 0x80 != 0 {
                let (offset, length): (usize, usize) = match self.parse_copy_op(cmd) {
                    Ok(v) => v,
                    Err(e) => {
                        return Err(e);
                    },
                };
                let op = DeltaOp::Copy { offset, length };
                assert(ops_model(ops@.push(op)) =~= ops_model(ops@).push(op@));
                ops.push(op);
            } else {
                let data_bytes = match self.parse_insert_data(cmd) {
                    Ok(d) => d,
                    Err(e) => {
                        return Err(e);
                    },
                };
                let op = DeltaOp::Insert(data_bytes);
                assert(ops_model(ops@.push(op)) =~= ops_model(ops@).push(op@));
                ops.push(op);
            }
        }
        Ok(ops)
    }
}

/// Rebuilds a target object by applying `delta` to `base`.
///
/// Fails when the header cannot be read, when `base` does not have the size the
/// header announces, when an operation cannot be read or reaches outside `base`,
/// and when the result does not have the size the header announces.
pub fn apply_delta(base: &[u8], delta: &[u8]) -> (r: Result<Vec<u8>, DeltaError>)
    ensures
        result_view(r) == spec_apply_delta(base@, delta@),
{
    let mut parser = Delta::new(delta);
    let (base_size, result_size): (usize, usize) = match parser.parse_header() {
        Ok(h) => h,
        Err(e) => {
            return Err(e);
        },
    };
    if base.len() != base_size {
        return Err(DeltaError::BaseSizeMismatch { expected: base_size, actual: base.len() });
    }
    let ops = match parser.parse_ops() {
        Ok(ops) => ops,
        Err(e) => {
            return Err(e);
        },
    };
    let ghost model = ops_model(ops@);
    let mut result: Vec<u8> = Vec::with_capacity(result_size);
    let mut i: usize = 0;
    assert(model.skip(0) =~= model);
    while i < ops.len()
        invariant
            0 <= i <= ops@.len(),
            model == ops_model(ops@),
            spec_apply_delta(base@, delta@) == spec_check_result_size(
                spec_apply_ops(base@, model, Seq::empty()),
                result_size,
            ),
            spec_apply_ops(base@, model, Seq::empty()) == spec_apply_ops(
                base@,
                model.skip(i as int),
                result@,
            ),
        decreases ops@.len() - i,
    {
        assert(model.skip(i as int).drop_first() =~= model.skip(i + 1));
        assert(model.skip(i as int)[0] == ops@[i as int]@);
        match &ops[i] {
            DeltaOp::Copy { offset, length } => {
                let end: usize = match offset.checked_add(*length) {
                    Some(e) => e,
                    None => {
                        return Err(DeltaError::CopyOverflow);
                    },
                };
                if *offset >= base.len() || end > base.len() {
                    return Err(
                        DeltaError::CopyOutOfRange { offset: *offset, end, base_len: base.len() },
                    );
                }
                append_range(&mut result, base, *offset, end);
            },
            DeltaOp::Insert(data) => {
                append_range(&mut result, data.as_slice(), 0, data.len());
                assert(data@.subrange(0, data@.len() as int) =~= data@);
            },
        }
        i = i + 1;
    }
    if result.len() != result_size {
        return Err(DeltaError::ResultSizeMismatch { expected: result_size, actual: result.len() });
    }
    Ok(result)
}

/// What a result of bytes is, seen as a sequence.
pub open spec fn result_view<E>(r: Result<Vec<u8>, E>) -> Result<Seq<u8>, E> {
    match r {
        Ok(v) => Ok(v@),
        Err(e) => Err(e),
    }
}

/// What a result of operations is, seen as models.
pub open spec fn ops_result_view(r: Result<Vec<DeltaOp>, DeltaError>) -> Result<Seq<OpModel>, DeltaError> {
    match r {
        Ok(v) => Ok(ops_model(v@)),
        Err(e) => Err(e),
    }
}

/// Adds `v` to the value of a field read.
pub open spec fn add_field(v: int, r: Option<(int, int)>) -> Option<(int, int)> {
    match r {
        Some((w, q)) => Some((v + w, q)),
        None => None,
    }
}

/// 1 where `cmd` has the bit `mask` set, else 0.
pub open spec fn flag(cmd: u8, mask: u8) -> int {
    if cmd & mask != 0 {
        1
    } else {
        0
    }
}

/// The number of bytes that follow a COPY command byte `cmd`: one for each of
/// its bits 0 to 6 that is set.
pub open spec fn copy_field_bytes(cmd: u8) -> int {
    flag(cmd, 0x01) + flag(cmd, 0x02) + flag(cmd, 0x04) + flag(cmd, 0x08) + flag(cmd, 0x10) + flag(
        cmd,
        0x20,
    ) + flag(cmd, 0x40)
}

/// The offset a COPY command byte `cmd` gives with its bytes from `pos`: for
/// each of bits 0 to 3 that is set, in order, the next byte, times 256 to the
/// power of the bit's number.
pub open spec fn copy_offset(data: Seq<u8>, pos: int, cmd: u8) -> int {
    let f0 = flag(cmd, 0x01);
    let f1 = flag(cmd, 0x02);
    let f2 = flag(cmd, 0x04);
    let f3 = flag(cmd, 0x08);
    (if f0 == 1 { data[pos] as int } else { 0 }) + (if f1 == 1 {
        data[pos + f0] * 256
    } else {
        0
    }) + (if f2 == 1 {
        data[pos + f0 + f1] * 65536
    } else {
        0
    }) + (if f3 == 1 {
        data[pos + f0 + f1 + f2] * 16777216
    } else {
        0
    })
}

/// The length field of a COPY command byte `cmd` with its bytes from `pos`:
/// after the offset bytes, for each of bits 4 to 6 that is set, in order, the
/// next byte, times 256 to the power of the bit's number less four.
pub open spec fn copy_length_field(data: Seq<u8>, pos: int, cmd: u8) -> int {
    let k = flag(cmd, 0x01) + flag(cmd, 0x02) + flag(cmd, 0x04) + flag(cmd, 0x08);
    let f4 = flag(cmd, 0x10);
    let f5 = flag(cmd, 0x20);
    let f6 = flag(cmd, 0x40);
    (if f4 == 1 { data[pos + k] as int } else { 0 }) + (if f5 == 1 {
        data[pos + k + f4] * 256
    } else {
        0
    }) + (if f6 == 1 {
        data[pos + k + f4 + f5] * 65536
    } else {
        0
    })
}

/// The bits of a command byte, by mask.
proof fn lemma_flags(cmd: u8)
    ensures
        bit_set(cmd, 0) == (cmd & 0x01 != 0),
        bit_set(cmd, 1) == (cmd & 0x02 != 0),
        bit_set(cmd, 2) == (cmd & 0x04 != 0),
        bit_set(cmd, 3) == (cmd & 0x08 != 0),
        bit_set(cmd, 4) == (cmd & 0x10 != 0),
        bit_set(cmd, 5) == (cmd & 0x20 != 0),
        bit_set(cmd, 6) == (cmd & 0x40 != 0),
        !bit_set(cmd, 7) || bit_set(cmd, 7),
{
    assert((cmd >> 0u8) & 1 == 1 <==> cmd & 0x01 != 0) by (bit_vector);
    assert((cmd >> 1u8) & 1 == 1 <==> cmd & 0x02 != 0) by (bit_vector);
    assert((cmd >> 2u8) & 1 == 1 <==> cmd & 0x04 != 0) by (bit_vector);
    assert((cmd >> 3u8) & 1 == 1 <==> cmd & 0x08 != 0) by (bit_vector);
    assert((cmd >> 4u8) & 1 == 1 <==> cmd & 0x10 != 0) by (bit_vector);
    assert((cmd >> 5u8) & 1 == 1 <==> cmd & 0x20 != 0) by (bit_vector);
    assert((cmd >> 6u8) & 1 == 1 <==> cmd & 0x40 != 0) by (bit_vector);
}

/// One step of reading a flagged field: bit `i` of `cmd` either adds the byte
/// at `pos`, of weight `byte_weight(i - first)`, or adds nothing.
proof fn lemma_field_step(
    data: Seq<u8>,
    pos: int,
    cmd: u8,
    first: int,
    i: int,
    end: int,
    v: int,
    q: int,
)
    requires
        0 <= pos,
        i < end,
        bit_set(cmd, i) ==> pos < data.len(),
        spec_flagged_field(data, if bit_set(cmd, i) { pos + 1 } else { pos }, cmd, first, i + 1, end)
            == Some((v, q)),
    ensures
        spec_flagged_field(data, pos, cmd, first, i, end) == Some(
            ((if bit_set(cmd, i) { data[pos] * byte_weight(i - first) } else { 0 }) + v, q),
        ),
{
}

/// The offset bytes of a COPY read as `copy_offset`, ending after them.
#[verifier::spinoff_prover]
proof fn lemma_offset_field(data: Seq<u8>, pos: int, cmd: u8)
    requires
        0 <= pos,
        pos + flag(cmd, 0x01) + flag(cmd, 0x02) + flag(cmd, 0x04) + flag(cmd, 0x08) <= data.len(),
    ensures
        spec_flagged_field(data, pos, cmd, 0, 0, 4) == Some(
            (
                copy_offset(data, pos, cmd),
                pos + flag(cmd, 0x01) + flag(cmd, 0x02) + flag(cmd, 0x04) + flag(cmd, 0x08),
            ),
        ),
        0 <= copy_offset(data, pos, cmd) < 0x100000000,
{
    lemma_flags(cmd);
    let f0 = flag(cmd, 0x01);
    let f1 = flag(cmd, 0x02);
    let f2 = flag(cmd, 0x04);
    let f3 = flag(cmd, 0x08);
    let p1 = pos + f0;
    let p2 = p1 + f1;
    let p3 = p2 + f2;
    let p4 = p3 + f3;
    let v3: int = if f3 == 1 { data[p3] * 16777216 } else { 0 };
    let v2: int = if f2 == 1 { data[p2] * 65536 } else { 0 };
    let v1: int = if f1 == 1 { data[p1] * 256 } else { 0 };
    assert(spec_flagged_field(data, p4, cmd, 0, 4, 4) == Some((0int, p4)));
    lemma_field_step(data, p3, cmd, 0, 3, 4, 0, p4);
    lemma_field_step(data, p2, cmd, 0, 2, 4, v3, p4);
    lemma_field_step(data, p1, cmd, 0, 1, 4, v2 + v3, p4);
    lemma_field_step(data, pos, cmd, 0, 0, 4, v1 + v2 + v3, p4);
}

/// The length bytes of a COPY, from `p`, read as `copy_length_field`.
#[verifier::spinoff_prover]
proof fn lemma_length_field(data: Seq<u8>, pos: int, p: int, cmd: u8)
    requires
        0 <= pos,
        p == pos + flag(cmd, 0x01) + flag(cmd, 0x02) + flag(cmd, 0x04) + flag(cmd, 0x08),
        p + flag(cmd, 0x10) + flag(cmd, 0x20) + flag(cmd, 0x40) <= data.len(),
    ensures
        spec_flagged_field(data, p, cmd, 4, 4, 7) == Some(
            (copy_length_field(data, pos, cmd), p + flag(cmd, 0x10) + flag(cmd, 0x20) + flag(cmd, 0x40)),
        ),
        0 <= copy_length_field(data, pos, cmd) < 0x1000000,
{
    lemma_flags(cmd);
    let f4 = flag(cmd, 0x10);
    let f5 = flag(cmd, 0x20);
    let f6 = flag(cmd, 0x40);
    let q5 = p + f4;
    let q6 = q5 + f5;
    let q7 = q6 + f6;
    let u6: int = if f6 == 1 { data[q6] * 65536 } else { 0 };
    let u5: int = if f5 == 1 { data[q5] * 256 } else { 0 };
    assert(spec_flagged_field(data, q7, cmd, 4, 7, 7) == Some((0int, q7)));
    lemma_field_step(data, q6, cmd, 4, 6, 7, 0, q7);
    lemma_field_step(data, q5, cmd, 4, 5, 7, u6, q7);
    lemma_field_step(data, p, cmd, 4, 4, 7, u5 + u6, q7);
}

/// The fields of a COPY: where the data holds a byte for each of bits 0 to 6
/// of the command byte that is set, the offset is those of bits 0 to 3, each
/// times 256 to the power of its bit's number; the length those of bits 4 to 6
/// in the same way, a length of 0 standing for 0x10000; and reading goes on
/// after all of them.
pub proof fn lemma_copy_fields(data: Seq<u8>, pos: int, cmd: u8)
    requires
        0 <= pos,
        pos + copy_field_bytes(cmd) <= data.len(),
    ensures
        spec_parse_copy(data, pos, cmd) == (
            Ok::<(usize, usize), DeltaError>(
                (
                    copy_offset(data, pos, cmd) as usize,
                    if copy_length_field(data, pos, cmd) == 0 {
                        0x10000usize
                    } else {
                        copy_length_field(data, pos, cmd) as usize
                    },
                ),
            ),
            pos + copy_field_bytes(cmd),
        ),
        0 <= copy_offset(data, pos, cmd) < 0x100000000,
        0 <= copy_length_field(data, pos, cmd) < 0x1000000,
{
    let p = pos + flag(cmd, 0x01) + flag(cmd, 0x02) + flag(cmd, 0x04) + flag(cmd, 0x08);
    lemma_offset_field(data, pos, cmd);
    lemma_length_field(data, pos, p, cmd);
}

/// Reading operations at a COPY command byte (high bit set) whose field bytes
/// are all there reads one COPY, with the offset and length its bytes give
/// (`lemma_copy_fields`), and goes on after them.
pub proof fn lemma_copy_op(data: Seq<u8>, pos: int, acc: Seq<OpModel>)
    requires
        0 <= pos < data.len(),
        data[pos] & 0x80 != 0,
        pos + 1 + copy_field_bytes(data[pos]) <= data.len(),
    ensures
        spec_ops_from(data, pos, acc) == spec_ops_from(
            data,
            pos + 1 + copy_field_bytes(data[pos]),
            acc.push(
                OpModel::Copy {
                    offset: copy_offset(data, pos + 1, data[pos]) as usize,
                    length: if copy_length_field(data, pos + 1, data[pos]) == 0 {
                        0x10000usize
                    } else {
                        copy_length_field(data, pos + 1, data[pos]) as usize
                    },
                },
            ),
        ),
{
    lemma_copy_fields(data, pos + 1, data[pos]);
}

/// Reading operations at an INSERT command byte (high bit clear) reads that
/// many following bytes as the data to insert, and goes on after them; where
/// fewer bytes are left, reading fails with `InsertOverflow`.
pub proof fn lemma_insert_op(data: Seq<u8>, pos: int, acc: Seq<OpModel>)
    requires
        0 <= pos < data.len(),
        data[pos] & 0x80 == 0,
    ensures
        pos + 1 + data[pos] <= data.len() ==> spec_ops_from(data, pos, acc) == spec_ops_from(
            data,
            pos + 1 + data[pos],
            acc.push(OpModel::Insert(data.subrange(pos + 1, pos + 1 + data[pos]))),
        ),
        pos + 1 + data[pos] > data.len() ==> spec_ops_from(data, pos, acc).0 == Err::<
            Seq<OpModel>,
            DeltaError,
        >(DeltaError::InsertOverflow),
{
}

/// Sizes of one, two and three bytes: each byte gives its low seven bits, the
/// first the lowest; a byte below 0x80 is the last.
pub proof fn lemma_short_sizes(data: Seq<u8>, pos: int)
    requires
        0 <= pos,
    ensures
        pos < data.len() && data[pos] < 0x80 ==> spec_read_size(data, pos) == (
            Ok::<usize, DeltaError>(data[pos] as usize),
            pos + 1,
        ),
        pos + 1 < data.len() && data[pos] >= 0x80 && data[pos + 1] < 0x80 ==> spec_read_size(data, pos)
            == (Ok::<usize, DeltaError>(((data[pos] - 0x80) + data[pos + 1] * 128) as usize), pos + 2),
        pos + 2 < data.len() && data[pos] >= 0x80 && data[pos + 1] >= 0x80 && data[pos + 2] < 0x80
            ==> spec_read_size(data, pos) == (
            Ok::<usize, DeltaError>(
                ((data[pos] - 0x80) + (data[pos + 1] - 0x80) * 128 + data[pos + 2] * 16384) as usize,
            ),
            pos + 3,
        ),
{
    reveal_with_fuel(spec_size_from, 4);
    if pos < data.len() {
        let b0 = data[pos];
        assert(b0 < 0x80 ==> b0 & 0x80 == 0 && (b0 & 0x7f) as usize == b0 as usize
            && (0usize | (((b0 & 0x7f) as usize) << 0u32)) == b0 as usize) by (bit_vector);
        if b0 >= 0x80 && pos + 1 < data.len() {
            let b1 = data[pos + 1];
            let a0: usize = 0usize | (((b0 & 0x7f) as usize) << 0u32);
            assert(b0 >= 0x80 ==> b0 & 0x80 != 0 && a0 == (b0 - 0x80) as usize) by (bit_vector)
                requires
                    a0 == 0usize | (((b0 & 0x7f) as usize) << 0u32),
            ;
            assert(b1 < 0x80 ==> b1 & 0x80 == 0 && (a0 | (((b1 & 0x7f) as usize) << 7u32)) == a0 + (
            b1 as usize) * 128) by (bit_vector)
                requires
                    a0 < 0x80,
            ;
            if b1 >= 0x80 && pos + 2 < data.len() {
                let b2 = data[pos + 2];
                let a1: usize = a0 | (((b1 & 0x7f) as usize) << 7u32);
                assert(b1 >= 0x80 ==> b1 & 0x80 != 0 && a1 == a0 + ((b1 - 0x80) as usize) * 128)
                    by (bit_vector)
                    requires
                        a0 < 0x80,
                        a1 == a0 | (((b1 & 0x7f) as usize) << 7u32),
                ;
                assert(b2 < 0x80 ==> b2 & 0x80 == 0 && (a1 | (((b2 & 0x7f) as usize) << 14u32)) == a1
                    + (b2 as usize) * 16384) by (bit_vector)
                    requires
                        a1 < 0x4000,
                ;
            }
        }
    }
}

/// Applying operations one after another: applying a list is applying its
/// first part, then the rest to what that gave. A COPY within the base adds
/// the bytes of the base from its offset, as many as its length; an INSERT adds
/// its data.
pub proof fn lemma_apply_ops_parts(base: Seq<u8>, ops1: Seq<OpModel>, ops2: Seq<OpModel>, out: Seq<u8>)
    ensures
        spec_apply_ops(base, ops1 + ops2, out) == match spec_apply_ops(base, ops1, out) {
            Ok(o) => spec_apply_ops(base, ops2, o),
            Err(e) => Err(e),
        },
        forall|offset: usize, length: usize|
            offset < base.len() && offset + length <= base.len() && offset + length <= usize::MAX
                ==> #[trigger] spec_apply_ops(
                base,
                seq![OpModel::Copy { offset, length }],
                out,
            ) == Ok::<Seq<u8>, DeltaError>(out + base.subrange(offset as int, offset + length)),
        forall|d: Seq<u8>|
            #[trigger] spec_apply_ops(base, seq![OpModel::Insert(d)], out) == Ok::<Seq<u8>, DeltaError>(
                out + d,
            ),
    decreases ops1.len(),
{
    assert forall|offset: usize, length: usize|
        offset < base.len() && offset + length <= base.len() && offset + length <= usize::MAX
            implies #[trigger] spec_apply_ops(
        base,
        seq![OpModel::Copy { offset, length }],
        out,
    ) == Ok::<Seq<u8>, DeltaError>(out + base.subrange(offset as int, offset + length)) by {
        let ops = seq![OpModel::Copy { offset, length }];
        let o = out + base.subrange(offset as int, offset + length);
        assert(ops[0] == OpModel::Copy { offset, length });
        assert(ops.drop_first() =~= Seq::<OpModel>::empty());
        assert(spec_apply_ops(base, ops.drop_first(), o) == Ok::<Seq<u8>, DeltaError>(o));
    }
    assert forall|d: Seq<u8>|
        #[trigger] spec_apply_ops(base, seq![OpModel::Insert(d)], out) == Ok::<Seq<u8>, DeltaError>(
            out + d,
        ) by {
        let ops = seq![OpModel::Insert(d)];
        assert(ops[0] == OpModel::Insert(d));
        assert(ops.drop_first() =~= Seq::<OpModel>::empty());
        assert(spec_apply_ops(base, ops.drop_first(), out + d) == Ok::<Seq<u8>, DeltaError>(out + d));
    }
    if ops1.len() == 0 {
        assert(ops1 + ops2 =~= ops2);
    } else {
        assert((ops1 + ops2).drop_first() =~= ops1.drop_first() + ops2);
        assert((ops1 + ops2)[0] == ops1[0]);
        match ops1[0] {
            OpModel::Copy { offset, length } => {
                if offset + length <= usize::MAX && offset < base.len() && offset + length <= base.len() {
                    lemma_apply_ops_parts(
                        base,
                        ops1.drop_first(),
                        ops2,
                        out + base.subrange(offset as int, offset + length),
                    );
                }
            },
            OpModel::Insert(d) => {
                lemma_apply_ops_parts(base, ops1.drop_first(), ops2, out + d);
            },
        }
    }
}

proof fn lemma_bit_set(cmd: u8, i: u32)
    requires
        i < 8,
    ensures
        (cmd & (1u8 << i) != 0) == bit_set(cmd, i as int),
{
    assert((cmd & (1u8 << i) != 0) == ((cmd >> (i as u8)) & 1 == 1)) by (bit_vector)
        requires
            i < 8,
    ;
}

proof fn lemma_or_byte(acc: usize, b: u8, k: u32)
    requires
        k < 4,
        acc < byte_weight(k as int),
    ensures
        acc | ((b as usize) << (k * 8)) == acc + b * byte_weight(k as int),
        acc + b * byte_weight(k as int) < byte_weight(k + 1),
{
    if k == 0 {
        assert(acc < 1 ==> acc | ((b as usize) << 0u32) == acc + b) by (bit_vector);
    } else if k == 1 {
        assert(acc < 0x100 ==> acc | ((b as usize) << 8u32) == acc + b * 0x100) by (bit_vector);
    } else if k == 2 {
        assert(acc < 0x10000 ==> acc | ((b as usize) << 16u32) == acc + b * 0x10000)
            by (bit_vector);
    } else {
        assert(acc < 0x1000000 ==> acc | ((b as usize) << 24u32) == acc + b * 0x1000000)
            by (bit_vector);
    }
    let w = byte_weight(k as int);
    assert(byte_weight(k + 1) == 256 * w);
    assert(acc + b * w < 256 * w) by (nonlinear_arith)
        requires
            acc < w,
            b <= 255,
            w > 0,
    ;
}


/// A delta that applies cleanly announces the sizes it works with: its header
/// names the base's size and the size of what it builds.
pub proof fn lemma_applied_delta_sizes(base: Seq<u8>, delta: Seq<u8>)
    requires
        spec_apply_delta(base, delta) is Ok,
    ensures
        spec_parse_header(delta, 0).0 == Ok::<(usize, usize), DeltaError>(
            (base.len() as usize, spec_apply_delta(base, delta).unwrap().len() as usize),
        ),
{
}

} // verus!

//! Access plans: the byte operations that read or write one field value.
use vstd::prelude::*;
use vstd::arithmetic::power2::{pow2, lemma_pow2_adds, lemma2_to64};
use crate::bits::{bit_at, bit_nat, value_bit, field_prefix_written, lemma_masked_write_bit, lemma_shr_byte_bit, lemma_shl_byte_bit};

verus! {

/// One piece of a field read: `width` bits taken from byte `index`, namely
/// `(data[index] >> byte_shift) & mask`.
#[derive(Clone, Copy, Debug, PartialEq, Eq, Structural)]
pub struct GetChunk {
    pub index: usize,
    pub byte_shift: u8,
    pub mask: u8,
    pub width: u8,
}

impl GetChunk {
    /// The chunk lies inside its byte and its mask keeps exactly `width` bits.
    pub open spec fn wf(self) -> bool {
        &&& 1 <= self.width <= 8
        &&& self.byte_shift + self.width <= 8
        &&& self.mask == 0xFFu8 >> ((8 - self.width) as u8)
    }

    /// The number this chunk reads from `data`.
    pub open spec fn value(self, data: Seq<u8>) -> nat {
        ((data[self.index as int] >> self.byte_shift) & self.mask) as nat
    }
}

/// The number read by a chain of chunks: each chunk appends its bits below
/// those read before it.
pub open spec fn chunks_value(cs: Seq<GetChunk>, data: Seq<u8>) -> nat
    decreases cs.len(),
{
    if cs.len() == 0 {
        0
    } else {
        chunks_value(cs.drop_last(), data) * pow2(cs.last().width as nat) + cs.last().value(data)
    }
}

/// The number of bits a chain of chunks reads.
pub open spec fn chunks_width(cs: Seq<GetChunk>) -> nat
    decreases cs.len(),
{
    if cs.len() == 0 {
        0
    } else {
        chunks_width(cs.drop_last()) + cs.last().width as nat
    }
}

/// How a getter reads one value out of the data bytes.
#[derive(Debug, PartialEq, Eq)]
pub enum GetExpr {
    /// A one-bit value: `data[index] & (1 << shift) != 0`.
    Bit { index: usize, shift: u8 },
    /// A wider value, assembled from its chunks, the first being the most significant.
    Chunks { chunks: Vec<GetChunk> },
}

impl GetExpr {
    pub open spec fn wf(&self) -> bool {
        match self {
            GetExpr::Bit { index, shift } => *shift < 8,
            GetExpr::Chunks { chunks } => {
                &&& forall|k: int| 0 <= k < chunks@.len() ==> (#[trigger] chunks@[k]).wf()
                &&& chunks_width(chunks@) <= 128
            },
        }
    }

    /// Every byte the plan reads has an index below `n`.
    pub open spec fn reads_below(&self, n: nat) -> bool {
        match self {
            GetExpr::Bit { index, shift } => *index < n,
            GetExpr::Chunks { chunks } => forall|k: int|
                0 <= k < chunks@.len() ==> (#[trigger] chunks@[k]).index < n,
        }
    }

    /// Every byte the plan reads is at index `n` or after.
    pub open spec fn reads_from(&self, n: nat) -> bool {
        match self {
            GetExpr::Bit { index, shift } => *index >= n,
            GetExpr::Chunks { chunks } => forall|k: int|
                0 <= k < chunks@.len() ==> (#[trigger] chunks@[k]).index >= n,
        }
    }

    /// The number the plan reads from `data` (0 or 1 for a one-bit value).
    pub open spec fn value_in(&self, data: Seq<u8>) -> nat {
        match self {
            GetExpr::Bit { index, shift } => bit_nat(data[*index as int] & (1u8 << *shift) != 0u8),
            GetExpr::Chunks { chunks } => chunks_value(chunks@, data),
        }
    }
}

proof fn lemma_mask_value(w: u8)
    requires
        1 <= w <= 8,
    ensures
        (0xFFu8 >> ((8 - w) as u8)) as nat + 1 == pow2(w as nat),
{
    lemma2_to64();
    if w == 1 { assert(0xFFu8 >> 7u8 == 1u8) by (bit_vector); }
    else if w == 2 { assert(0xFFu8 >> 6u8 == 3u8) by (bit_vector); }
    else if w == 3 { assert(0xFFu8 >> 5u8 == 7u8) by (bit_vector); }
    else if w == 4 { assert(0xFFu8 >> 4u8 == 15u8) by (bit_vector); }
    else if w == 5 { assert(0xFFu8 >> 3u8 == 31u8) by (bit_vector); }
    else if w == 6 { assert(0xFFu8 >> 2u8 == 63u8) by (bit_vector); }
    else if w == 7 { assert(0xFFu8 >> 1u8 == 127u8) by (bit_vector); }
    else { assert(0xFFu8 >> 0u8 == 255u8) by (bit_vector); }
}

proof fn lemma_chunk_value_bound(c: GetChunk, data: Seq<u8>)
    requires
        c.wf(),
    ensures
        c.value(data) < pow2(c.width as nat),
{
    let b = data[c.index as int];
    let m = c.mask;
    let s = c.byte_shift;
    assert((b >> s) & m <= m) by (bit_vector);
    lemma_mask_value(c.width);
}

pub proof fn lemma_pow2_128()
    ensures
        pow2(128) == u128::MAX + 1,
{
    lemma2_to64();
    lemma_pow2_adds(64, 64);
}


proof fn lemma_chunks_width_prefix(cs: Seq<GetChunk>, j: int)
    requires
        0 <= j <= cs.len(),
    ensures
        chunks_width(cs.take(j)) <= chunks_width(cs),
    decreases cs.len(),
{
    if j == cs.len() {
        assert(cs.take(j) =~= cs);
    } else {
        assert(cs.take(j) =~= cs.drop_last().take(j));
        lemma_chunks_width_prefix(cs.drop_last(), j);
    }
}

proof fn lemma_pow2_le(a: nat, b: nat)
    requires
        a <= b,
    ensures
        pow2(a) <= pow2(b),
{
    if a < b {
        vstd::arithmetic::power2::lemma_pow2_strictly_increases(a, b);
    }
}

impl GetExpr {
    /// Reads the value this plan describes from `data`.
    pub fn eval(&self, data: &[u8]) -> (r: u128)
        requires
            self.wf(),
            self.reads_below(data@.len()),
        ensures
            r as nat == self.value_in(data@),
    {
        match self {
            GetExpr::Bit { index, shift } => {
                if data[*index] & (1u8 << *shift) != 0 {
                    1
                } else {
                    0
                }
            },
            GetExpr::Chunks { chunks } => {
                let mut acc: u128 = 0;
                let mut i: usize = 0;
                proof {
                    assert(chunks@.take(0) =~= Seq::<GetChunk>::empty());
                    vstd::arithmetic::power2::lemma_pow2_pos(0);
                }
                while i < chunks.len()
                    invariant
                        forall|k: int| 0 <= k < chunks@.len() ==> (#[trigger] chunks@[k]).wf(),
                        forall|k: int| 0 <= k < chunks@.len() ==> (#[trigger] chunks@[k]).index < data@.len(),
                        chunks_width(chunks@) <= 128,
                        0 <= i <= chunks.len(),
                        acc as nat == chunks_value(chunks@.take(i as int), data@),
                        acc < pow2(chunks_width(chunks@.take(i as int))),
                    decreases chunks.len() - i,
                {
                    let c = chunks[i];
                    let v = ((data[c.index] >> c.byte_shift) & c.mask) as u128;
                    proof {
                        let pre = chunks@.take(i as int);
                        let post = chunks@.take(i + 1);
                        assert(post.drop_last() =~= pre);
                        assert(post.last() == c);
                        lemma_chunks_width_prefix(chunks@, i + 1);
                        lemma_chunk_value_bound(c, data@);
                        lemma_mask_value(c.width);
                        let tp = chunks_width(pre);
                        let w = c.width as nat;
                        lemma_pow2_adds(tp, w);
                        lemma_pow2_le(tp + w, 128);
                        lemma_pow2_128();
                        let a = acc as int;
                        let pa = pow2(tp) as int;
                        let pw = pow2(w) as int;
                        assert(a * pw + v <= pa * pw - 1) by (nonlinear_arith)
                            requires a <= pa - 1, 0 <= v <= pw - 1, pw >= 1;
                    }
                    acc = acc * (c.mask as u128 + 1) + v;
                    i += 1;
                }
                proof {
                    assert(chunks@.take(chunks@.len() as int) =~= chunks@);
                }
                acc
            },
        }
    }
}


/// One piece of a field write: byte `index` takes, on the bits of `mask`,
/// the bits of the value shifted right by `value_shift` (left by
/// `-value_shift` when that is negative).
#[derive(Clone, Copy, Debug, PartialEq, Eq, Structural)]
pub struct SetChunk {
    pub index: usize,
    pub mask: u8,
    pub value_shift: isize,
}

impl SetChunk {
    pub open spec fn wf(self) -> bool {
        -128 < self.value_shift < 128
    }

    /// The value, shifted into the position of this chunk's byte.
    pub open spec fn shifted(self, value: u128) -> u128 {
        if self.value_shift > 0 {
            value >> (self.value_shift as u128)
        } else {
            value << ((-self.value_shift) as u128)
        }
    }

    /// The byte `old` after the chunk writes `value` into it.
    pub open spec fn written(self, old: u8, value: u128) -> u8 {
        (old & !self.mask) | ((self.shifted(value) as u8) & self.mask)
    }
}

/// The data after a chain of chunks writes `value`, the first chunk first.
pub open spec fn apply_chunks(cs: Seq<SetChunk>, data: Seq<u8>, value: u128) -> Seq<u8>
    decreases cs.len(),
{
    if cs.len() == 0 {
        data
    } else {
        let d = apply_chunks(cs.drop_last(), data, value);
        let c = cs.last();
        d.update(c.index as int, c.written(d[c.index as int], value))
    }
}

pub proof fn lemma_apply_chunks_len(cs: Seq<SetChunk>, data: Seq<u8>, value: u128)
    requires
        forall|k: int| 0 <= k < cs.len() ==> (#[trigger] cs[k]).index < data.len(),
    ensures
        apply_chunks(cs, data, value).len() == data.len(),
    decreases cs.len(),
{
    if cs.len() > 0 {
        lemma_apply_chunks_len(cs.drop_last(), data, value);
        assert(cs.last() == cs[cs.len() - 1]);
    }
}

/// How a setter writes one value into the data bytes.
#[derive(Debug, PartialEq, Eq)]
pub enum SetStmt {
    /// A one-bit value: the bits of `mask` in byte `index` are set when the
    /// value's lowest bit is 1, and cleared when it is 0.
    Bit { index: usize, mask: u8 },
    /// A wider value, written chunk by chunk.
    Chunks { chunks: Vec<SetChunk> },
}

impl SetStmt {
    pub open spec fn wf(&self) -> bool {
        match self {
            SetStmt::Bit { index, mask } => true,
            SetStmt::Chunks { chunks } => forall|k: int| 0 <= k < chunks@.len() ==> (#[trigger] chunks@[k]).wf(),
        }
    }

    /// Every byte the plan writes has an index below `n`.
    pub open spec fn writes_below(&self, n: nat) -> bool {
        match self {
            SetStmt::Bit { index, mask } => *index < n,
            SetStmt::Chunks { chunks } => forall|k: int|
                0 <= k < chunks@.len() ==> (#[trigger] chunks@[k]).index < n,
        }
    }

    /// Every byte the plan writes is at index `n` or after.
    pub open spec fn writes_from(&self, n: nat) -> bool {
        match self {
            SetStmt::Bit { index, mask } => *index >= n,
            SetStmt::Chunks { chunks } => forall|k: int|
                0 <= k < chunks@.len() ==> (#[trigger] chunks@[k]).index >= n,
        }
    }

    /// Each chunk shifts the value right by at most `hi` bits and left by
    /// at most `lo` bits.
    pub open spec fn shifts_within(&self, lo: int, hi: int) -> bool {
        match self {
            SetStmt::Bit { index, mask } => true,
            SetStmt::Chunks { chunks } => forall|k: int|
                0 <= k < chunks@.len() ==> -lo <= (#[trigger] chunks@[k]).value_shift <= hi,
        }
    }

    /// The data after the plan writes `value` into it.
    pub open spec fn applied(&self, data: Seq<u8>, value: u128) -> Seq<u8> {
        match self {
            SetStmt::Bit { index, mask } => {
                let b = data[*index as int];
                data.update(*index as int, if value & 1u128 == 1u128 { b | *mask } else { b & !*mask })
            },
            SetStmt::Chunks { chunks } => apply_chunks(chunks@, data, value),
        }
    }

    /// Writes `value` into `data` as this plan describes.
    pub fn apply(&self, data: &mut Vec<u8>, value: u128)
        requires
            self.wf(),
            self.writes_below(old(data)@.len()),
        ensures
            final(data)@ == self.applied(old(data)@, value),
    {
        match self {
            SetStmt::Bit { index, mask } => {
                let b = data[*index];
                if value & 1 == 1 {
                    data.set(*index, b | *mask);
                } else {
                    data.set(*index, b & !*mask);
                }
            },
            SetStmt::Chunks { chunks } => {
                let ghost orig = data@;
                let mut i: usize = 0;
                while i < chunks.len()
                    invariant
                        forall|k: int| 0 <= k < chunks@.len() ==> (#[trigger] chunks@[k]).wf(),
                        forall|k: int| 0 <= k < chunks@.len() ==> (#[trigger] chunks@[k]).index < orig.len(),
                        0 <= i <= chunks.len(),
                        data@ == apply_chunks(chunks@.take(i as int), orig, value),
                        data@.len() == orig.len(),
                    decreases chunks.len() - i,
                {
                    let c = chunks[i];
                    let shifted: u128 = if c.value_shift > 0 {
                        value >> (c.value_shift as u32)
                    } else {
                        value << ((-c.value_shift) as u32)
                    };
                    let b = data[c.index];
                    proof {
                        assert(chunks@.take(i + 1).drop_last() =~= chunks@.take(i as int));
                        assert(chunks@.take(i + 1).last() == c);
                        assert(shifted == c.shifted(value));
                    }
                    data.set(c.index, (b & !c.mask) | ((shifted as u8) & c.mask));
                    i += 1;
                }
                proof {
                    assert(chunks@.take(chunks@.len() as int) =~= chunks@);
                }
            },
        }
    }
}


/// The mask of the `w` bits of a byte that start `o` bits below its most
/// significant bit.
pub open spec fn run_mask(o: int, w: int) -> u8 {
    (0xFFu8 >> ((8 - w) as u8)) << ((8 - w - o) as u8)
}

/// A chunk that writes the field bits `done .. done + w` of a `len`-bit field
/// at bit `start` extends the written prefix by those `w` bits.
pub proof fn lemma_set_chunk_step(
    data: Seq<u8>,
    d: Seq<u8>,
    c: SetChunk,
    start: int,
    len: nat,
    done: nat,
    w: nat,
    v: u128,
)
    requires
        0 <= start,
        len <= 128,
        field_prefix_written(data, d, start, len, done, v),
        1 <= w,
        done + w <= len,
        (start + done) % 8 + w <= 8,
        c.index == (start + done) / 8,
        c.index < d.len(),
        c.mask == run_mask((start + done) % 8, w as int),
        c.value_shift == len - 8 + (start + done) % 8 - done,
    ensures
        field_prefix_written(data, d.update(c.index as int, c.written(d[c.index as int], v)), start, len, done + w, v),
{
    let idx = c.index as int;
    let pos = start + done;
    let o = pos % 8;
    let lo = (8 - w - o) as u8;
    let b = d[idx];
    let x = c.shifted(v) as u8;
    let nd = d.update(idx, c.written(b, v));
    assert forall|i: int| 0 <= i < 8 * data.len() implies #[trigger] bit_at(nd, i) == if start <= i < start + done + w {
        value_bit(v, start + len - 1 - i)
    } else {
        bit_at(data, i)
    } by {
        assert(bit_at(d, i) == if start <= i < start + done { value_bit(v, start + len - 1 - i) } else { bit_at(data, i) });
        if i / 8 != idx {
            assert(nd[i / 8] == d[i / 8]);
            assert(!(pos <= i < pos + w));
        } else {
            let j = i % 8;
            let t = (7 - j) as u8;
            lemma_masked_write_bit(b, x, lo, w as u8, t);
            if pos <= i < pos + w {
                assert(lo <= t < lo + w);
                if c.value_shift > 0 {
                    lemma_shr_byte_bit(v, c.value_shift as u128, t);
                } else {
                    lemma_shl_byte_bit(v, (-c.value_shift) as u128, t);
                }
            } else {
                assert(!(lo <= t < lo + w));
            }
        }
    }
}


/// Whether every chunk is well formed and reads a byte below `n`, and the
/// chunks read at most 128 bits.
fn get_chunks_ok(chunks: &[GetChunk], n: usize) -> (r: bool)
    ensures
        r == ((forall|k: int| 0 <= k < chunks@.len() ==> (#[trigger] chunks@[k]).wf() && chunks@[k].index < n)
            && chunks_width(chunks@) <= 128),
{
    let mut total: u64 = 0;
    let mut i: usize = 0;
    assert(chunks@.take(0) =~= Seq::<GetChunk>::empty());
    while i < chunks.len()
        invariant
            0 <= i <= chunks@.len(),
            forall|k: int| 0 <= k < i ==> (#[trigger] chunks@[k]).wf() && chunks@[k].index < n,
            total == chunks_width(chunks@.take(i as int)),
            total <= 128,
        decreases chunks@.len() - i,
    {
        let c = chunks[i];
        if !(1 <= c.width && c.width <= 8 && c.byte_shift <= 8 - c.width && c.mask == 0xFFu8 >> (8 - c.width)
            && c.index < n) {
            assert(chunks@[i as int] == c);
            return false;
        }
        proof {
            assert(chunks@.take(i + 1).drop_last() =~= chunks@.take(i as int));
            assert(chunks@.take(i + 1).last() == c);
        }
        total = total + c.width as u64;
        if total > 128 {
            proof {
                lemma_chunks_width_prefix(chunks@, i + 1);
            }
            return false;
        }
        i += 1;
    }
    assert(chunks@.take(chunks@.len() as int) =~= chunks@);
    true
}

/// Whether every chunk is well formed and writes a byte below `n`.
fn set_chunks_ok(chunks: &[SetChunk], n: usize) -> (r: bool)
    ensures
        r == (forall|k: int| 0 <= k < chunks@.len() ==> (#[trigger] chunks@[k]).wf() && chunks@[k].index < n),
{
    let mut i: usize = 0;
    while i < chunks.len()
        invariant
            0 <= i <= chunks@.len(),
            forall|k: int| 0 <= k < i ==> (#[trigger] chunks@[k]).wf() && chunks@[k].index < n,
        decreases chunks@.len() - i,
    {
        let c = chunks[i];
        if !(-128 < c.value_shift && c.value_shift < 128 && c.index < n) {
            assert(chunks@[i as int] == c);
            return false;
        }
        i += 1;
    }
    true
}

impl GetExpr {
    /// Whether the plan is well formed and reads only bytes below `n`.
    pub fn fits_data(&self, n: usize) -> (r: bool)
        ensures
            r == (self.wf() && self.reads_below(n as nat)),
    {
        match self {
            GetExpr::Bit { index, shift } => *shift < 8 && *index < n,
            GetExpr::Chunks { chunks } => get_chunks_ok(chunks.as_slice(), n),
        }
    }
}

impl SetStmt {
    /// Whether the plan is well formed and writes only bytes below `n`.
    pub fn fits_data(&self, n: usize) -> (r: bool)
        ensures
            r == (self.wf() && self.writes_below(n as nat)),
    {
        match self {
            SetStmt::Bit { index, mask } => *index < n,
            SetStmt::Chunks { chunks } => set_chunks_ok(chunks.as_slice(), n),
        }
    }
}

} // verus!

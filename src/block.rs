//! Building blocks of the layer-file format: variable-width integers and
//! block locators.
use vstd::arithmetic::div_mod::lemma_breakdown;
use vstd::arithmetic::power2::{lemma2_to64, lemma2_to64_rest, pow2};
use vstd::prelude::*;

verus! {

/// `256^n`.
pub open spec fn pow256(n: nat) -> nat
    decreases n,
{
    if n == 0 {
        1
    } else {
        256 * pow256((n - 1) as nat)
    }
}

/// The `n` low-order bytes of `v`, least significant first.
pub open spec fn le_bytes(v: nat, n: nat) -> Seq<u8>
    decreases n,
{
    if n == 0 {
        Seq::empty()
    } else {
        seq![(v % 256) as u8] + le_bytes(v / 256, (n - 1) as nat)
    }
}

/// The value of little-endian bytes.
pub open spec fn le_value(b: Seq<u8>) -> nat
    decreases b.len(),
{
    if b.len() == 0 {
        0
    } else {
        b[0] as nat + 256 * le_value(b.drop_first())
    }
}

pub proof fn lemma_pow256_pos(n: nat)
    ensures
        pow256(n) > 0,
    decreases n,
{
    if n > 0 {
        lemma_pow256_pos((n - 1) as nat);
    }
}

pub proof fn lemma_le_bytes_len(v: nat, n: nat)
    ensures
        le_bytes(v, n).len() == n,
    decreases n,
{
    if n > 0 {
        lemma_le_bytes_len(v / 256, (n - 1) as nat);
    }
}

pub proof fn lemma_le_value_bound(b: Seq<u8>)
    ensures
        le_value(b) < pow256(b.len()),
    decreases b.len(),
{
    if b.len() > 0 {
        lemma_le_value_bound(b.drop_first());
    }
}

/// Reading back `n` written bytes gives the value modulo `256^n`.
pub proof fn lemma_le_round_trip(v: nat, n: nat)
    ensures
        le_value(le_bytes(v, n)) == v % pow256(n),
    decreases n,
{
    if n == 0 {
        assert(le_bytes(v, n) =~= Seq::<u8>::empty());
    } else {
        let m = (n - 1) as nat;
        lemma_le_round_trip(v / 256, m);
        let b = le_bytes(v, n);
        assert(b.drop_first() =~= le_bytes(v / 256, m));
        lemma_pow256_pos(m);
        lemma_breakdown(v as int, 256, pow256(m) as int);
    }
}

/// A width of 1, 2, 3, 4, 6 or 8 bytes for the integers of an array.
#[derive(Clone, Copy, PartialEq, Eq, Debug)]
pub enum Varint {
    B8,
    B16,
    B24,
    B32,
    B48,
    B64,
}

impl Varint {
    /// The width in bytes.
    pub open spec fn width(self) -> nat {
        match self {
            Varint::B8 => 1,
            Varint::B16 => 2,
            Varint::B24 => 3,
            Varint::B32 => 4,
            Varint::B48 => 6,
            Varint::B64 => 8,
        }
    }

    /// The alignment in bytes.
    pub open spec fn align_spec(self) -> nat {
        match self {
            Varint::B24 => 1,
            Varint::B48 => 2,
            _ => self.width(),
        }
    }

    /// The narrowest width that holds `max_value`.
    pub fn from_max_value(max_value: u64) -> (r: Varint)
        ensures
            max_value < pow256(r.width()),
            forall|w: Varint| max_value < pow256(w.width()) ==> r.width() <= w.width(),
    {
        proof {
            reveal_with_fuel(pow256, 9);
        }
        if max_value <= 0xff {
            Varint::B8
        } else if max_value <= 0xffff {
            Varint::B16
        } else if max_value <= 0xff_ffff {
            Varint::B24
        } else if max_value <= 0xffff_ffff {
            Varint::B32
        } else if max_value <= 0xffff_ffff_ffff {
            Varint::B48
        } else {
            Varint::B64
        }
    }

    /// The narrowest width that holds every index below `len`.
    pub fn from_len(len: usize) -> (r: Varint)
        requires
            len > 0,
        ensures
            len - 1 < pow256(r.width()),
            forall|w: Varint| len - 1 < pow256(w.width()) ==> r.width() <= w.width(),
    {
        Self::from_max_value(len as u64 - 1)
    }

    pub fn alignment(&self) -> (r: usize)
        ensures
            r == self.align_spec(),
    {
        match self {
            Varint::B24 => 1,
            Varint::B48 => 2,
            Varint::B8 => 1,
            Varint::B16 => 2,
            Varint::B32 => 4,
            Varint::B64 => 8,
        }
    }

    /// Rounds `offset` up to this width's alignment.
    pub fn align(&self, offset: usize) -> (r: usize)
        requires
            offset + self.align_spec() - 1 <= usize::MAX,
        ensures
            (r as int) % (self.align_spec() as int) == 0,
            offset <= r < offset + self.align_spec(),
    {
        next_multiple_of_pow2(offset, self.alignment())
    }

    pub fn len(&self) -> (r: usize)
        ensures
            r == self.width(),
    {
        match self {
            Varint::B8 => 1,
            Varint::B16 => 2,
            Varint::B24 => 3,
            Varint::B32 => 4,
            Varint::B48 => 6,
            Varint::B64 => 8,
        }
    }

    /// Appends the low-order bytes of `value`, least significant first.
    pub fn put(&self, dst: &mut Vec<u8>, value: u64)
        ensures
            final(dst)@ == old(dst)@ + le_bytes(value as nat, self.width()),
    {
        let n = self.len();
        let mut x: u64 = value;
        let mut i: usize = 0;
        let ghost start = dst@;
        proof {
            assert(start + Seq::<u8>::empty() =~= start);
        }
        while i < n
            invariant
                i <= n,
                n == self.width(),
                dst@ + le_bytes(x as nat, (n - i) as nat) == start + le_bytes(
                    value as nat,
                    self.width(),
                ),
            decreases n - i,
        {
            let ghost before = dst@;
            dst.push((x % 256) as u8);
            proof {
                let rest = le_bytes(x as nat, (n - i) as nat);
                assert(rest == seq![(x % 256) as u8] + le_bytes((x / 256) as nat, (n - i - 1) as nat));
                assert(dst@ + le_bytes((x / 256) as nat, (n - i - 1) as nat) =~= before + rest);
            }
            x = x / 256;
            i = i + 1;
        }
        assert(le_bytes(x as nat, 0) =~= Seq::<u8>::empty());
        assert(dst@ =~= start + le_bytes(value as nat, self.width()));
    }

    /// Reads the integer stored at `offset`.
    pub fn get(&self, src: &[u8], offset: usize) -> (r: u64)
        requires
            offset + self.width() <= src@.len(),
        ensures
            r == le_value(src@.subrange(offset as int, offset + self.width())),
    {
        let n = self.len();
        let total = src.len();
        let mut r: u64 = 0;
        let mut i: usize = n;
        proof {
            lemma2_to64();
            lemma2_to64_rest();
            reveal_with_fuel(pow256, 9);
            assert(src@.subrange(offset + n, offset + n) =~= Seq::<u8>::empty());
        }
        while i > 0
            invariant
                i <= n,
                n == self.width(),
                n <= 8,
                offset + n <= src@.len(),
                total == src@.len(),
                r == le_value(src@.subrange(offset + i, offset + n)),
                r < pow256((n - i) as nat),
                pow256((n - i) as nat) <= pow256(8),
                pow256(8) == 0x1_0000_0000_0000_0000,
            decreases i,
        {
            let ghost tail = src@.subrange(offset + i, offset + n);
            let b = src[offset + i - 1];
            proof {
                let longer = src@.subrange(offset + i - 1, offset + n);
                assert(longer.drop_first() =~= tail);
                assert(longer[0] == b);
                lemma_le_value_bound(tail);
                lemma_pow256_monotone((n - i + 1) as nat, 8);
            }
            r = r * 256 + b as u64;
            i = i - 1;
        }
        r
    }

    /// The width that a header byte names: 0 names no width.
    pub fn parse_opt(byte: u8) -> (r: Result<Option<Varint>, u8>)
        ensures
            match r {
                Ok(None) => byte == 0,
                Ok(Some(v)) => byte as nat == v.width(),
                Err(b) => b == byte && byte != 0 && byte != 1 && byte != 2 && byte != 3 && byte
                    != 4 && byte != 6 && byte != 8,
            },
    {
        match byte {
            0 => Ok(None),
            1 => Ok(Some(Varint::B8)),
            2 => Ok(Some(Varint::B16)),
            3 => Ok(Some(Varint::B24)),
            4 => Ok(Some(Varint::B32)),
            6 => Ok(Some(Varint::B48)),
            8 => Ok(Some(Varint::B64)),
            _ => Err(byte),
        }
    }

    /// The header byte for an optional width: 0 for none.
    pub fn write_opt(value: Option<Varint>) -> (r: u8)
        ensures
            match value {
                None => r == 0,
                Some(v) => r as nat == v.width(),
            },
    {
        match value {
            None => 0,
            Some(v) => v.len() as u8,
        }
    }
}

pub proof fn lemma_pow256_monotone(a: nat, b: nat)
    requires
        a <= b,
    ensures
        pow256(a) <= pow256(b),
    decreases b,
{
    if a < b {
        lemma_pow256_monotone(a, (b - 1) as nat);
        lemma_pow256_pos((b - 1) as nat);
    }
}

/// Writing a value that fits a width and reading it back gives the value.
pub proof fn lemma_varint_round_trip(w: Varint, v: u64)
    requires
        v < pow256(w.width()),
    ensures
        le_value(le_bytes(v as nat, w.width())) == v,
        le_bytes(v as nat, w.width()).len() == w.width(),
{
    lemma_le_round_trip(v as nat, w.width());
    lemma_le_bytes_len(v as nat, w.width());
    vstd::arithmetic::div_mod::lemma_small_mod(v as nat, pow256(w.width()));
}

/// Rounds `offset` up to a multiple of `alignment`.
pub fn next_multiple_of_pow2(offset: usize, alignment: usize) -> (r: usize)
    requires
        alignment > 0,
        offset + alignment - 1 <= usize::MAX,
    ensures
        (r as int) % (alignment as int) == 0,
        offset <= r < offset + alignment,
{
    let rem = offset % alignment;
    if rem == 0 {
        offset
    } else {
        proof {
            let q = (offset / alignment) as int;
            let a = alignment as int;
            let x = offset as int;
            let m = rem as int;
            vstd::arithmetic::div_mod::lemma_fundamental_div_mod(x, a);
            assert(x + (a - m) == (q + 1) * a) by (nonlinear_arith)
                requires
                    x == a * q + m,
            ;
            vstd::arithmetic::div_mod::lemma_mod_multiples_basic(q + 1, a);
        }
        offset + (alignment - rem)
    }
}

/// A block size: a power of two from 4096 to `2^31`.
pub open spec fn is_block_size(size: int) -> bool {
    exists|k: nat| 12 <= k <= 31 && size == pow2(k)
}

/// A block locator that fails validation.
#[derive(Clone, Copy, Debug)]
pub struct InvalidBlockLocation {
    pub offset: u64,
    pub size: usize,
}

/// A block of a layer file: a 4 KiB-aligned offset and a size.
#[derive(Clone, Copy, Debug)]
pub struct BlockLocation {
    pub offset: u64,
    pub size: usize,
}

/// Finds `k` with `size == 2^k` and `12 <= k <= 31`.
fn block_size_log2(size: usize) -> (r: Option<u64>)
    ensures
        match r {
            Some(k) => 12 <= k <= 31 && size == pow2(k as nat),
            None => !is_block_size(size as int),
        },
{
    proof {
        lemma2_to64();
    }
    let mut k: u64 = 12;
    let mut p: usize = 4096;
    while k <= 31
        invariant
            12 <= k <= 32,
            k <= 31 ==> p == pow2(k as nat),
            forall|j: nat| 12 <= j < k ==> size != pow2(j),
        decreases 32 - k,
    {
        if p == size {
            return Some(k);
        }
        if k == 31 {
            k = 32;
        } else {
            proof {
                lemma2_to64();
                if k < 30 {
                    vstd::arithmetic::power2::lemma_pow2_strictly_increases(k as nat, 30);
                }
                vstd::arithmetic::power2::lemma_pow2_unfold((k + 1) as nat);
            }
            p = p * 2;
            k = k + 1;
        }
    }
    None
}

/// The byte offset that a 64-bit locator encodes: its bits above the low
/// five, shifted left by 7.
pub open spec fn locator_offset(source: u64) -> u64 {
    (source & !0x1fu64) << 7u64
}

/// The base-2 logarithm of the size that a 64-bit locator encodes: its low
/// five bits.
pub open spec fn locator_log2(source: u64) -> u64 {
    source & 0x1fu64
}

impl BlockLocation {
    pub open spec fn valid(offset: u64, size: usize) -> bool {
        offset % 4096 == 0 && is_block_size(size as int)
    }

    /// A locator, if `offset` is 4 KiB-aligned and `size` a power of two
    /// from 4096 to `2^31`.
    pub fn new(offset: u64, size: usize) -> (r: Result<Self, InvalidBlockLocation>)
        ensures
            match r {
                Ok(b) => Self::valid(offset, size) && b.offset == offset && b.size == size,
                Err(e) => !Self::valid(offset, size) && e.offset == offset && e.size == size,
            },
    {
        if offset % 4096 != 0 {
            return Err(InvalidBlockLocation { offset, size });
        }
        match block_size_log2(size) {
            Some(_) => Ok(BlockLocation { offset, size }),
            None => Err(InvalidBlockLocation { offset, size }),
        }
    }

    /// Decodes a 64-bit locator, rejecting one whose offset does not fit
    /// in 64 bits (any of bits 57..64 set) or whose size is out of range.
    pub fn from_u64(source: u64) -> (r: Result<Self, InvalidBlockLocation>)
        ensures
            r is Ok <==> (source >> 57u64 == 0 && Self::valid(
                locator_offset(source),
                pow2(locator_log2(source) as nat) as usize,
            )),
            match r {
                Ok(b) => b.offset == locator_offset(source) && b.size == pow2(
                    locator_log2(source) as nat,
                ),
                Err(e) => e.offset == locator_offset(source) && e.size == pow2(
                    locator_log2(source) as nat,
                ),
            },
    {
        let k = source & 0x1f;
        let offset = (source & !0x1f) << 7;
        proof {
            assert(k < 32) by (bit_vector)
                requires
                    k == source & 0x1fu64,
            ;
            vstd::bits::lemma_u64_pow2_no_overflow(k as nat);
            lemma2_to64();
            if k < 31 {
                vstd::arithmetic::power2::lemma_pow2_strictly_increases(k as nat, 31);
            }
            vstd::bits::lemma_u64_shl_is_mul(1, k);
        }
        let size = (1u64 << k) as usize;
        if source >> 57 != 0 {
            return Err(InvalidBlockLocation { offset, size });
        }
        Self::new(offset, size)
    }

    /// Encodes the locator in 64 bits: the offset shifted right by 7, and
    /// the base-2 logarithm of the size in the low five bits.
    pub fn to_u64(&self) -> (r: u64)
        requires
            Self::valid(self.offset, self.size),
        ensures
            r >> 57u64 == 0,
            locator_offset(r) == self.offset,
            pow2(locator_log2(r) as nat) == self.size,
    {
        let k = match block_size_log2(self.size) {
            Some(k) => k,
            None => 0,
        };
        let offset = self.offset;
        let r = (offset >> 7) | k;
        proof {
            assert(offset & 0xfffu64 == 0) by (bit_vector)
                requires
                    offset % 4096 == 0,
            ;
            assert((r & 0x1fu64) == k && ((r & !0x1fu64) << 7u64) == offset && r >> 57u64 == 0) by (bit_vector)
                requires
                    offset & 0xfffu64 == 0,
                    k < 32,
                    r == (offset >> 7u64) | k,
            ;
        }
        r
    }
}


} // verus!

//! Fixed-width signal values.
//!
//! A `ConnectionValues` is a bit vector whose width is one of eight fixed
//! variants (1, 4, 8, 16, 32, 64, 128 or 256 bits). The width is fixed for the
//! lifetime of a value; only the bit contents change. Index 0 is the least
//! significant bit. The 256-bit variant is carried as two 128-bit halves:
//! indices below 128 address the low half, indices at or above 128 address the
//! high half rebased by 128.

use vstd::prelude::*;

verus! {

/// One signal value, in one of the eight supported widths.
///
/// The two smallest widths are represented as individually addressable
/// booleans; the wider ones as packed unsigned integers. The observable
/// get/set/merge semantics do not depend on the representation.
#[derive(Clone, Copy, Debug, PartialEq, Eq, Structural)]
pub enum ConnectionValues {
    Single(bool),
    HalfByte(bool, bool, bool, bool),
    Byte(u8),
    X16(u16),
    X32(u32),
    X64(u64),
    X128(u128),
    X256(u128, u128),
}

/// Bit `i` of a `u8`, for `i < 8`.
pub open spec fn bit8(x: u8, i: u8) -> bool {
    (x >> i) & 1 == 1
}

/// Bit `i` of a `u16`, for `i < 16`.
pub open spec fn bit16(x: u16, i: u16) -> bool {
    (x >> i) & 1 == 1
}

/// Bit `i` of a `u32`, for `i < 32`.
pub open spec fn bit32(x: u32, i: u32) -> bool {
    (x >> i) & 1 == 1
}

/// Bit `i` of a `u64`, for `i < 64`.
pub open spec fn bit64(x: u64, i: u64) -> bool {
    (x >> i) & 1 == 1
}

/// Bit `i` of a `u128`, for `i < 128`.
pub open spec fn bit128(x: u128, i: u128) -> bool {
    (x >> i) & 1 == 1
}

impl View for ConnectionValues {
    type V = Seq<bool>;

    /// The mathematical model of a value: the sequence of its bits, least
    /// significant first. Its length is the value's width.
    open spec fn view(&self) -> Seq<bool> {
        match *self {
            ConnectionValues::Single(b) => seq![b],
            ConnectionValues::HalfByte(b0, b1, b2, b3) => seq![b0, b1, b2, b3],
            ConnectionValues::Byte(x) => Seq::new(8, |i: int| bit8(x, i as u8)),
            ConnectionValues::X16(x) => Seq::new(16, |i: int| bit16(x, i as u16)),
            ConnectionValues::X32(x) => Seq::new(32, |i: int| bit32(x, i as u32)),
            ConnectionValues::X64(x) => Seq::new(64, |i: int| bit64(x, i as u64)),
            ConnectionValues::X128(x) => Seq::new(128, |i: int| bit128(x, i as u128)),
            ConnectionValues::X256(lo, hi) => Seq::new(
                256,
                |i: int|
                    if i < 128 {
                        bit128(lo, i as u128)
                    } else {
                        bit128(hi, (i - 128) as u128)
                    },
            ),
        }
    }
}

/// Bit `i` of a value, read as through the bit-index accessor: bits at or
/// beyond the value's width read as `false`.
pub open spec fn bit_at(v: ConnectionValues, i: int) -> bool {
    if 0 <= i < v@.len() {
        v@[i]
    } else {
        false
    }
}

proof fn lemma_u8_bits()
    by (bit_vector)
    ensures
        forall|x: u8, y: u8, i: u8|
            i < 8 ==> (#[trigger] bit8(x | y, i)) == (bit8(x, i) || bit8(y, i)),
        forall|x: u8, i: u8, j: u8|
            i < 8 && j < 8 ==> (#[trigger] bit8(x | (1u8 << j), i)) == (i == j || bit8(x, i)),
        forall|x: u8, i: u8, j: u8|
            i < 8 && j < 8 ==> (#[trigger] bit8(x & !(1u8 << j), i)) == (i != j && bit8(x, i)),
{
}

proof fn lemma_u16_bits()
    by (bit_vector)
    ensures
        forall|x: u16, y: u16, i: u16|
            i < 16 ==> (#[trigger] bit16(x | y, i)) == (bit16(x, i) || bit16(y, i)),
        forall|x: u16, i: u16, j: u16|
            i < 16 && j < 16 ==> (#[trigger] bit16(x | (1u16 << j), i)) == (i == j || bit16(x, i)),
        forall|x: u16, i: u16, j: u16|
            i < 16 && j < 16 ==> (#[trigger] bit16(x & !(1u16 << j), i)) == (i != j && bit16(
                x,
                i,
            )),
{
}

proof fn lemma_u32_bits()
    by (bit_vector)
    ensures
        forall|x: u32, y: u32, i: u32|
            i < 32 ==> (#[trigger] bit32(x | y, i)) == (bit32(x, i) || bit32(y, i)),
        forall|x: u32, i: u32, j: u32|
            i < 32 && j < 32 ==> (#[trigger] bit32(x | (1u32 << j), i)) == (i == j || bit32(x, i)),
        forall|x: u32, i: u32, j: u32|
            i < 32 && j < 32 ==> (#[trigger] bit32(x & !(1u32 << j), i)) == (i != j && bit32(
                x,
                i,
            )),
{
}

proof fn lemma_u64_bits()
    by (bit_vector)
    ensures
        forall|x: u64, y: u64, i: u64|
            i < 64 ==> (#[trigger] bit64(x | y, i)) == (bit64(x, i) || bit64(y, i)),
        forall|x: u64, i: u64, j: u64|
            i < 64 && j < 64 ==> (#[trigger] bit64(x | (1u64 << j), i)) == (i == j || bit64(x, i)),
        forall|x: u64, i: u64, j: u64|
            i < 64 && j < 64 ==> (#[trigger] bit64(x & !(1u64 << j), i)) == (i != j && bit64(
                x,
                i,
            )),
{
}

proof fn lemma_u128_bits()
    by (bit_vector)
    ensures
        forall|x: u128, y: u128, i: u128|
            i < 128 ==> (#[trigger] bit128(x | y, i)) == (bit128(x, i) || bit128(y, i)),
        forall|x: u128, i: u128, j: u128|
            i < 128 && j < 128 ==> (#[trigger] bit128(x | (1u128 << j), i)) == (i == j || bit128(
                x,
                i,
            )),
        forall|x: u128, i: u128, j: u128|
            i < 128 && j < 128 ==> (#[trigger] bit128(x & !(1u128 << j), i)) == (i != j && bit128(
                x,
                i,
            )),
{
}

proof fn lemma_const_bits()
    by (bit_vector)
    ensures
        forall|i: u8| i < 8 ==> !(#[trigger] bit8(0u8, i)),
        forall|i: u8| i < 8 ==> (#[trigger] bit8(1u8, i)) == (i == 0),
{
}

proof fn lemma_or_ident()
    by (bit_vector)
    ensures
        forall|x: u8| (#[trigger] (x | x)) == x,
        forall|x: u16| (#[trigger] (x | x)) == x,
        forall|x: u32| (#[trigger] (x | x)) == x,
        forall|x: u64| (#[trigger] (x | x)) == x,
        forall|x: u128| (#[trigger] (x | x)) == x,
        forall|x: u8| (#[trigger] (x | 0u8)) == x,
        forall|x: u16| (#[trigger] (x | 0u16)) == x,
        forall|x: u32| (#[trigger] (x | 0u32)) == x,
        forall|x: u64| (#[trigger] (x | 0u64)) == x,
        forall|x: u128| (#[trigger] (x | 0u128)) == x,
{
}

proof fn lemma_trunc_bits()
    by (bit_vector)
    ensures
        forall|x: u16, i: u8| i < 8 ==> (#[trigger] bit8(x as u8, i)) == bit16(x, i as u16),
        forall|x: u32, i: u8| i < 8 ==> (#[trigger] bit8(x as u8, i)) == bit32(x, i as u32),
        forall|x: u64, i: u8| i < 8 ==> (#[trigger] bit8(x as u8, i)) == bit64(x, i as u64),
        forall|x: u128, i: u8| i < 8 ==> (#[trigger] bit8(x as u8, i)) == bit128(x, i as u128),
        forall|x: u32, i: u16| i < 16 ==> (#[trigger] bit16(x as u16, i)) == bit32(x, i as u32),
        forall|x: u64, i: u16| i < 16 ==> (#[trigger] bit16(x as u16, i)) == bit64(x, i as u64),
        forall|x: u128, i: u16| i < 16 ==> (#[trigger] bit16(x as u16, i)) == bit128(x, i as u128),
        forall|x: u64, i: u32| i < 32 ==> (#[trigger] bit32(x as u32, i)) == bit64(x, i as u64),
        forall|x: u128, i: u32| i < 32 ==> (#[trigger] bit32(x as u32, i)) == bit128(x, i as u128),
        forall|x: u128, i: u64| i < 64 ==> (#[trigger] bit64(x as u64, i)) == bit128(x, i as u128),
{
}

proof fn lemma_ext_bits()
    by (bit_vector)
    ensures
        forall|x: u8, i: u16| i < 16 ==> (#[trigger] bit16(x as u16, i)) == (i < 8 && bit8(
            x,
            i as u8,
        )),
        forall|x: u16, i: u32| i < 32 ==> (#[trigger] bit32(x as u32, i)) == (i < 16 && bit16(
            x,
            i as u16,
        )),
        forall|x: u32, i: u64| i < 64 ==> (#[trigger] bit64(x as u64, i)) == (i < 32 && bit32(
            x,
            i as u32,
        )),
        forall|x: u64, i: u128| i < 128 ==> (#[trigger] bit128(x as u128, i)) == (i < 64 && bit64(
            x,
            i as u64,
        )),
{
}

/// The low 8 bits of a value, packed into a `u8`.
pub open spec fn spec_inner_u8(v: ConnectionValues) -> u8 {
    match v {
        ConnectionValues::Single(b) => if b {
            1
        } else {
            0
        },
        ConnectionValues::HalfByte(b0, b1, b2, b3) => (if b0 {
            1u8
        } else {
            0u8
        }) | ((if b1 {
            1u8
        } else {
            0u8
        }) << 1) | ((if b2 {
            1u8
        } else {
            0u8
        }) << 2) | ((if b3 {
            1u8
        } else {
            0u8
        }) << 3),
        ConnectionValues::Byte(x) => x,
        ConnectionValues::X16(x) => x as u8,
        ConnectionValues::X32(x) => x as u8,
        ConnectionValues::X64(x) => x as u8,
        ConnectionValues::X128(x) => x as u8,
        ConnectionValues::X256(lo, _) => lo as u8,
    }
}

/// The low 16 bits of a value, packed into a `u16`.
pub open spec fn spec_inner_u16(v: ConnectionValues) -> u16 {
    match v {
        ConnectionValues::X16(x) => x,
        ConnectionValues::X32(x) => x as u16,
        ConnectionValues::X64(x) => x as u16,
        ConnectionValues::X128(x) => x as u16,
        ConnectionValues::X256(lo, _) => lo as u16,
        _ => spec_inner_u8(v) as u16,
    }
}

/// The low 32 bits of a value, packed into a `u32`.
pub open spec fn spec_inner_u32(v: ConnectionValues) -> u32 {
    match v {
        ConnectionValues::X32(x) => x,
        ConnectionValues::X64(x) => x as u32,
        ConnectionValues::X128(x) => x as u32,
        ConnectionValues::X256(lo, _) => lo as u32,
        _ => spec_inner_u16(v) as u32,
    }
}

/// The low 64 bits of a value, packed into a `u64`.
pub open spec fn spec_inner_u64(v: ConnectionValues) -> u64 {
    match v {
        ConnectionValues::X64(x) => x,
        ConnectionValues::X128(x) => x as u64,
        ConnectionValues::X256(lo, _) => lo as u64,
        _ => spec_inner_u32(v) as u64,
    }
}

/// The low 128 bits of a value, packed into a `u128`.
pub open spec fn spec_inner_u128(v: ConnectionValues) -> u128 {
    match v {
        ConnectionValues::X128(x) => x,
        ConnectionValues::X256(lo, _) => lo,
        _ => spec_inner_u64(v) as u128,
    }
}

/// The merge of `right` into `left`, where `right` is no wider than `left`:
/// the elementwise OR over `left`'s width, `right` read as zero-extended. The
/// result keeps `left`'s representation.
pub open spec fn spec_merge_into(left: ConnectionValues, right: ConnectionValues) -> ConnectionValues
    recommends
        right@.len() <= left@.len(),
{
    match left {
        ConnectionValues::Single(l) => match right {
            ConnectionValues::Single(r) => ConnectionValues::Single(l || r),
            _ => arbitrary(),
        },
        ConnectionValues::HalfByte(l0, l1, l2, l3) => match right {
            ConnectionValues::Single(r) => ConnectionValues::HalfByte(l0 || r, l1, l2, l3),
            ConnectionValues::HalfByte(r0, r1, r2, r3) => ConnectionValues::HalfByte(
                l0 || r0,
                l1 || r1,
                l2 || r2,
                l3 || r3,
            ),
            _ => arbitrary(),
        },
        ConnectionValues::Byte(l) => ConnectionValues::Byte(l | spec_inner_u8(right)),
        ConnectionValues::X16(l) => ConnectionValues::X16(l | spec_inner_u16(right)),
        ConnectionValues::X32(l) => ConnectionValues::X32(l | spec_inner_u32(right)),
        ConnectionValues::X64(l) => ConnectionValues::X64(l | spec_inner_u64(right)),
        ConnectionValues::X128(l) => ConnectionValues::X128(l | spec_inner_u128(right)),
        ConnectionValues::X256(l0, l1) => match right {
            ConnectionValues::X256(r0, r1) => ConnectionValues::X256(l0 | r0, l1 | r1),
            _ => ConnectionValues::X256(l0 | spec_inner_u128(right), l1),
        },
    }
}

/// The width-aware logical OR of two values. The wider operand becomes the
/// merge target; on equal widths the right-hand operand does.
pub open spec fn spec_merge(a: ConnectionValues, b: ConnectionValues) -> ConnectionValues {
    if a@.len() > b@.len() {
        spec_merge_into(a, b)
    } else {
        spec_merge_into(b, a)
    }
}

/// Bit `i` of the packed low byte is the value's bit `i` (bits beyond the
/// value's own width read as `false`).
proof fn lemma_inner_u8_bits(v: ConnectionValues)
    ensures
        forall|i: u8| i < 8 ==> (#[trigger] bit8(spec_inner_u8(v), i)) == bit_at(v, i as int),
{
    lemma_const_bits();
    lemma_trunc_bits();
    match v {
        ConnectionValues::Single(b) => {},
        ConnectionValues::HalfByte(b0, b1, b2, b3) => {
            let x0: u8 = if b0 {
                1
            } else {
                0
            };
            let x1: u8 = if b1 {
                1
            } else {
                0
            };
            let x2: u8 = if b2 {
                1
            } else {
                0
            };
            let x3: u8 = if b3 {
                1
            } else {
                0
            };
            let p: u8 = x0 | (x1 << 1) | (x2 << 2) | (x3 << 3);
            assert((bit8(p, 0) == (x0 == 1)) && (bit8(p, 1) == (x1 == 1)) && (bit8(p, 2) == (x2
                == 1)) && (bit8(p, 3) == (x3 == 1)) && !bit8(p, 4) && !bit8(p, 5) && !bit8(p, 6)
                && !bit8(p, 7)) by (bit_vector)
                requires
                    p == x0 | (x1 << 1) | (x2 << 2) | (x3 << 3),
                    x0 <= 1,
                    x1 <= 1,
                    x2 <= 1,
                    x3 <= 1,
            ;
            assert forall|i: u8| i < 8 implies (#[trigger] bit8(spec_inner_u8(v), i)) == bit_at(
                v,
                i as int,
            ) by {
                assert(spec_inner_u8(v) == p);
            }
        },
        _ => {},
    }
}

/// Bit `i` of the packed low 16 bits is the value's bit `i`.
proof fn lemma_inner_u16_bits(v: ConnectionValues)
    ensures
        forall|i: u16| i < 16 ==> (#[trigger] bit16(spec_inner_u16(v), i)) == bit_at(v, i as int),
{
    lemma_inner_u8_bits(v);
    lemma_trunc_bits();
    lemma_ext_bits();
}

/// Bit `i` of the packed low 32 bits is the value's bit `i`.
proof fn lemma_inner_u32_bits(v: ConnectionValues)
    ensures
        forall|i: u32| i < 32 ==> (#[trigger] bit32(spec_inner_u32(v), i)) == bit_at(v, i as int),
{
    lemma_inner_u16_bits(v);
    lemma_trunc_bits();
    lemma_ext_bits();
}

/// Bit `i` of the packed low 64 bits is the value's bit `i`.
proof fn lemma_inner_u64_bits(v: ConnectionValues)
    ensures
        forall|i: u64| i < 64 ==> (#[trigger] bit64(spec_inner_u64(v), i)) == bit_at(v, i as int),
{
    lemma_inner_u32_bits(v);
    lemma_trunc_bits();
    lemma_ext_bits();
}

/// Bit `i` of the packed low 128 bits is the value's bit `i`.
proof fn lemma_inner_u128_bits(v: ConnectionValues)
    ensures
        forall|i: u128| i < 128 ==> (#[trigger] bit128(spec_inner_u128(v), i)) == bit_at(
            v,
            i as int,
        ),
{
    lemma_inner_u64_bits(v);
    lemma_trunc_bits();
    lemma_ext_bits();
}

impl ConnectionValues {
    /// The fixed bit width of this value.
    pub fn len(&self) -> (r: usize)
        ensures
            r == self@.len(),
    {
        match self {
            ConnectionValues::Single(_) => 1,
            ConnectionValues::HalfByte(_, _, _, _) => 4,
            ConnectionValues::Byte(_) => 8,
            ConnectionValues::X16(_) => 16,
            ConnectionValues::X32(_) => 32,
            ConnectionValues::X64(_) => 64,
            ConnectionValues::X128(_) => 128,
            ConnectionValues::X256(_, _) => 256,
        }
    }

    fn inner_u8(self) -> (r: u8)
        ensures
            r == spec_inner_u8(self),
    {
        match self {
            ConnectionValues::Single(b) => if b {
                1
            } else {
                0
            },
            ConnectionValues::HalfByte(b0, b1, b2, b3) => (if b0 {
                1u8
            } else {
                0u8
            }) | ((if b1 {
                1u8
            } else {
                0u8
            }) << 1) | ((if b2 {
                1u8
            } else {
                0u8
            }) << 2) | ((if b3 {
                1u8
            } else {
                0u8
            }) << 3),
            ConnectionValues::Byte(x) => x,
            ConnectionValues::X16(x) => x as u8,
            ConnectionValues::X32(x) => x as u8,
            ConnectionValues::X64(x) => x as u8,
            ConnectionValues::X128(x) => x as u8,
            ConnectionValues::X256(lo, _) => lo as u8,
        }
    }

    fn inner_u16(self) -> (r: u16)
        ensures
            r == spec_inner_u16(self),
    {
        if self.len() < 16 {
            return self.inner_u8() as u16;
        }
        match self {
            ConnectionValues::Single(_)
            | ConnectionValues::HalfByte(_, _, _, _)
            | ConnectionValues::Byte(_) => unreached(),  // excluded by the width check above
            ConnectionValues::X16(x) => x,
            ConnectionValues::X32(x) => x as u16,
            ConnectionValues::X64(x) => x as u16,
            ConnectionValues::X128(x) => x as u16,
            ConnectionValues::X256(lo, _) => lo as u16,
        }
    }

    fn inner_u32(self) -> (r: u32)
        ensures
            r == spec_inner_u32(self),
    {
        if self.len() < 32 {
            return self.inner_u16() as u32;
        }
        match self {
            ConnectionValues::Single(_)
            | ConnectionValues::HalfByte(_, _, _, _)
            | ConnectionValues::Byte(_)
            | ConnectionValues::X16(_) => unreached(),  // excluded by the width check above
            ConnectionValues::X32(x) => x,
            ConnectionValues::X64(x) => x as u32,
            ConnectionValues::X128(x) => x as u32,
            ConnectionValues::X256(lo, _) => lo as u32,
        }
    }

    fn inner_u64(self) -> (r: u64)
        ensures
            r == spec_inner_u64(self),
    {
        if self.len() < 64 {
            return self.inner_u32() as u64;
        }
        match self {
            ConnectionValues::Single(_)
            | ConnectionValues::HalfByte(_, _, _, _)
            | ConnectionValues::Byte(_)
            | ConnectionValues::X16(_)
            | ConnectionValues::X32(_) => unreached(),  // excluded by the width check above
            ConnectionValues::X64(x) => x,
            ConnectionValues::X128(x) => x as u64,
            ConnectionValues::X256(lo, _) => lo as u64,
        }
    }

    fn inner_u128(self) -> (r: u128)
        ensures
            r == spec_inner_u128(self),
    {
        if self.len() < 128 {
            return self.inner_u64() as u128;
        }
        match self {
            ConnectionValues::Single(_)
            | ConnectionValues::HalfByte(_, _, _, _)
            | ConnectionValues::Byte(_)
            | ConnectionValues::X16(_)
            | ConnectionValues::X32(_)
            | ConnectionValues::X64(_) => unreached(),  // excluded by the width check above
            ConnectionValues::X128(x) => x,
            ConnectionValues::X256(lo, _) => lo,
        }
    }

    /// Combine two values by width-aware logical OR: the result has the width
    /// of the wider operand (on equal widths, of the right-hand operand), and
    /// each of its bits is the OR of the operands' bits at that index, the
    /// narrower operand read as zero-extended.
    ///
    /// `lemma_merge_bits` states the bit-level meaning; neither operand's own
    /// width is ever changed.
    pub fn merge(self, rhs: Self) -> (r: Self)
        ensures
            r == spec_merge(self, rhs),
            r@.len() == (if self@.len() > rhs@.len() {
                self@.len()
            } else {
                rhs@.len()
            }),
            forall|i: int| 0 <= i < r@.len() ==> r@[i] == (bit_at(self, i) || bit_at(rhs, i)),
    {
        proof {
            lemma_merge_bits(self, rhs);
        }
        let (left, right) = if self.len() > rhs.len() {
            (self, rhs)
        } else {
            (rhs, self)
        };
        match left {
            ConnectionValues::Single(l) => match right {
                ConnectionValues::Single(r) => ConnectionValues::Single(l || r),
                _ => unreached(),  // the right side is never wider than the left side
            },
            ConnectionValues::HalfByte(l0, l1, l2, l3) => match right {
                ConnectionValues::Single(r) => ConnectionValues::HalfByte(l0 || r, l1, l2, l3),
                ConnectionValues::HalfByte(r0, r1, r2, r3) => ConnectionValues::HalfByte(
                    l0 || r0,
                    l1 || r1,
                    l2 || r2,
                    l3 || r3,
                ),
                _ => unreached(),  // the right side is never wider than the left side
            },
            ConnectionValues::Byte(l) => ConnectionValues::Byte(l | right.inner_u8()),
            ConnectionValues::X16(l) => ConnectionValues::X16(l | right.inner_u16()),
            ConnectionValues::X32(l) => ConnectionValues::X32(l | right.inner_u32()),
            ConnectionValues::X64(l) => ConnectionValues::X64(l | right.inner_u64()),
            ConnectionValues::X128(l) => ConnectionValues::X128(l | right.inner_u128()),
            ConnectionValues::X256(l0, l1) => {
                if let ConnectionValues::X256(r0, r1) = right {
                    ConnectionValues::X256(l0 | r0, l1 | r1)
                } else {
                    ConnectionValues::X256(l0 | right.inner_u128(), l1)
                }
            },
        }
    }

    /// Read the bit at `index`. An index at or beyond the width is a defined,
    /// non-fatal fallback: it reads as `false`.
    pub fn get_by_index(self, index: usize) -> (r: bool)
        ensures
            r == bit_at(self, index as int),
    {
        if index >= self.len() {
            return false;  // defined fallback for out-of-bounds reads
        }
        match self {
            ConnectionValues::Single(b) => b,
            ConnectionValues::HalfByte(b0, b1, b2, b3) => match index {
                0 => b0,
                1 => b1,
                2 => b2,
                3 => b3,
                _ => unreached(),  // excluded by the width check above
            },
            ConnectionValues::Byte(x) => (x >> (index as u8)) & 1 == 1,
            ConnectionValues::X16(x) => (x >> (index as u16)) & 1 == 1,
            ConnectionValues::X32(x) => (x >> (index as u32)) & 1 == 1,
            ConnectionValues::X64(x) => (x >> (index as u64)) & 1 == 1,
            ConnectionValues::X128(x) => (x >> (index as u128)) & 1 == 1,
            ConnectionValues::X256(lo, hi) => {
                if index < 128 {
                    (lo >> (index as u128)) & 1 == 1
                } else {
                    (hi >> ((index - 128) as u128)) & 1 == 1
                }
            },
        }
    }

    /// Write the bit at `index`. An index at or beyond the width is a defined,
    /// non-fatal fallback: the value is left unchanged.
    pub fn set_by_index(&mut self, index: usize, value: bool)
        ensures
            final(self)@.len() == old(self)@.len(),
            index < old(self)@.len() ==> final(self)@ == old(self)@.update(index as int, value),
            index >= old(self)@.len() ==> *final(self) == *old(self),
    {
        if index >= self.len() {
            return ;  // defined fallback for out-of-bounds writes
        }
        match *self {
            ConnectionValues::Single(_) => {
                *self = ConnectionValues::Single(value);
                assert(self@ =~= old(self)@.update(index as int, value));
            },
            ConnectionValues::HalfByte(b0, b1, b2, b3) => {
                *self = match index {
                    0 => ConnectionValues::HalfByte(value, b1, b2, b3),
                    1 => ConnectionValues::HalfByte(b0, value, b2, b3),
                    2 => ConnectionValues::HalfByte(b0, b1, value, b3),
                    3 => ConnectionValues::HalfByte(b0, b1, b2, value),
                    _ => unreached(),  // excluded by the width check above
                };
                assert(self@ =~= old(self)@.update(index as int, value));
            },
            ConnectionValues::Byte(x) => {
                let nx: u8 = if value {
                    x | (1u8 << (index as u8))
                } else {
                    x & !(1u8 << (index as u8))
                };
                *self = ConnectionValues::Byte(nx);
                proof {
                    lemma_u8_bits();
                    assert(self@ =~= old(self)@.update(index as int, value));
                }
            },
            ConnectionValues::X16(x) => {
                let nx: u16 = if value {
                    x | (1u16 << (index as u16))
                } else {
                    x & !(1u16 << (index as u16))
                };
                *self = ConnectionValues::X16(nx);
                proof {
                    lemma_u16_bits();
                    assert(self@ =~= old(self)@.update(index as int, value));
                }
            },
            ConnectionValues::X32(x) => {
                let nx: u32 = if value {
                    x | (1u32 << (index as u32))
                } else {
                    x & !(1u32 << (index as u32))
                };
                *self = ConnectionValues::X32(nx);
                proof {
                    lemma_u32_bits();
                    assert(self@ =~= old(self)@.update(index as int, value));
                }
            },
            ConnectionValues::X64(x) => {
                let nx: u64 = if value {
                    x | (1u64 << (index as u64))
                } else {
                    x & !(1u64 << (index as u64))
                };
                *self = ConnectionValues::X64(nx);
                proof {
                    lemma_u64_bits();
                    assert(self@ =~= old(self)@.update(index as int, value));
                }
            },
            ConnectionValues::X128(x) => {
                let nx: u128 = if value {
                    x | (1u128 << (index as u128))
                } else {
                    x & !(1u128 << (index as u128))
                };
                *self = ConnectionValues::X128(nx);
                proof {
                    lemma_u128_bits();
                    assert(self@ =~= old(self)@.update(index as int, value));
                }
            },
            ConnectionValues::X256(lo, hi) => {
                if index < 128 {
                    let nlo: u128 = if value {
                        lo | (1u128 << (index as u128))
                    } else {
                        lo & !(1u128 << (index as u128))
                    };
                    *self = ConnectionValues::X256(nlo, hi);
                } else {
                    let rebased: usize = index - 128;
                    let nhi: u128 = if value {
                        hi | (1u128 << (rebased as u128))
                    } else {
                        hi & !(1u128 << (rebased as u128))
                    };
                    *self = ConnectionValues::X256(lo, nhi);
                }
                proof {
                    lemma_u128_bits();
                    assert(self@ =~= old(self)@.update(index as int, value));
                }
            },
        }
    }
}

proof fn lemma_merge_into_bits(left: ConnectionValues, right: ConnectionValues)
    requires
        right@.len() <= left@.len(),
    ensures
        spec_merge_into(left, right)@.len() == left@.len(),
        forall|i: int|
            0 <= i < left@.len() ==> spec_merge_into(left, right)@[i] == (bit_at(left, i)
                || bit_at(right, i)),
{
    let m = spec_merge_into(left, right);
    match left {
        ConnectionValues::Single(l) => {},
        ConnectionValues::HalfByte(l0, l1, l2, l3) => {},
        ConnectionValues::Byte(l) => {
            lemma_u8_bits();
            lemma_inner_u8_bits(right);
            let y = spec_inner_u8(right);
            assert forall|i: int| 0 <= i < left@.len() implies m@[i] == (bit_at(left, i) || bit_at(
                right,
                i,
            )) by {
                assert(bit8(l | y, i as u8) == (bit8(l, i as u8) || bit8(y, i as u8)));
            }
        },
        ConnectionValues::X16(l) => {
            lemma_u16_bits();
            lemma_inner_u16_bits(right);
            let y = spec_inner_u16(right);
            assert forall|i: int| 0 <= i < left@.len() implies m@[i] == (bit_at(left, i) || bit_at(
                right,
                i,
            )) by {
                assert(bit16(l | y, i as u16) == (bit16(l, i as u16) || bit16(y, i as u16)));
            }
        },
        ConnectionValues::X32(l) => {
            lemma_u32_bits();
            lemma_inner_u32_bits(right);
            let y = spec_inner_u32(right);
            assert forall|i: int| 0 <= i < left@.len() implies m@[i] == (bit_at(left, i) || bit_at(
                right,
                i,
            )) by {
                assert(bit32(l | y, i as u32) == (bit32(l, i as u32) || bit32(y, i as u32)));
            }
        },
        ConnectionValues::X64(l) => {
            lemma_u64_bits();
            lemma_inner_u64_bits(right);
            let y = spec_inner_u64(right);
            assert forall|i: int| 0 <= i < left@.len() implies m@[i] == (bit_at(left, i) || bit_at(
                right,
                i,
            )) by {
                assert(bit64(l | y, i as u64) == (bit64(l, i as u64) || bit64(y, i as u64)));
            }
        },
        ConnectionValues::X128(l) => {
            lemma_u128_bits();
            lemma_inner_u128_bits(right);
            let y = spec_inner_u128(right);
            assert forall|i: int| 0 <= i < left@.len() implies m@[i] == (bit_at(left, i) || bit_at(
                right,
                i,
            )) by {
                assert(bit128(l | y, i as u128) == (bit128(l, i as u128) || bit128(y, i as u128)));
            }
        },
        ConnectionValues::X256(l0, l1) => {
            lemma_u128_bits();
            match right {
                ConnectionValues::X256(r0, r1) => {
                    assert forall|i: int| 0 <= i < left@.len() implies m@[i] == (bit_at(left, i)
                        || bit_at(right, i)) by {
                        if i < 128 {
                            assert(bit128(l0 | r0, i as u128) == (bit128(l0, i as u128) || bit128(
                                r0,
                                i as u128,
                            )));
                        } else {
                            assert(bit128(l1 | r1, (i - 128) as u128) == (bit128(
                                l1,
                                (i - 128) as u128,
                            ) || bit128(r1, (i - 128) as u128)));
                        }
                    }
                },
                _ => {
                    lemma_inner_u128_bits(right);
                    let y = spec_inner_u128(right);
                    assert forall|i: int| 0 <= i < left@.len() implies m@[i] == (bit_at(left, i)
                        || bit_at(right, i)) by {
                        if i < 128 {
                            assert(bit128(l0 | y, i as u128) == (bit128(l0, i as u128) || bit128(
                                y,
                                i as u128,
                            )));
                        }
                    }
                },
            }
        },
    }
}

/// The bit-level meaning of `merge`: the result's width is the larger of the
/// two operands' widths, and each of its bits is the OR of the operands' bits
/// at that index, with the narrower operand read as zero-extended.
pub proof fn lemma_merge_bits(a: ConnectionValues, b: ConnectionValues)
    ensures
        spec_merge(a, b)@.len() == if a@.len() > b@.len() {
            a@.len()
        } else {
            b@.len()
        },
        forall|i: int|
            0 <= i < spec_merge(a, b)@.len() ==> spec_merge(a, b)@[i] == (bit_at(a, i) || bit_at(
                b,
                i,
            )),
{
    if a@.len() > b@.len() {
        lemma_merge_into_bits(a, b);
    } else {
        lemma_merge_into_bits(b, a);
    }
}

/// Merging a value with itself gives back the value, bit for bit and
/// representation for representation.
pub proof fn lemma_merge_idempotent(v: ConnectionValues)
    ensures
        spec_merge(v, v) == v,
{
    lemma_or_ident();
}

/// Merging the one-bit `false` seed into any value gives back that value
/// unchanged: folding a single input over the seed reproduces the input.
pub proof fn lemma_merge_seed(x: ConnectionValues)
    ensures
        spec_merge(ConnectionValues::Single(false), x) == x,
{
    lemma_or_ident();
    let seed = ConnectionValues::Single(false);
    assert(spec_inner_u8(seed) == 0);
    assert(spec_inner_u16(seed) == 0);
    assert(spec_inner_u32(seed) == 0);
    assert(spec_inner_u64(seed) == 0);
    assert(spec_inner_u128(seed) == 0);
    match x {
        ConnectionValues::Single(l) => {
            assert(spec_merge(seed, x) == ConnectionValues::Single(l || false));
        },
        ConnectionValues::HalfByte(l0, l1, l2, l3) => {
            assert(spec_merge(seed, x) == ConnectionValues::HalfByte(l0 || false, l1, l2, l3));
        },
        _ => {},
    }
}

/// Writing a bit at a valid index and reading it back gives the written bit,
/// and every other index is unchanged. `w` stands for the value after a
/// `set_by_index(i, b)` call on `v`, as that call's `ensures` describes it.
pub proof fn lemma_set_then_get(v: ConnectionValues, w: ConnectionValues, i: usize, b: bool)
    requires
        i < v@.len(),
        w@ == v@.update(i as int, b),
    ensures
        w@.len() == v@.len(),
        bit_at(w, i as int) == b,
        forall|j: int| 0 <= j < v@.len() && j != i ==> bit_at(w, j) == bit_at(v, j),
{
}

} // verus!

use vstd::prelude::*;
use super::{seal, width_ok, BitBuffer};

verus! {

impl seal::BitSeal for u8 {}

proof fn lemma_u8(x: u8, i: u8, v: u8, j: u8)
    by (bit_vector)
    requires
        i < 8,
        j < 8,
        v == 0 || v == 1,
    ensures
        (((x & (1u8 << i)) >> i) > 0) == ((x >> i) & 1 == 1),
        (0u8 >> j) & 1 != 1,
        ((((x & (!0u8 ^ (1u8 << i))) | (v << i)) >> j) & 1 == 1) == if j == i {
            v == 1
        } else {
            (x >> j) & 1 == 1
        },
{
}

impl BitBuffer for u8 {
    open spec fn width_spec() -> nat {
        8
    }

    open spec fn bit_at(&self, index: int) -> bool {
        0 <= index < 8 && (*self >> (index as u8)) & 1 == 1
    }

    fn width() -> usize {
        8
    }

    fn zero() -> u8 {
        proof {
            assert forall|i: int| 0 <= i < 8 implies !(#[trigger] 0u8.bit_at(i)) by {
                lemma_u8(0, 0, 0, i as u8);
            }
        }
        0
    }

    fn set_bit(&mut self, index: usize, value: bool) {
        let ghost x = *self;
        let i = index as u8;
        let v: u8 = if value { 1 } else { 0 };
        *self = *self & (!0u8 ^ (1u8 << i));
        *self = *self | (v << i);
        proof {
            assert forall|j: int| 0 <= j < 8 implies #[trigger] self.bit_at(j) == if j == index {
                value
            } else {
                x.bit_at(j)
            } by {
                lemma_u8(x, i, v, j as u8);
            }
        }
    }

    fn get_bit(&self, index: usize) -> bool {
        let i = index as u8;
        proof {
            lemma_u8(*self, i, 0, 0);
        }
        ((*self & (1u8 << i)) >> i) > 0
    }
}

impl seal::BitSeal for i8 {}

impl BitBuffer for i8 {
    open spec fn width_spec() -> nat {
        8
    }

    open spec fn bit_at(&self, index: int) -> bool {
        (*self as u8).bit_at(index)
    }

    fn width() -> usize {
        8
    }

    fn zero() -> i8 {
        proof {
            assert forall|i: int| 0 <= i < 8 implies !(#[trigger] 0i8.bit_at(i)) by {
                lemma_u8(0, 0, 0, i as u8);
            }
        }
        0
    }

    fn set_bit(&mut self, index: usize, value: bool) {
        let mut u = *self as u8;
        u.set_bit(index, value);
        assert((u as i8) as u8 == u) by (bit_vector);
        *self = u as i8;
    }

    fn get_bit(&self, index: usize) -> bool {
        (*self as u8).get_bit(index)
    }
}

impl seal::BitSeal for u16 {}

proof fn lemma_u16(x: u16, i: u16, v: u16, j: u16)
    by (bit_vector)
    requires
        i < 16,
        j < 16,
        v == 0 || v == 1,
    ensures
        (((x & (1u16 << i)) >> i) > 0) == ((x >> i) & 1 == 1),
        (0u16 >> j) & 1 != 1,
        ((((x & (!0u16 ^ (1u16 << i))) | (v << i)) >> j) & 1 == 1) == if j == i {
            v == 1
        } else {
            (x >> j) & 1 == 1
        },
{
}

impl BitBuffer for u16 {
    open spec fn width_spec() -> nat {
        16
    }

    open spec fn bit_at(&self, index: int) -> bool {
        0 <= index < 16 && (*self >> (index as u16)) & 1 == 1
    }

    fn width() -> usize {
        16
    }

    fn zero() -> u16 {
        proof {
            assert forall|i: int| 0 <= i < 16 implies !(#[trigger] 0u16.bit_at(i)) by {
                lemma_u16(0, 0, 0, i as u16);
            }
        }
        0
    }

    fn set_bit(&mut self, index: usize, value: bool) {
        let ghost x = *self;
        let i = index as u16;
        let v: u16 = if value { 1 } else { 0 };
        *self = *self & (!0u16 ^ (1u16 << i));
        *self = *self | (v << i);
        proof {
            assert forall|j: int| 0 <= j < 16 implies #[trigger] self.bit_at(j) == if j == index {
                value
            } else {
                x.bit_at(j)
            } by {
                lemma_u16(x, i, v, j as u16);
            }
        }
    }

    fn get_bit(&self, index: usize) -> bool {
        let i = index as u16;
        proof {
            lemma_u16(*self, i, 0, 0);
        }
        ((*self & (1u16 << i)) >> i) > 0
    }
}

impl seal::BitSeal for i16 {}

impl BitBuffer for i16 {
    open spec fn width_spec() -> nat {
        16
    }

    open spec fn bit_at(&self, index: int) -> bool {
        (*self as u16).bit_at(index)
    }

    fn width() -> usize {
        16
    }

    fn zero() -> i16 {
        proof {
            assert forall|i: int| 0 <= i < 16 implies !(#[trigger] 0i16.bit_at(i)) by {
                lemma_u16(0, 0, 0, i as u16);
            }
        }
        0
    }

    fn set_bit(&mut self, index: usize, value: bool) {
        let mut u = *self as u16;
        u.set_bit(index, value);
        assert((u as i16) as u16 == u) by (bit_vector);
        *self = u as i16;
    }

    fn get_bit(&self, index: usize) -> bool {
        (*self as u16).get_bit(index)
    }
}

impl seal::BitSeal for u32 {}

proof fn lemma_u32(x: u32, i: u32, v: u32, j: u32)
    by (bit_vector)
    requires
        i < 32,
        j < 32,
        v == 0 || v == 1,
    ensures
        (((x & (1u32 << i)) >> i) > 0) == ((x >> i) & 1 == 1),
        (0u32 >> j) & 1 != 1,
        ((((x & (!0u32 ^ (1u32 << i))) | (v << i)) >> j) & 1 == 1) == if j == i {
            v == 1
        } else {
            (x >> j) & 1 == 1
        },
{
}

impl BitBuffer for u32 {
    open spec fn width_spec() -> nat {
        32
    }

    open spec fn bit_at(&self, index: int) -> bool {
        0 <= index < 32 && (*self >> (index as u32)) & 1 == 1
    }

    fn width() -> usize {
        32
    }

    fn zero() -> u32 {
        proof {
            assert forall|i: int| 0 <= i < 32 implies !(#[trigger] 0u32.bit_at(i)) by {
                lemma_u32(0, 0, 0, i as u32);
            }
        }
        0
    }

    fn set_bit(&mut self, index: usize, value: bool) {
        let ghost x = *self;
        let i = index as u32;
        let v: u32 = if value { 1 } else { 0 };
        *self = *self & (!0u32 ^ (1u32 << i));
        *self = *self | (v << i);
        proof {
            assert forall|j: int| 0 <= j < 32 implies #[trigger] self.bit_at(j) == if j == index {
                value
            } else {
                x.bit_at(j)
            } by {
                lemma_u32(x, i, v, j as u32);
            }
        }
    }

    fn get_bit(&self, index: usize) -> bool {
        let i = index as u32;
        proof {
            lemma_u32(*self, i, 0, 0);
        }
        ((*self & (1u32 << i)) >> i) > 0
    }
}

impl seal::BitSeal for i32 {}

impl BitBuffer for i32 {
    open spec fn width_spec() -> nat {
        32
    }

    open spec fn bit_at(&self, index: int) -> bool {
        (*self as u32).bit_at(index)
    }

    fn width() -> usize {
        32
    }

    fn zero() -> i32 {
        proof {
            assert forall|i: int| 0 <= i < 32 implies !(#[trigger] 0i32.bit_at(i)) by {
                lemma_u32(0, 0, 0, i as u32);
            }
        }
        0
    }

    fn set_bit(&mut self, index: usize, value: bool) {
        let mut u = *self as u32;
        u.set_bit(index, value);
        assert((u as i32) as u32 == u) by (bit_vector);
        *self = u as i32;
    }

    fn get_bit(&self, index: usize) -> bool {
        (*self as u32).get_bit(index)
    }
}

impl seal::BitSeal for u64 {}

proof fn lemma_u64(x: u64, i: u64, v: u64, j: u64)
    by (bit_vector)
    requires
        i < 64,
        j < 64,
        v == 0 || v == 1,
    ensures
        (((x & (1u64 << i)) >> i) > 0) == ((x >> i) & 1 == 1),
        (0u64 >> j) & 1 != 1,
        ((((x & (!0u64 ^ (1u64 << i))) | (v << i)) >> j) & 1 == 1) == if j == i {
            v == 1
        } else {
            (x >> j) & 1 == 1
        },
{
}

impl BitBuffer for u64 {
    open spec fn width_spec() -> nat {
        64
    }

    open spec fn bit_at(&self, index: int) -> bool {
        0 <= index < 64 && (*self >> (index as u64)) & 1 == 1
    }

    fn width() -> usize {
        64
    }

    fn zero() -> u64 {
        proof {
            assert forall|i: int| 0 <= i < 64 implies !(#[trigger] 0u64.bit_at(i)) by {
                lemma_u64(0, 0, 0, i as u64);
            }
        }
        0
    }

    fn set_bit(&mut self, index: usize, value: bool) {
        let ghost x = *self;
        let i = index as u64;
        let v: u64 = if value { 1 } else { 0 };
        *self = *self & (!0u64 ^ (1u64 << i));
        *self = *self | (v << i);
        proof {
            assert forall|j: int| 0 <= j < 64 implies #[trigger] self.bit_at(j) == if j == index {
                value
            } else {
                x.bit_at(j)
            } by {
                lemma_u64(x, i, v, j as u64);
            }
        }
    }

    fn get_bit(&self, index: usize) -> bool {
        let i = index as u64;
        proof {
            lemma_u64(*self, i, 0, 0);
        }
        ((*self & (1u64 << i)) >> i) > 0
    }
}

impl seal::BitSeal for i64 {}

impl BitBuffer for i64 {
    open spec fn width_spec() -> nat {
        64
    }

    open spec fn bit_at(&self, index: int) -> bool {
        (*self as u64).bit_at(index)
    }

    fn width() -> usize {
        64
    }

    fn zero() -> i64 {
        proof {
            assert forall|i: int| 0 <= i < 64 implies !(#[trigger] 0i64.bit_at(i)) by {
                lemma_u64(0, 0, 0, i as u64);
            }
        }
        0
    }

    fn set_bit(&mut self, index: usize, value: bool) {
        let mut u = *self as u64;
        u.set_bit(index, value);
        assert((u as i64) as u64 == u) by (bit_vector);
        *self = u as i64;
    }

    fn get_bit(&self, index: usize) -> bool {
        (*self as u64).get_bit(index)
    }
}

impl seal::BitSeal for u128 {}

proof fn lemma_u128(x: u128, i: u128, v: u128, j: u128)
    by (bit_vector)
    requires
        i < 128,
        j < 128,
        v == 0 || v == 1,
    ensures
        (((x & (1u128 << i)) >> i) > 0) == ((x >> i) & 1 == 1),
        (0u128 >> j) & 1 != 1,
        ((((x & (!0u128 ^ (1u128 << i))) | (v << i)) >> j) & 1 == 1) == if j == i {
            v == 1
        } else {
            (x >> j) & 1 == 1
        },
{
}

impl BitBuffer for u128 {
    open spec fn width_spec() -> nat {
        128
    }

    open spec fn bit_at(&self, index: int) -> bool {
        0 <= index < 128 && (*self >> (index as u128)) & 1 == 1
    }

    fn width() -> usize {
        128
    }

    fn zero() -> u128 {
        proof {
            assert forall|i: int| 0 <= i < 128 implies !(#[trigger] 0u128.bit_at(i)) by {
                lemma_u128(0, 0, 0, i as u128);
            }
        }
        0
    }

    fn set_bit(&mut self, index: usize, value: bool) {
        let ghost x = *self;
        let i = index as u128;
        let v: u128 = if value { 1 } else { 0 };
        *self = *self & (!0u128 ^ (1u128 << i));
        *self = *self | (v << i);
        proof {
            assert forall|j: int| 0 <= j < 128 implies #[trigger] self.bit_at(j) == if j == index {
                value
            } else {
                x.bit_at(j)
            } by {
                lemma_u128(x, i, v, j as u128);
            }
        }
    }

    fn get_bit(&self, index: usize) -> bool {
        let i = index as u128;
        proof {
            lemma_u128(*self, i, 0, 0);
        }
        ((*self & (1u128 << i)) >> i) > 0
    }
}

impl seal::BitSeal for i128 {}

impl BitBuffer for i128 {
    open spec fn width_spec() -> nat {
        128
    }

    open spec fn bit_at(&self, index: int) -> bool {
        (*self as u128).bit_at(index)
    }

    fn width() -> usize {
        128
    }

    fn zero() -> i128 {
        proof {
            assert forall|i: int| 0 <= i < 128 implies !(#[trigger] 0i128.bit_at(i)) by {
                lemma_u128(0, 0, 0, i as u128);
            }
        }
        0
    }

    fn set_bit(&mut self, index: usize, value: bool) {
        let mut u = *self as u128;
        u.set_bit(index, value);
        assert((u as i128) as u128 == u) by (bit_vector);
        *self = u as i128;
    }

    fn get_bit(&self, index: usize) -> bool {
        (*self as u128).get_bit(index)
    }
}

impl seal::BitSeal for usize {}

proof fn lemma_usize(x: usize, i: usize, v: usize, j: usize)
    by (bit_vector)
    requires
        i < usize::BITS,
        j < usize::BITS,
        v == 0 || v == 1,
    ensures
        (((x & (1usize << i)) >> i) > 0) == ((x >> i) & 1 == 1),
        (0usize >> j) & 1 != 1,
        ((((x & (!0usize ^ (1usize << i))) | (v << i)) >> j) & 1 == 1) == if j == i {
            v == 1
        } else {
            (x >> j) & 1 == 1
        },
{
}

impl BitBuffer for usize {
    open spec fn width_spec() -> nat {
        usize::BITS as nat
    }

    open spec fn bit_at(&self, index: int) -> bool {
        0 <= index < usize::BITS && (*self >> (index as usize)) & 1 == 1
    }

    fn width() -> usize {
        usize::BITS as usize
    }

    fn zero() -> usize {
        proof {
            assert forall|i: int| 0 <= i < usize::BITS implies !(#[trigger] 0usize.bit_at(i)) by {
                lemma_usize(0, 0, 0, i as usize);
            }
        }
        0
    }

    fn set_bit(&mut self, index: usize, value: bool) {
        let ghost x = *self;
        let i = index;
        let v: usize = if value { 1 } else { 0 };
        *self = *self & (!0usize ^ (1usize << i));
        *self = *self | (v << i);
        proof {
            assert forall|j: int| 0 <= j < usize::BITS implies #[trigger] self.bit_at(j) == if j == index {
                value
            } else {
                x.bit_at(j)
            } by {
                lemma_usize(x, i, v, j as usize);
            }
        }
    }

    fn get_bit(&self, index: usize) -> bool {
        let i = index;
        proof {
            lemma_usize(*self, i, 0, 0);
        }
        ((*self & (1usize << i)) >> i) > 0
    }
}

impl seal::BitSeal for isize {}

impl BitBuffer for isize {
    open spec fn width_spec() -> nat {
        usize::BITS as nat
    }

    open spec fn bit_at(&self, index: int) -> bool {
        (*self as usize).bit_at(index)
    }

    fn width() -> usize {
        usize::BITS as usize
    }

    fn zero() -> isize {
        proof {
            assert forall|i: int| 0 <= i < usize::BITS implies !(#[trigger] 0isize.bit_at(i)) by {
                lemma_usize(0, 0, 0, i as usize);
            }
        }
        0
    }

    fn set_bit(&mut self, index: usize, value: bool) {
        let mut u = *self as usize;
        u.set_bit(index, value);
        assert((u as isize) as usize == u) by (bit_vector);
        *self = u as isize;
    }

    fn get_bit(&self, index: usize) -> bool {
        (*self as usize).get_bit(index)
    }
}


impl<T: seal::BitSeal, const N: usize> seal::BitSeal for [T; N] {}

/// Facts about splitting a bit position `i` of an array of `n` words of
/// `a` bits into a word position `i / a` and a bit position `i % a`.
proof fn lemma_array_position(a: int, n: int, i: int)
    requires
        0 < a * n,
        0 <= n,
        0 <= a,
        0 <= i < a * n,
    ensures
        0 < a <= a * n,
        1 <= n,
        0 <= i / a < n,
        0 <= i % a < a,
        a * (i / a) + i % a == i,
{
    assert(0 < a && 1 <= n) by (nonlinear_arith)
        requires
            0 < a * n,
            0 <= n,
            0 <= a,
    ;
    assert(a <= a * n) by (nonlinear_arith)
        requires
            0 < a,
            1 <= n,
    ;
    vstd::arithmetic::div_mod::lemma_fundamental_div_mod(i, a);
    assert(i / a < n) by (nonlinear_arith)
        requires
            0 < a,
            0 <= i < a * n,
            a * (i / a) + i % a == i,
            0 <= i % a < a,
    ;
    assert(0 <= i / a) by (nonlinear_arith)
        requires
            0 < a,
            0 <= i,
    ;
}

/// Two bit positions with the same word position and bit position are equal.
pub(crate) proof fn lemma_same_position(a: int, i: int, j: int)
    requires
        0 < a,
        i / a == j / a,
        i % a == j % a,
    ensures
        i == j,
{
    vstd::arithmetic::div_mod::lemma_fundamental_div_mod(i, a);
    vstd::arithmetic::div_mod::lemma_fundamental_div_mod(j, a);
}

impl<T: BitBuffer, const N: usize> BitBuffer for [T; N] {
    open spec fn width_spec() -> nat {
        T::width_spec() * (N as nat)
    }

    open spec fn bit_at(&self, index: int) -> bool {
        &&& 0 <= index < Self::width_spec()
        &&& self@[index / (T::width_spec() as int)].bit_at(index % (T::width_spec() as int))
    }

    fn width() -> usize {
        proof {
            lemma_array_position(T::width_spec() as int, N as int, 0);
        }
        T::width() * N
    }

    fn zero() -> Self {
        let z = T::zero();
        let a: [T; N] = [z; N];
        proof {
            assert forall|i: int| 0 <= i < Self::width_spec() implies !(#[trigger] a.bit_at(i)) by {
                lemma_array_position(T::width_spec() as int, N as int, i);
            }
        }
        a
    }

    fn set_bit(&mut self, index: usize, value: bool) {
        let ghost old_self = *self;
        proof {
            lemma_array_position(T::width_spec() as int, N as int, index as int);
        }
        let w = T::width();
        let k = index / w;
        let mut x = self[k];
        x.set_bit(index % w, value);
        self[k] = x;
        proof {
            let a = T::width_spec() as int;
            assert forall|i: int| 0 <= i < Self::width_spec() implies #[trigger] self.bit_at(i) == if i
                == index {
                value
            } else {
                old_self.bit_at(i)
            } by {
                lemma_array_position(a, N as int, i);
                if i / a == k && i % a == index % w {
                    lemma_same_position(a, i, index as int);
                }
                if i == index {
                    assert(i / a == k && i % a == index % w);
                }
            }
        }
    }

    fn get_bit(&self, index: usize) -> bool {
        proof {
            lemma_array_position(T::width_spec() as int, N as int, index as int);
        }
        let w = T::width();
        self[index / w].get_bit(index % w)
    }
}

} // verus!

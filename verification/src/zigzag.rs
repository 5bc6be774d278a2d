//! Folding signed offsets into unsigned magnitudes, and enumerating pairs of
//! offsets by a single index.
//!
//! [`ZigZag`] maps between a signed value and an unsigned one so that values
//! of small magnitude get small numbers: `0, 1, -1, 2, -2, ...` are numbered
//! `0, 1, 2, 3, 4, ...`. [`ZugZug`] maps between an index and a pair of signed
//! values `(lo, hi)` with `lo <= hi`, so that pairs near `(0, 0)` get small
//! indices.

use vstd::prelude::*;

verus! {

/// The number of a signed value: positive values get the odd numbers,
/// zero and the negative values the even ones.
pub open spec fn fold(x: int) -> int {
    if x > 0 {
        2 * x - 1
    } else {
        -2 * x
    }
}

/// The signed value with a given number; the inverse of [`fold`].
pub open spec fn unfold(n: int) -> int {
    if n % 2 == 0 {
        -(n / 2)
    } else {
        (n + 1) / 2
    }
}

/// [`fold`] on a signed type whose least value is `min`: the least value,
/// whose number would not fit, gets the greatest number of the unsigned type.
pub open spec fn unsigned_of(x: int, min: int) -> int {
    if x == min {
        -2 * min - 1
    } else {
        fold(x)
    }
}

/// [`unfold`] into a signed type whose least value is `min`: the greatest
/// number of the unsigned type gives the least value.
pub open spec fn signed_of(n: int, min: int) -> int {
    if n == -2 * min - 1 {
        min
    } else {
        unfold(n)
    }
}

/// The `n`-th triangular number, `0 + 1 + ... + n`.
pub open spec fn triangle(n: int) -> int {
    n * (n + 1) / 2
}

/// The greatest `a` with `triangle(a) <= i`.
pub open spec fn triangular_root(i: nat) -> nat
    decreases i,
{
    if i == 0 {
        0
    } else {
        let r = triangular_root((i - 1) as nat);
        if triangle(r as int + 1) <= i {
            r + 1
        } else {
            r
        }
    }
}

/// Two values in ascending order.
pub open spec fn ordered(c: int, d: int) -> (int, int) {
    if c <= d {
        (c, d)
    } else {
        (d, c)
    }
}

/// The pair with index `i`. With `a = triangular_root(i)` and
/// `b = i - triangle(a)`, so that `0 <= b <= a`, it consists of the values
/// numbered `a` and `b`, in ascending order.
pub open spec fn index_to_pair(i: nat) -> (int, int) {
    let a = triangular_root(i) as int;
    let b = i - triangle(a);
    ordered(unfold(a), unfold(b))
}

/// The index of the pair made of `x` and `y`, in either order: the value with
/// the greater number selects the triangle, the other the place in it.
pub open spec fn pair_to_index(x: int, y: int) -> int {
    let fx = fold(x);
    let fy = fold(y);
    if fx >= fy {
        triangle(fx) + fy
    } else {
        triangle(fy) + fx
    }
}

/// [`pair_to_index`] on a signed type whose least value is `min`, reduced
/// to the range of the unsigned type of the same width.
pub open spec fn wrapped_pair_to_index(x: int, y: int, min: int) -> int {
    let fx = unsigned_of(x, min);
    let fy = unsigned_of(y, min);
    if fx >= fy {
        (triangle(fx) + fy) % (-2 * min)
    } else {
        (triangle(fy) + fx) % (-2 * min)
    }
}

/// Numbering a value and reading the number back gives the value.
pub proof fn lemma_unfold_fold(x: int)
    ensures
        fold(x) >= 0,
        unfold(fold(x)) == x,
{
}

/// Reading a number and numbering the value again gives the number.
pub proof fn lemma_fold_unfold(n: int)
    requires
        n >= 0,
    ensures
        fold(unfold(n)) == n,
{
}

/// On a signed type with least value `min` and the unsigned type of the same
/// width, the two directions of [`ZigZag`] undo each other over the whole
/// range of either type.
pub proof fn lemma_zigzag_round_trip(x: int, n: int, min: int)
    requires
        min < 0,
        min <= x < -min,
        0 <= n < -2 * min,
    ensures
        0 <= unsigned_of(x, min) < -2 * min,
        min <= signed_of(n, min) < -min,
        signed_of(unsigned_of(x, min), min) == x,
        unsigned_of(signed_of(n, min), min) == n,
{
}

/// Twice a triangular number is a product of two neighbours.
pub proof fn lemma_triangle_double(n: int)
    requires
        n >= 0,
    ensures
        2 * triangle(n) == n * (n + 1),
        triangle(n) >= n,
        triangle(n + 1) == triangle(n) + n + 1,
    decreases n,
{
    if n > 0 {
        lemma_triangle_double(n - 1);
        assert(n * (n + 1) == (n - 1) * (n - 1 + 1) + 2 * n) by (nonlinear_arith);
        assert(n * (n + 1) == 2 * (triangle(n - 1) + n));
    } else {
        assert(n * (n + 1) == 0) by (nonlinear_arith)
            requires
                n == 0,
        ;
    }
    assert((n + 1) * (n + 1 + 1) == n * (n + 1) + 2 * (n + 1)) by (nonlinear_arith);
    assert(n * (n + 1) >= 2 * n) by (nonlinear_arith)
        requires
            n >= 0,
    ;
}

/// Triangular numbers grow with their argument.
pub proof fn lemma_triangle_monotonic(a: int, b: int)
    requires
        0 <= a <= b,
    ensures
        triangle(a) <= triangle(b),
    decreases b - a,
{
    if a < b {
        lemma_triangle_monotonic(a, b - 1);
        lemma_triangle_double(b - 1);
    }
}

/// The triangular root brackets its argument between two triangular numbers.
pub proof fn lemma_triangular_root_bounds(i: nat)
    ensures
        triangle(triangular_root(i) as int) <= i < triangle(triangular_root(i) as int + 1),
    decreases i,
{
    if i > 0 {
        lemma_triangular_root_bounds((i - 1) as nat);
        let r = triangular_root((i - 1) as nat) as int;
        lemma_triangle_double(r + 1);
        lemma_triangle_double(r + 2);
    } else {
        assert(triangle(0) == 0);
        assert(triangle(1) == 1);
    }
}

/// Only the triangular root brackets its argument in this way.
pub proof fn lemma_triangular_root_unique(i: nat, a: int)
    requires
        a >= 0,
        triangle(a) <= i < triangle(a + 1),
    ensures
        a == triangular_root(i),
{
    let r = triangular_root(i) as int;
    lemma_triangular_root_bounds(i);
    if a < r {
        lemma_triangle_monotonic(a + 1, r);
    } else if r < a {
        lemma_triangle_monotonic(r + 1, a);
    }
}

/// From the integer square root `s` of `8 * p + 1` the triangular root of `p`
/// is `(s - 1) / 2`.
pub proof fn lemma_root_from_sqrt(p: int, s: int)
    requires
        p >= 0,
        s >= 0,
        s * s <= 8 * p + 1 < (s + 1) * (s + 1),
    ensures
        s >= 1,
        (s - 1) / 2 == triangular_root(p as nat),
        0 <= ((s - 1) / 2 + 1) * ((s - 1) / 2) <= 2 * p,
        ((s - 1) / 2 + 1) * ((s - 1) / 2) / 2 == triangle((s - 1) / 2),
        0 <= p - triangle((s - 1) / 2) <= (s - 1) / 2 <= p,
        (s - 1) / 2 >= 2 ==> (s - 1) / 2 < p,
{
    let a = (s - 1) / 2;
    assert(s >= 1) by (nonlinear_arith)
        requires
            s >= 0,
            p >= 0,
            8 * p + 1 < (s + 1) * (s + 1),
    ;
    assert(a * (a + 1) <= 2 * p) by (nonlinear_arith)
        requires
            a >= 0,
            2 * a + 1 <= s,
            s * s <= 8 * p + 1,
    ;
    assert((a + 1) * (a + 2) > 2 * p) by (nonlinear_arith)
        requires
            a >= 0,
            s >= 0,
            2 * a + 3 >= s + 1,
            8 * p + 1 < (s + 1) * (s + 1),
    ;
    assert((a + 1) * a == a * (a + 1)) by (nonlinear_arith);
    lemma_triangle_double(a);
    lemma_triangle_double(a + 1);
    lemma_triangular_root_unique(p as nat, a);
    if a >= 2 {
        assert(a * (a + 1) >= 2 * a + 2) by (nonlinear_arith)
            requires
                a >= 2,
        ;
    }
}

/// The pair at index 0 is `(0, 0)`.
pub proof fn lemma_index_zero()
    ensures
        index_to_pair(0) == (0int, 0int),
{
    assert(triangle(0) == 0);
}

/// Every index gives an ascending pair.
pub proof fn lemma_pair_ascending(i: nat)
    ensures
        index_to_pair(i).0 <= index_to_pair(i).1,
{
}

/// The index of a pair does not depend on the order of its two values.
pub proof fn lemma_pair_order_independent(x: int, y: int)
    ensures
        pair_to_index(x, y) == pair_to_index(y, x),
{
}

/// The index of the pair at index `i` is `i`.
pub proof fn lemma_pair_round_trip(i: nat)
    ensures
        pair_to_index(index_to_pair(i).0, index_to_pair(i).1) == i,
{
    let a = triangular_root(i) as int;
    let b = i - triangle(a);
    lemma_triangular_root_bounds(i);
    lemma_triangle_double(a);
    lemma_fold_unfold(a);
    lemma_fold_unfold(b);
}

/// Two different indices give two different pairs.
pub proof fn lemma_pairs_distinct(i: nat, j: nat)
    requires
        i != j,
    ensures
        index_to_pair(i) != index_to_pair(j),
{
    lemma_pair_round_trip(i);
    lemma_pair_round_trip(j);
}

/// Every pair is reached: the pair at the index of `(x, y)` holds `x` and `y`
/// in ascending order.
pub proof fn lemma_pair_reached(x: int, y: int)
    ensures
        pair_to_index(x, y) >= 0,
        index_to_pair(pair_to_index(x, y) as nat) == ordered(x, y),
{
    let fx = fold(x);
    let fy = fold(y);
    let a = if fx >= fy { fx } else { fy };
    let b = if fx >= fy { fy } else { fx };
    lemma_triangle_double(a);
    lemma_triangular_root_unique((triangle(a) + b) as nat, a);
    lemma_unfold_fold(x);
    lemma_unfold_fold(y);
}

/// A pair whose greater number is smaller than that of another pair comes
/// before it.
pub proof fn lemma_nearer_pair_first(x1: int, y1: int, x2: int, y2: int)
    requires
        fold(x1) < fold(x2) || fold(x1) < fold(y2),
        fold(y1) < fold(x2) || fold(y1) < fold(y2),
    ensures
        pair_to_index(x1, y1) < pair_to_index(x2, y2),
{
    let a1 = if fold(x1) >= fold(y1) { fold(x1) } else { fold(y1) };
    let a2 = if fold(x2) >= fold(y2) { fold(x2) } else { fold(y2) };
    lemma_triangle_double(a1);
    lemma_triangle_monotonic(a1 + 1, a2);
}

/// On a signed type with least value `min` and the unsigned type of the same
/// width, the index of the pair at an index is that index: the two
/// directions of [`ZugZug`] undo each other over the whole range of the
/// unsigned type.
pub proof fn lemma_zugzug_round_trip(i: nat, min: int)
    requires
        min <= -2,
        i < -2 * min,
    ensures
        min < index_to_pair(i).0 <= index_to_pair(i).1 < -min,
        wrapped_pair_to_index(index_to_pair(i).0, index_to_pair(i).1, min) == i,
{
    let a = triangular_root(i) as int;
    let b = i - triangle(a);
    lemma_triangular_root_bounds(i);
    lemma_triangle_double(a);
    lemma_pair_round_trip(i);
    lemma_fold_unfold(a);
    lemma_fold_unfold(b);
    assert(0 <= b <= a <= i);
    if a >= 2 {
        assert(a * (a + 1) >= 2 * a + 2) by (nonlinear_arith)
            requires
                a >= 2,
        ;
        assert(a < i);
    }
    let c = unfold(a);
    let d = unfold(b);
    assert(min < c < -min);
    assert(min < d < -min);
    assert(unsigned_of(c, min) == a && unsigned_of(d, min) == b);
    vstd::arithmetic::div_mod::lemma_small_mod(i, (-2 * min) as nat);
}

pub trait ZigZag {
    type Output;

    /// The number of a signed value, or the signed value of a number.
    fn zigzag(self) -> Self::Output;
}

pub trait ZugZug {
    type Output;

    /// The pair at an index, or the index of a pair.
    fn zugzug(self) -> Self::Output;
}

impl ZigZag for u8 {
    type Output = i8;

    #[inline(always)]
    fn zigzag(self) -> (r: i8)
        ensures
            r as int == signed_of(self as int, i8::MIN as int),
    {
        assert((self >> 1) <= 0x7f && (self >> 1) == self / 2 && (self & 1) == self % 2)
            by (bit_vector);
        let half: i8 = (self >> 1) as i8;
        let bit: i8 = (self & 1) as i8;
        let flip: i8 = 0i8.wrapping_sub(bit);
        assert((half ^ 0i8) == half && (half ^ -1i8) == -half - 1) by (bit_vector)
            requires
                half >= 0,
        ;
        0i8.wrapping_sub(half ^ flip)
    }
}

impl ZigZag for i8 {
    type Output = u8;

    #[inline(always)]
    fn zigzag(self) -> (r: u8)
        ensures
            r as int == unsigned_of(self as int, i8::MIN as int),
    {
        let neg: i8 = 0i8.wrapping_sub(self);
        let bits: u8 = #[verifier::truncate] (neg as u8);
        let sign: u8 = #[verifier::truncate] ((neg >> 7) as u8);
        assert(((neg as u8) << 1) ^ ((neg >> 7) as u8) == (if neg >= 0 {
            2 * neg
        } else {
            -2 * neg - 1
        })) by (bit_vector);
        (bits << 1) ^ sign
    }
}

impl ZigZag for u16 {
    type Output = i16;

    #[inline(always)]
    fn zigzag(self) -> (r: i16)
        ensures
            r as int == signed_of(self as int, i16::MIN as int),
    {
        assert((self >> 1) <= 0x7fff && (self >> 1) == self / 2 && (self & 1) == self % 2)
            by (bit_vector);
        let half: i16 = (self >> 1) as i16;
        let bit: i16 = (self & 1) as i16;
        let flip: i16 = 0i16.wrapping_sub(bit);
        assert((half ^ 0i16) == half && (half ^ -1i16) == -half - 1) by (bit_vector)
            requires
                half >= 0,
        ;
        0i16.wrapping_sub(half ^ flip)
    }
}

impl ZigZag for i16 {
    type Output = u16;

    #[inline(always)]
    fn zigzag(self) -> (r: u16)
        ensures
            r as int == unsigned_of(self as int, i16::MIN as int),
    {
        let neg: i16 = 0i16.wrapping_sub(self);
        let bits: u16 = #[verifier::truncate] (neg as u16);
        let sign: u16 = #[verifier::truncate] ((neg >> 15) as u16);
        assert(((neg as u16) << 1) ^ ((neg >> 15) as u16) == (if neg >= 0 {
            2 * neg
        } else {
            -2 * neg - 1
        })) by (bit_vector);
        (bits << 1) ^ sign
    }
}

impl ZigZag for u32 {
    type Output = i32;

    #[inline(always)]
    fn zigzag(self) -> (r: i32)
        ensures
            r as int == signed_of(self as int, i32::MIN as int),
    {
        assert((self >> 1) <= 0x7fffffff && (self >> 1) == self / 2 && (self & 1) == self % 2)
            by (bit_vector);
        let half: i32 = (self >> 1) as i32;
        let bit: i32 = (self & 1) as i32;
        let flip: i32 = 0i32.wrapping_sub(bit);
        assert((half ^ 0i32) == half && (half ^ -1i32) == -half - 1) by (bit_vector)
            requires
                half >= 0,
        ;
        0i32.wrapping_sub(half ^ flip)
    }
}

impl ZigZag for i32 {
    type Output = u32;

    #[inline(always)]
    fn zigzag(self) -> (r: u32)
        ensures
            r as int == unsigned_of(self as int, i32::MIN as int),
    {
        let neg: i32 = 0i32.wrapping_sub(self);
        let bits: u32 = #[verifier::truncate] (neg as u32);
        let sign: u32 = #[verifier::truncate] ((neg >> 31) as u32);
        assert(((neg as u32) << 1) ^ ((neg >> 31) as u32) == (if neg >= 0 {
            2 * neg
        } else {
            -2 * neg - 1
        })) by (bit_vector);
        (bits << 1) ^ sign
    }
}

impl ZigZag for u64 {
    type Output = i64;

    #[inline(always)]
    fn zigzag(self) -> (r: i64)
        ensures
            r as int == signed_of(self as int, i64::MIN as int),
    {
        assert((self >> 1) <= 0x7fffffffffffffff && (self >> 1) == self / 2 && (self & 1) == self % 2)
            by (bit_vector);
        let half: i64 = (self >> 1) as i64;
        let bit: i64 = (self & 1) as i64;
        let flip: i64 = 0i64.wrapping_sub(bit);
        assert((half ^ 0i64) == half && (half ^ -1i64) == -half - 1) by (bit_vector)
            requires
                half >= 0,
        ;
        0i64.wrapping_sub(half ^ flip)
    }
}

impl ZigZag for i64 {
    type Output = u64;

    #[inline(always)]
    fn zigzag(self) -> (r: u64)
        ensures
            r as int == unsigned_of(self as int, i64::MIN as int),
    {
        let neg: i64 = 0i64.wrapping_sub(self);
        let bits: u64 = #[verifier::truncate] (neg as u64);
        let sign: u64 = #[verifier::truncate] ((neg >> 63) as u64);
        assert(((neg as u64) << 1) ^ ((neg >> 63) as u64) == (if neg >= 0 {
            2 * neg
        } else {
            -2 * neg - 1
        })) by (bit_vector);
        (bits << 1) ^ sign
    }
}

impl ZigZag for u128 {
    type Output = i128;

    #[inline(always)]
    fn zigzag(self) -> (r: i128)
        ensures
            r as int == signed_of(self as int, i128::MIN as int),
    {
        assert((self >> 1) <= 0x7fffffffffffffffffffffffffffffff && (self >> 1) == self / 2 && (self & 1) == self % 2)
            by (bit_vector);
        let half: i128 = (self >> 1) as i128;
        let bit: i128 = (self & 1) as i128;
        let flip: i128 = 0i128.wrapping_sub(bit);
        assert((half ^ 0i128) == half && (half ^ -1i128) == -half - 1) by (bit_vector)
            requires
                half >= 0,
        ;
        0i128.wrapping_sub(half ^ flip)
    }
}

impl ZigZag for i128 {
    type Output = u128;

    #[inline(always)]
    fn zigzag(self) -> (r: u128)
        ensures
            r as int == unsigned_of(self as int, i128::MIN as int),
    {
        let neg: i128 = 0i128.wrapping_sub(self);
        let bits: u128 = #[verifier::truncate] (neg as u128);
        let sign: u128 = #[verifier::truncate] ((neg >> 127) as u128);
        assert(((neg as u128) << 1) ^ ((neg >> 127) as u128) == (if neg >= 0 {
            2 * neg
        } else {
            -2 * neg - 1
        })) by (bit_vector);
        (bits << 1) ^ sign
    }
}

impl ZigZag for usize {
    type Output = isize;

    #[inline(always)]
    fn zigzag(self) -> (r: isize)
        ensures
            r as int == signed_of(self as int, isize::MIN as int),
    {
        let half: usize = self / 2;
        if self % 2 == 0 {
            -(half as isize)
        } else if self == usize::MAX {
            isize::MIN
        } else {
            (half + 1) as isize
        }
    }
}

impl ZigZag for isize {
    type Output = usize;

    #[inline(always)]
    fn zigzag(self) -> (r: usize)
        ensures
            r as int == unsigned_of(self as int, isize::MIN as int),
    {
        if self == isize::MIN {
            usize::MAX
        } else if self > 0 {
            2 * (self as usize) - 1
        } else {
            2 * ((-self) as usize)
        }
    }
}

/// `num_integer::Roots::sqrt` on `i16`: for an argument that is not negative
/// (it panics on a negative one), the integer square root `r`, which the
/// crate documents by `r * r <= x < (r + 1) * (r + 1)`.
#[verifier::external_body]
fn sqrt_i16(x: i16) -> (r: i16)
    requires
        x >= 0,
    ensures
        r >= 0,
        r * r <= x < (r + 1) * (r + 1),
{
    num_integer::Roots::sqrt(&x)
}

/// `num_integer::Roots::sqrt` on `i32`: for an argument that is not negative
/// (it panics on a negative one), the integer square root `r`, which the
/// crate documents by `r * r <= x < (r + 1) * (r + 1)`.
#[verifier::external_body]
fn sqrt_i32(x: i32) -> (r: i32)
    requires
        x >= 0,
    ensures
        r >= 0,
        r * r <= x < (r + 1) * (r + 1),
{
    num_integer::Roots::sqrt(&x)
}

/// `num_integer::Roots::sqrt` on `i64`: for an argument that is not negative
/// (it panics on a negative one), the integer square root `r`, which the
/// crate documents by `r * r <= x < (r + 1) * (r + 1)`.
#[verifier::external_body]
fn sqrt_i64(x: i64) -> (r: i64)
    requires
        x >= 0,
    ensures
        r >= 0,
        r * r <= x < (r + 1) * (r + 1),
{
    num_integer::Roots::sqrt(&x)
}

/// `num_integer::Roots::sqrt` on `i128`: for an argument that is not negative
/// (it panics on a negative one), the integer square root `r`, which the
/// crate documents by `r * r <= x < (r + 1) * (r + 1)`.
#[verifier::external_body]
fn sqrt_i128(x: i128) -> (r: i128)
    requires
        x >= 0,
    ensures
        r >= 0,
        r * r <= x < (r + 1) * (r + 1),
{
    num_integer::Roots::sqrt(&x)
}

impl ZugZug for u8 {
    type Output = (i8, i8);

    #[inline(always)]
    fn zugzug(self) -> (r: (i8, i8))
        ensures
            (r.0 as int, r.1 as int) == index_to_pair(self as nat),
    {
        let prime: i16 = self as i16;
        let root: i16 = sqrt_i16(prime * 8 + 1);
        proof {
            lemma_root_from_sqrt(prime as int, root as int);
        }
        let alfa: i16 = (root - 1) / 2;
        let bravo: i16 = prime - (alfa + 1) * alfa / 2;
        let charlie: i8 = (alfa as u8).zigzag();
        let delta: i8 = (bravo as u8).zigzag();
        if charlie <= delta {
            (charlie, delta)
        } else {
            (delta, charlie)
        }
    }
}

impl ZugZug for (i8, i8) {
    type Output = u8;

    #[inline(always)]
    fn zugzug(self) -> (r: u8)
        ensures
            r as int == wrapped_pair_to_index(self.0 as int, self.1 as int, i8::MIN as int),
    {
        let first: u16 = self.0.zigzag() as u16;
        let second: u16 = self.1.zigzag() as u16;
        let (charlie, delta) = if first >= second {
            (first, second)
        } else {
            (second, first)
        };
        assert(0 <= charlie * (charlie + 1) <= 0xff * (0xff + 1)) by (nonlinear_arith)
            requires
                0 <= charlie <= 0xff,
        ;
        let index: u16 = charlie * (charlie + 1) / 2 + delta;
        assert(index as u8 == index % 0x100) by (bit_vector);
        #[verifier::truncate]
        (index as u8)
    }
}

impl ZugZug for u16 {
    type Output = (i16, i16);

    #[inline(always)]
    fn zugzug(self) -> (r: (i16, i16))
        ensures
            (r.0 as int, r.1 as int) == index_to_pair(self as nat),
    {
        let prime: i32 = self as i32;
        let root: i32 = sqrt_i32(prime * 8 + 1);
        proof {
            lemma_root_from_sqrt(prime as int, root as int);
        }
        let alfa: i32 = (root - 1) / 2;
        let bravo: i32 = prime - (alfa + 1) * alfa / 2;
        let charlie: i16 = (alfa as u16).zigzag();
        let delta: i16 = (bravo as u16).zigzag();
        if charlie <= delta {
            (charlie, delta)
        } else {
            (delta, charlie)
        }
    }
}

impl ZugZug for (i16, i16) {
    type Output = u16;

    #[inline(always)]
    fn zugzug(self) -> (r: u16)
        ensures
            r as int == wrapped_pair_to_index(self.0 as int, self.1 as int, i16::MIN as int),
    {
        let first: u32 = self.0.zigzag() as u32;
        let second: u32 = self.1.zigzag() as u32;
        let (charlie, delta) = if first >= second {
            (first, second)
        } else {
            (second, first)
        };
        assert(0 <= charlie * (charlie + 1) <= 0xffff * (0xffff + 1)) by (nonlinear_arith)
            requires
                0 <= charlie <= 0xffff,
        ;
        let index: u32 = charlie * (charlie + 1) / 2 + delta;
        assert(index as u16 == index % 0x10000) by (bit_vector);
        #[verifier::truncate]
        (index as u16)
    }
}

impl ZugZug for u32 {
    type Output = (i32, i32);

    #[inline(always)]
    fn zugzug(self) -> (r: (i32, i32))
        ensures
            (r.0 as int, r.1 as int) == index_to_pair(self as nat),
    {
        let prime: i64 = self as i64;
        let root: i64 = sqrt_i64(prime * 8 + 1);
        proof {
            lemma_root_from_sqrt(prime as int, root as int);
        }
        let alfa: i64 = (root - 1) / 2;
        let bravo: i64 = prime - (alfa + 1) * alfa / 2;
        let charlie: i32 = (alfa as u32).zigzag();
        let delta: i32 = (bravo as u32).zigzag();
        if charlie <= delta {
            (charlie, delta)
        } else {
            (delta, charlie)
        }
    }
}

impl ZugZug for (i32, i32) {
    type Output = u32;

    #[inline(always)]
    fn zugzug(self) -> (r: u32)
        ensures
            r as int == wrapped_pair_to_index(self.0 as int, self.1 as int, i32::MIN as int),
    {
        let first: u64 = self.0.zigzag() as u64;
        let second: u64 = self.1.zigzag() as u64;
        let (charlie, delta) = if first >= second {
            (first, second)
        } else {
            (second, first)
        };
        assert(0 <= charlie * (charlie + 1) <= 0xffffffff * (0xffffffff + 1)) by (nonlinear_arith)
            requires
                0 <= charlie <= 0xffffffff,
        ;
        let index: u64 = charlie * (charlie + 1) / 2 + delta;
        assert(index as u32 == index % 0x100000000) by (bit_vector);
        #[verifier::truncate]
        (index as u32)
    }
}

impl ZugZug for u64 {
    type Output = (i64, i64);

    #[inline(always)]
    fn zugzug(self) -> (r: (i64, i64))
        ensures
            (r.0 as int, r.1 as int) == index_to_pair(self as nat),
    {
        let prime: i128 = self as i128;
        let root: i128 = sqrt_i128(prime * 8 + 1);
        proof {
            lemma_root_from_sqrt(prime as int, root as int);
        }
        let alfa: i128 = (root - 1) / 2;
        let bravo: i128 = prime - (alfa + 1) * alfa / 2;
        let charlie: i64 = (alfa as u64).zigzag();
        let delta: i64 = (bravo as u64).zigzag();
        if charlie <= delta {
            (charlie, delta)
        } else {
            (delta, charlie)
        }
    }
}

impl ZugZug for (i64, i64) {
    type Output = u64;

    #[inline(always)]
    fn zugzug(self) -> (r: u64)
        ensures
            r as int == wrapped_pair_to_index(self.0 as int, self.1 as int, i64::MIN as int),
    {
        let first: u128 = self.0.zigzag() as u128;
        let second: u128 = self.1.zigzag() as u128;
        let (charlie, delta) = if first >= second {
            (first, second)
        } else {
            (second, first)
        };
        assert(0 <= charlie * (charlie + 1) <= 0xffffffffffffffff * (0xffffffffffffffff + 1)) by (nonlinear_arith)
            requires
                0 <= charlie <= 0xffffffffffffffff,
        ;
        let index: u128 = charlie * (charlie + 1) / 2 + delta;
        assert(index as u64 == index % 0x10000000000000000) by (bit_vector);
        #[verifier::truncate]
        (index as u64)
    }
}

impl ZugZug for usize {
    type Output = (isize, isize);

    #[inline(always)]
    fn zugzug(self) -> (r: (isize, isize))
        ensures
            (r.0 as int, r.1 as int) == index_to_pair(self as nat),
    {
        let prime: i128 = self as i128;
        let root: i128 = sqrt_i128(prime * 8 + 1);
        proof {
            lemma_root_from_sqrt(prime as int, root as int);
        }
        let alfa: i128 = (root - 1) / 2;
        let bravo: i128 = prime - (alfa + 1) * alfa / 2;
        let charlie: isize = (alfa as usize).zigzag();
        let delta: isize = (bravo as usize).zigzag();
        if charlie <= delta {
            (charlie, delta)
        } else {
            (delta, charlie)
        }
    }
}

impl ZugZug for (isize, isize) {
    type Output = usize;

    #[inline(always)]
    fn zugzug(self) -> (r: usize)
        ensures
            r as int == wrapped_pair_to_index(self.0 as int, self.1 as int, isize::MIN as int),
    {
        let first: u128 = self.0.zigzag() as u128;
        let second: u128 = self.1.zigzag() as u128;
        let (charlie, delta) = if first >= second {
            (first, second)
        } else {
            (second, first)
        };
        assert(0 <= charlie * (charlie + 1) <= 0xffffffffffffffff * (0xffffffffffffffff + 1)) by (nonlinear_arith)
            requires
                0 <= charlie <= 0xffffffffffffffff,
        ;
        let index: u128 = charlie * (charlie + 1) / 2 + delta;
        (index % (usize::MAX as u128 + 1)) as usize
    }
}

} // verus!

//! Element types of the arrays: fixed-width integers, widened for accumulation.
use vstd::prelude::*;

verus! {

/// An integer element type of at most 64 bits.
pub trait IntConv: Copy + Sized {
    /// The mathematical value of the element.
    spec fn value(&self) -> int;

    /// The smallest representable element, identity of a running maximum.
    spec fn spec_min() -> Self;

    /// The largest representable element, identity of a running minimum.
    spec fn spec_max() -> Self;

    /// Every element lies between the bounds, and within 64 bits.
    proof fn lemma_bounds(x: Self)
        ensures
            Self::spec_min().value() <= x.value() <= Self::spec_max().value(),
            -0x8000_0000_0000_0000 <= x.value() < 0x1_0000_0000_0000_0000,
    ;

    /// The smallest representable element.
    fn min_value() -> (r: Self)
        ensures
            r == Self::spec_min(),
    ;

    /// The largest representable element.
    fn max_value() -> (r: Self)
        ensures
            r == Self::spec_max(),
    ;

    /// The element in the widened accumulator type, whose range exceeds any 64-bit one.
    fn as_larger_int(&self) -> (r: i128)
        ensures
            r == self.value(),
    ;
}

impl IntConv for u8 {
    open spec fn value(&self) -> int {
        *self as int
    }

    open spec fn spec_min() -> u8 {
        0u8
    }

    open spec fn spec_max() -> u8 {
        255u8
    }

    proof fn lemma_bounds(x: u8) {
    }

    fn min_value() -> (r: u8) {
        u8::MIN
    }

    fn max_value() -> (r: u8) {
        u8::MAX
    }

    fn as_larger_int(&self) -> (r: i128) {
        *self as i128
    }
}

impl IntConv for i8 {
    open spec fn value(&self) -> int {
        *self as int
    }

    open spec fn spec_min() -> i8 {
        -128i8
    }

    open spec fn spec_max() -> i8 {
        127i8
    }

    proof fn lemma_bounds(x: i8) {
    }

    fn min_value() -> (r: i8) {
        i8::MIN
    }

    fn max_value() -> (r: i8) {
        i8::MAX
    }

    fn as_larger_int(&self) -> (r: i128) {
        *self as i128
    }
}

impl IntConv for u16 {
    open spec fn value(&self) -> int {
        *self as int
    }

    open spec fn spec_min() -> u16 {
        0u16
    }

    open spec fn spec_max() -> u16 {
        65535u16
    }

    proof fn lemma_bounds(x: u16) {
    }

    fn min_value() -> (r: u16) {
        u16::MIN
    }

    fn max_value() -> (r: u16) {
        u16::MAX
    }

    fn as_larger_int(&self) -> (r: i128) {
        *self as i128
    }
}

impl IntConv for i16 {
    open spec fn value(&self) -> int {
        *self as int
    }

    open spec fn spec_min() -> i16 {
        -32768i16
    }

    open spec fn spec_max() -> i16 {
        32767i16
    }

    proof fn lemma_bounds(x: i16) {
    }

    fn min_value() -> (r: i16) {
        i16::MIN
    }

    fn max_value() -> (r: i16) {
        i16::MAX
    }

    fn as_larger_int(&self) -> (r: i128) {
        *self as i128
    }
}

impl IntConv for u32 {
    open spec fn value(&self) -> int {
        *self as int
    }

    open spec fn spec_min() -> u32 {
        0u32
    }

    open spec fn spec_max() -> u32 {
        4294967295u32
    }

    proof fn lemma_bounds(x: u32) {
    }

    fn min_value() -> (r: u32) {
        u32::MIN
    }

    fn max_value() -> (r: u32) {
        u32::MAX
    }

    fn as_larger_int(&self) -> (r: i128) {
        *self as i128
    }
}

impl IntConv for i32 {
    open spec fn value(&self) -> int {
        *self as int
    }

    open spec fn spec_min() -> i32 {
        -2147483648i32
    }

    open spec fn spec_max() -> i32 {
        2147483647i32
    }

    proof fn lemma_bounds(x: i32) {
    }

    fn min_value() -> (r: i32) {
        i32::MIN
    }

    fn max_value() -> (r: i32) {
        i32::MAX
    }

    fn as_larger_int(&self) -> (r: i128) {
        *self as i128
    }
}

impl IntConv for u64 {
    open spec fn value(&self) -> int {
        *self as int
    }

    open spec fn spec_min() -> u64 {
        0u64
    }

    open spec fn spec_max() -> u64 {
        18446744073709551615u64
    }

    proof fn lemma_bounds(x: u64) {
    }

    fn min_value() -> (r: u64) {
        u64::MIN
    }

    fn max_value() -> (r: u64) {
        u64::MAX
    }

    fn as_larger_int(&self) -> (r: i128) {
        *self as i128
    }
}

impl IntConv for i64 {
    open spec fn value(&self) -> int {
        *self as int
    }

    open spec fn spec_min() -> i64 {
        -9223372036854775808i64
    }

    open spec fn spec_max() -> i64 {
        9223372036854775807i64
    }

    proof fn lemma_bounds(x: i64) {
    }

    fn min_value() -> (r: i64) {
        i64::MIN
    }

    fn max_value() -> (r: i64) {
        i64::MAX
    }

    fn as_larger_int(&self) -> (r: i128) {
        *self as i128
    }
}

/// Sum of the values of `s`.
pub open spec fn seq_sum<T: IntConv>(s: Seq<T>) -> int
    decreases s.len(),
{
    if s.len() == 0 {
        0
    } else {
        seq_sum(s.drop_last()) + s.last().value()
    }
}

/// Sum of the elements of `w`, accumulated in the widened type: exact for every window
/// that memory can hold.
pub fn widened_sum<T: IntConv>(w: &[T]) -> (r: i128)
    requires
        w@.len() <= i64::MAX,
    ensures
        r == seq_sum(w@),
{
    let mut acc: i128 = 0;
    let mut i: usize = 0;
    while i < w.len()
        invariant
            i <= w@.len(),
            w@.len() <= i64::MAX,
            acc == seq_sum(w@.subrange(0, i as int)),
            -(i * 0x8000_0000_0000_0000) <= acc <= i * 0x1_0000_0000_0000_0000,
        decreases w@.len() - i,
    {
        proof {
            T::lemma_bounds(w@[i as int]);
            assert(w@.subrange(0, i + 1).drop_last() =~= w@.subrange(0, i as int));
        }
        acc = acc + w[i].as_larger_int();
        i = i + 1;
    }
    proof {
        assert(w@.subrange(0, w@.len() as int) =~= w@);
    }
    acc
}

/// Integer mean of the values of `s`, rounded towards zero.
pub open spec fn trunc_mean<T: IntConv>(s: Seq<T>) -> int {
    let t = seq_sum(s);
    let n = s.len() as int;
    if t >= 0 {
        t / n
    } else {
        -((-t) / n)
    }
}

/// Sum of the squared differences between the values of `s` and `m`.
pub open spec fn square_deviation<T: IntConv>(s: Seq<T>, m: int) -> int
    decreases s.len(),
{
    if s.len() == 0 {
        0
    } else {
        square_deviation(s.drop_last(), m) + (s.last().value() - m) * (s.last().value() - m)
    }
}

/// Every value of `s` lies within `b` of zero.
pub open spec fn values_within<T: IntConv>(s: Seq<T>, b: int) -> bool {
    forall|i: int| 0 <= i < s.len() ==> -b <= #[trigger] s[i].value() <= b
}

/// A sum of values within `b` of zero lies within `len * b` of zero.
pub proof fn lemma_sum_within<T: IntConv>(s: Seq<T>, b: int)
    requires
        b >= 0,
        values_within(s, b),
    ensures
        -(s.len() * b) <= seq_sum(s) <= s.len() * b,
    decreases s.len(),
{
    if s.len() > 0 {
        let p = s.drop_last();
        assert forall|i: int| 0 <= i < p.len() implies -b <= #[trigger] p[i].value() <= b by {
            assert(p[i] == s[i]);
        }
        lemma_sum_within(p, b);
        let n = p.len() as int;
        assert(-b <= s[s.len() - 1].value() <= b);
        assert(n * b + b == (n + 1) * b) by (nonlinear_arith);
    }
}

/// The integer mean of a non-empty window and the sum of the squared differences from
/// it, all in integers; exact for windows of values within 32 bits.
pub fn integer_square_deviation<T: IntConv>(w: &[T]) -> (r: (i128, i128))
    requires
        1 <= w@.len() <= 0x1000_0000_0000_0000,
        values_within(w@, 0x1_0000_0000),
    ensures
        r.0 == trunc_mean(w@),
        r.1 == square_deviation(w@, r.0 as int),
{
    let ghost b: int = 0x1_0000_0000int;
    let ghost n = w@.len() as int;
    proof {
        lemma_sum_within(w@, b);
        assert(n * b <= 0x1000_0000_0000_0000 * b) by (nonlinear_arith)
            requires
                1 <= n <= 0x1000_0000_0000_0000,
                b > 0,
        ;
    }
    let total = widened_sum(w);
    let len = w.len() as i128;
    let mean: i128 = if total >= 0 {
        total / len
    } else {
        -((-total) / len)
    };
    proof {
        let t = total as int;
        if t >= 0 {
            assert(t / n <= b) by (nonlinear_arith)
                requires
                    0 <= t <= n * b,
                    n >= 1,
            ;
            assert(t / n >= 0) by (nonlinear_arith)
                requires
                    0 <= t,
                    n >= 1,
            ;
        } else {
            assert((-t) / n <= b) by (nonlinear_arith)
                requires
                    0 <= -t <= n * b,
                    n >= 1,
            ;
            assert((-t) / n >= 0) by (nonlinear_arith)
                requires
                    0 <= -t,
                    n >= 1,
            ;
        }
        assert(-b <= mean <= b);
    }
    let mut acc: i128 = 0;
    let mut i: usize = 0;
    while i < w.len()
        invariant
            i <= w@.len(),
            w@.len() <= 0x1000_0000_0000_0000,
            values_within(w@, b),
            b == 0x1_0000_0000,
            -b <= mean <= b,
            acc == square_deviation(w@.subrange(0, i as int), mean as int),
            0 <= acc <= i * 0x4_0000_0000_0000_0000,
        decreases w@.len() - i,
    {
        let x = w[i].as_larger_int();
        proof {
            assert(w@.subrange(0, i + 1).drop_last() =~= w@.subrange(0, i as int));
            assert(-b <= w@[i as int].value() <= b);
            let d = x - mean;
            assert(0 <= d * d <= 0x4_0000_0000_0000_0000) by (nonlinear_arith)
                requires
                    -2 * b <= d <= 2 * b,
                    b == 0x1_0000_0000,
            ;
        }
        let d = x - mean;
        acc = acc + d * d;
        i = i + 1;
    }
    proof {
        assert(w@.subrange(0, w@.len() as int) =~= w@);
    }
    (mean, acc)
}

} // verus!

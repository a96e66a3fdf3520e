//! How an array is cut into chunks for the workers: the choice of axis, the chunk
//! boundaries with their overlap, and the number of workers.
use vstd::prelude::*;
use crate::shape::{reduced_len, window_ok};
use crate::nd_array::{
    NdArray, models, slice_spec, concat_ok, concat_fits, concat_spec, concat_over_dim,
};

verus! {

/// Number of workers used when neither an override nor the platform gives one.
pub const DEFAULT_WORKERS: usize = 12;

/// Largest accepted worker-count override.
pub const MAX_WORKER_OVERRIDE: usize = 99;

/// The number of workers: the override where it lies in `1..=99`, else what the
/// platform reports where that is at least 1, else 12.
pub open spec fn worker_count_spec(override_count: Option<usize>, available: Option<usize>) -> usize {
    match override_count {
        Some(c) if 1 <= c <= MAX_WORKER_OVERRIDE => c,
        _ => match available {
            Some(p) if p >= 1 => p,
            _ => DEFAULT_WORKERS,
        },
    }
}

/// Resolve the number of workers from an optional override and the parallelism that
/// the platform reports, if it reports any. An override out of `1..=99` is ignored.
pub fn resolve_worker_count(override_count: Option<usize>, available: Option<usize>) -> (r: usize)
    ensures
        r == worker_count_spec(override_count, available),
        r >= 1,
{
    match override_count {
        Some(c) if 1 <= c && c <= MAX_WORKER_OVERRIDE => c,
        _ => match available {
            Some(p) if p >= 1 => p,
            _ => DEFAULT_WORKERS,
        },
    }
}

/// Axis of the largest length; the first one wins a tie.
pub open spec fn largest_axis(s: Seq<usize>) -> int
    decreases s.len(),
{
    if s.len() <= 1 {
        0
    } else {
        let p = largest_axis(s.drop_last());
        if s.last() > s[p] {
            s.len() - 1
        } else {
            p
        }
    }
}

/// `k * span / n` rounded to the nearest integer, halves rounded up.
pub open spec fn split_start(span: nat, n: nat, k: int) -> int {
    (2 * k * span + n) / (2 * (n as int))
}

/// End of chunk `k` of `n` along an axis of length `len` for a window of length `w`:
/// the start of the next chunk plus the window's reach, and the whole axis for the last.
pub open spec fn split_end(len: usize, w: usize, n: nat, k: int) -> int {
    if k + 1 == n {
        len as int
    } else {
        let e = split_start(reduced_len(len, w) as nat, n, k + 1) + w - 1;
        if e <= len {
            e
        } else {
            len as int
        }
    }
}

/// Boundaries of the chunks along the split axis, one pair `[start, end)` per worker.
pub struct ArraySplitter {
    /// The axis along which the array is cut.
    pub mod_dim: usize,
    /// `(start, end)` of each chunk, in worker order.
    pub mod_vec: Vec<(usize, usize)>,
}

/// Facts about the boundaries: they start at 0, never go back, cover the axis up to
/// its end, and where the window fits, consecutive chunks overlap by the window's
/// length less one.
pub proof fn lemma_split_bounds(len: usize, w: usize, n: nat)
    requires
        n >= 1,
        w >= 1,
    ensures
        split_start(reduced_len(len, w) as nat, n, 0) == 0,
        split_start(reduced_len(len, w) as nat, n, n as int) == reduced_len(
            len,
            w,
        ),
        forall|k: int|
            0 <= k < n ==> split_start(reduced_len(len, w) as nat, n, k)
                <= #[trigger] split_start(reduced_len(len, w) as nat, n, k + 1),
        forall|k: int|
            0 <= k <= n ==> 0 <= #[trigger] split_start(
                reduced_len(len, w) as nat,
                n,
                k,
            ) <= reduced_len(len, w),
        split_end(len, w, n, n - 1) == len,
        w <= len + 1 ==> forall|k: int|
            0 <= k < n ==> #[trigger] split_end(len, w, n, k) == split_start(
                reduced_len(len, w) as nat,
                n,
                k + 1,
            ) + w - 1,
        forall|k: int| 0 <= k < n ==> 0 <= #[trigger] split_end(len, w, n, k) <= len,
        forall|k: int|
            0 <= k < n ==> split_start(reduced_len(len, w) as nat, n, k)
                <= #[trigger] split_end(len, w, n, k),
{
    let span = reduced_len(len, w) as nat;
    let sp = span as int;
    let ni = n as int;
    let d = 2 * ni;
    assert(split_start(span, n, 0) == 0) by {
        assert(2 * 0 * sp + ni == ni);
        vstd::arithmetic::div_mod::lemma_fundamental_div_mod_converse(n as int, d, 0, n as int);
    }
    assert(split_start(span, n, n as int) == span) by {
        assert(2 * ni * sp + ni == sp * d + ni) by (nonlinear_arith)
            requires
                d == 2 * ni,
        ;
        vstd::arithmetic::div_mod::lemma_fundamental_div_mod_converse(2 * ni * sp + ni, d, sp, ni);
    }
    assert forall|k: int| 0 <= k < n implies split_start(span, n, k) <= #[trigger] split_start(
        span,
        n,
        k + 1,
    ) by {
        assert(2 * k * sp + ni <= 2 * (k + 1) * sp + ni) by (nonlinear_arith)
            requires
                k >= 0,
                sp >= 0,
        ;
        vstd::arithmetic::div_mod::lemma_div_is_ordered(2 * k * sp + ni, 2 * (k + 1) * sp + ni, d);
    }
    assert forall|k: int| 0 <= k <= n implies 0 <= #[trigger] split_start(span, n, k)
        <= span by {
        assert(0 <= 2 * k * sp + ni <= 2 * ni * sp + ni) by (nonlinear_arith)
            requires
                0 <= k <= ni,
                sp >= 0,
        ;
        vstd::arithmetic::div_mod::lemma_div_is_ordered(0, 2 * k * sp + ni, d);
        vstd::arithmetic::div_mod::lemma_div_is_ordered(2 * k * sp + ni, 2 * ni * sp + ni, d);
        vstd::arithmetic::div_mod::lemma_fundamental_div_mod_converse(0, d, 0, 0);
        assert(2 * ni * sp + ni == sp * d + ni) by (nonlinear_arith)
            requires
                d == 2 * ni,
        ;
        vstd::arithmetic::div_mod::lemma_fundamental_div_mod_converse(2 * ni * sp + ni, d, sp, ni);
    }
    assert forall|k: int| 0 <= k < n implies 0 <= #[trigger] split_end(len, w, n, k) <= len by {
        assert(0 <= split_start(span, n, k + 1));
    }
    assert forall|k: int| 0 <= k < n implies split_start(span, n, k) <= #[trigger] split_end(
        len,
        w,
        n,
        k,
    ) by {
        assert(split_start(span, n, k) <= split_start(span, n, k + 1));
        assert(split_start(span, n, k + 1) <= span);
        if w <= len + 1 {
            assert(span == len + 1 - w);
        } else {
            assert(span == 0);
        }
    }
    if w <= len + 1 {
        assert(span == len + 1 - w);
        assert forall|k: int| 0 <= k < n implies #[trigger] split_end(len, w, n, k) == split_start(
            span,
            n,
            k + 1,
        ) + w - 1 by {
            assert(split_start(span, n, k + 1) <= span);
        }
    }
}

/// The largest axis is an axis of the shape.
pub proof fn lemma_largest_axis_bound(s: Seq<usize>)
    requires
        s.len() >= 1,
    ensures
        0 <= largest_axis(s) < s.len(),
    decreases s.len(),
{
    if s.len() > 1 {
        lemma_largest_axis_bound(s.drop_last());
    }
}

/// The chunks that `new` plans, where the window fits along the split axis: the first
/// starts at 0, the last ends at the end of the axis, starts never go back, and each
/// chunk overlaps the next by exactly the window's length less one.
pub proof fn lemma_planned_overlap(sp: ArraySplitter, shape: Seq<usize>, win: Seq<usize>, workers: nat)
    requires
        sp.planned_for(shape, win, workers),
        workers >= 1,
        shape.len() >= 1,
        window_ok(win, shape.len()),
        win[sp.mod_dim as int] <= shape[sp.mod_dim as int] + 1,
    ensures
        sp.mod_vec@[0].0 == 0,
        sp.mod_vec@[workers - 1].1 == shape[sp.mod_dim as int],
        forall|k: int|
            0 <= k < workers - 1 ==> (#[trigger] sp.mod_vec@[k]).1 - sp.mod_vec@[k + 1].0 == win[sp.mod_dim as int] - 1,
        forall|k: int|
            0 <= k < workers - 1 ==> (#[trigger] sp.mod_vec@[k]).0 <= sp.mod_vec@[k + 1].0,
{
    let ax = sp.mod_dim as int;
    lemma_largest_axis_bound(shape);
    lemma_split_bounds(shape[ax], win[ax], workers);
    assert(sp.mod_vec@[0].0 == 0);
    assert(sp.mod_vec@[workers - 1].1 == shape[ax]);
    assert forall|k: int| 0 <= k < workers - 1 implies (#[trigger] sp.mod_vec@[k]).1 - sp.mod_vec@[k
        + 1].0 == win[ax] - 1 && sp.mod_vec@[k].0 <= sp.mod_vec@[k + 1].0 by {
        assert(sp.mod_vec@[k + 1].0 == split_start(reduced_len(shape[ax], win[ax]) as nat, workers, k + 1));
    }
}

/// `k * span / n` rounded to the nearest integer, halves rounded up, computed without
/// overflow.
fn rounded_share(span: usize, n: usize, k: usize) -> (r: usize)
    requires
        n >= 1,
        k <= n,
    ensures
        r == split_start(span as nat, n as nat, k as int),
{
    let q: usize = span / n;
    let rem: usize = span % n;
    let ghost s = span as int;
    let ghost ni = n as int;
    let ghost ki = k as int;
    proof {
        vstd::arithmetic::div_mod::lemma_fundamental_div_mod(s, ni);
        vstd::arithmetic::div_mod::lemma_mod_pos_bound(s, ni);
        assert(s == q * ni + rem) by (nonlinear_arith)
            requires
                s == ni * q + rem,
        ;
        assert(0 <= rem < ni);
        assert(ki * rem < 0x1_0000_0000_0000_0000_0000_0000_0000_0000) by (nonlinear_arith)
            requires
                0 <= ki < 0x1_0000_0000_0000_0000,
                0 <= rem < 0x1_0000_0000_0000_0000,
        ;
    }
    let x: u128 = (k as u128) * (rem as u128);
    let big_q: u128 = x / (n as u128);
    let big_r: u128 = x % (n as u128);
    proof {
        vstd::arithmetic::div_mod::lemma_fundamental_div_mod(x as int, ni);
        vstd::arithmetic::div_mod::lemma_mod_pos_bound(x as int, ni);
        assert(x == big_q * ni + big_r) by (nonlinear_arith)
            requires
                x == ni * big_q + big_r,
        ;
        assert(ki * q <= s) by (nonlinear_arith)
            requires
                0 <= ki <= ni,
                s == q * ni + rem,
                q >= 0,
                rem >= 0,
        ;
        assert(0 <= big_r < ni);
        assert(2 * ki * s + ni == 2 * ni * (ki * q + big_q) + 2 * big_r + ni) by (nonlinear_arith)
            requires
                s == q * ni + rem,
                x == ki * rem,
                x == big_q * ni + big_r,
        ;
        assert(big_q < ni) by (nonlinear_arith)
            requires
                x == big_q * ni + big_r,
                x == ki * rem,
                0 <= ki <= ni,
                0 <= rem < ni,
                big_r >= 0,
                big_q >= 0,
        ;
    }
    let base: u128 = (k as u128) * (q as u128) + big_q;
    let total: u128 = if big_r * 2 >= n as u128 {
        base + 1
    } else {
        base
    };
    proof {
        let d = 2 * ni;
        let b = base as int;
        assert(b == ki * q + big_q);
        assert(2 * ki * s + ni == b * d + 2 * big_r + ni) by (nonlinear_arith)
            requires
                2 * ki * s + ni == 2 * ni * (ki * q + big_q) + 2 * big_r + ni,
                b == ki * q + big_q,
                d == 2 * ni,
        ;
        assert(2 * ki * s + ni == (b + 1) * d + 2 * big_r - ni) by (nonlinear_arith)
            requires
                2 * ki * s + ni == b * d + 2 * big_r + ni,
                d == 2 * ni,
        ;
        if big_r * 2 >= ni {
            vstd::arithmetic::div_mod::lemma_fundamental_div_mod_converse(
                2 * ki * s + ni,
                d,
                total as int,
                2 * big_r - ni,
            );
        } else {
            vstd::arithmetic::div_mod::lemma_fundamental_div_mod_converse(
                2 * ki * s + ni,
                d,
                total as int,
                2 * big_r + ni,
            );
        }
        assert(2 * ki * s + ni <= 2 * ni * s + ni) by (nonlinear_arith)
            requires
                0 <= ki <= ni,
                s >= 0,
        ;
        vstd::arithmetic::div_mod::lemma_div_is_ordered(2 * ki * s + ni, 2 * ni * s + ni, d);
        assert(2 * ni * s + ni == s * d + ni) by (nonlinear_arith)
            requires
                d == 2 * ni,
        ;
        vstd::arithmetic::div_mod::lemma_fundamental_div_mod_converse(2 * ni * s + ni, d, s, ni);
    }
    total as usize
}

impl ArraySplitter {
    /// The splitter cuts along an axis of `shape`, and each chunk lies within it.
    pub open spec fn fits(&self, shape: Seq<usize>) -> bool {
        &&& self.mod_dim < shape.len()
        &&& forall|k: int|
            0 <= k < self.mod_vec@.len() ==> (#[trigger] self.mod_vec@[k]).0 <= self.mod_vec@[k].1
                <= shape[self.mod_dim as int]
    }

    /// The splitter that `new` builds for an array of shape `shape`, a window of shape
    /// `win` and `workers` workers.
    pub open spec fn planned_for(&self, shape: Seq<usize>, win: Seq<usize>, workers: nat) -> bool {
        let ax = largest_axis(shape);
        let len = shape[ax];
        let w = win[ax];
        &&& self.mod_dim == ax
        &&& self.mod_vec@.len() == workers
        &&& forall|k: int|
            0 <= k < workers ==> (#[trigger] self.mod_vec@[k]).0 == split_start(
                reduced_len(len, w) as nat,
                workers,
                k,
            ) && self.mod_vec@[k].1 == split_end(len, w, workers, k)
    }

    /// Plan the chunks of `arr` for `workers` workers and a window of shape `split_size`:
    /// cut along the largest axis, where `span` placements of the window along it are
    /// shared out, chunk `k` starting at `k * span / workers` rounded, and reaching
    /// the window's length less one past the next chunk's start (the last one to the
    /// end of the axis).
    pub fn new<T: Copy>(arr: &NdArray<T>, split_size: &Vec<usize>, workers: usize) -> (r: Self)
        requires
            arr.wf(),
            window_ok(split_size@, arr.shape@.len()),
            workers >= 1,
        ensures
            r.planned_for(arr.shape@, split_size@, workers as nat),
            r.fits(arr.shape@),
    {
        let rank = arr.shape.len();
        let mut best: usize = 0;
        let mut best_len: usize = arr.shape[0];
        let mut k: usize = 1;
        proof {
            assert(arr.shape@.subrange(0, 1).len() == 1);
        }
        while k < rank
            invariant
                1 <= k <= rank,
                rank == arr.shape@.len(),
                best < k,
                best_len == arr.shape@[best as int],
                best as int == largest_axis(arr.shape@.subrange(0, k as int)),
            decreases rank - k,
        {
            proof {
                let s1 = arr.shape@.subrange(0, k + 1);
                assert(s1.drop_last() =~= arr.shape@.subrange(0, k as int));
                assert(s1[best as int] == arr.shape@[best as int]);
            }
            if arr.shape[k] > best_len {
                best = k;
                best_len = arr.shape[k];
            }
            k = k + 1;
        }
        proof {
            assert(arr.shape@.subrange(0, rank as int) =~= arr.shape@);
        }
        let len = best_len;
        let w = split_size[best];
        let span = len.saturating_sub(w - 1);
        let ghost n = workers as nat;
        proof {
            lemma_split_bounds(len, w, n);
            assert(span == reduced_len(len, w));
        }
        let mut v: Vec<(usize, usize)> = Vec::new();
        let mut i: usize = 0;
        while i < workers
            invariant
                i <= workers,
                n == workers as nat,
                n >= 1,
                w >= 1,
                span == reduced_len(len, w),
                v@.len() == i,
                forall|j: int|
                    0 <= j <= n ==> 0 <= #[trigger] split_start(span as nat, n, j) <= span,
                forall|j: int| 0 <= j < n ==> 0 <= #[trigger] split_end(len, w, n, j) <= len,
                forall|j: int|
                    0 <= j < i ==> (#[trigger] v@[j]).0 == split_start(span as nat, n, j) && v@[j].1
                        == split_end(len, w, n, j),
            decreases workers - i,
        {
            let start = rounded_share(span, workers, i);
            let end = if i + 1 == workers {
                len
            } else {
                let next = rounded_share(span, workers, i + 1);
                if next + (w - 1) <= len {
                    next + (w - 1)
                } else {
                    len
                }
            };
            proof {
                assert(0 <= split_start(span as nat, n, i + 1) <= span);
            }
            v.push((start, end));
            i = i + 1;
        }
        proof {
            assert forall|j: int| 0 <= j < v@.len() implies (#[trigger] v@[j]).0 <= v@[j].1
                <= arr.shape@[best as int] by {
                assert(split_start(span as nat, n, j) <= split_end(len, w, n, j));
            }
        }
        ArraySplitter { mod_dim: best, mod_vec: v }
    }

    /// Owned copies of the chunks of `arr`, in worker order.
    pub fn split_array<T: Copy>(&self, arr: &NdArray<T>) -> (r: Vec<NdArray<T>>)
        requires
            arr.wf(),
            self.fits(arr.shape@),
        ensures
            r@.len() == self.mod_vec@.len(),
            forall|k: int|
                0 <= k < r@.len() ==> (#[trigger] r@[k]).wf() && r@[k]@ == slice_spec(
                    arr@,
                    self.mod_vec@[k].0 as int,
                    self.mod_vec@[k].1 as int,
                    self.mod_dim as int,
                ),
    {
        let mut r: Vec<NdArray<T>> = Vec::new();
        let mut k: usize = 0;
        while k < self.mod_vec.len()
            invariant
                arr.wf(),
                self.fits(arr.shape@),
                k <= self.mod_vec@.len(),
                r@.len() == k,
                forall|j: int|
                    0 <= j < k ==> (#[trigger] r@[j]).wf() && r@[j]@ == slice_spec(
                        arr@,
                        self.mod_vec@[j].0 as int,
                        self.mod_vec@[j].1 as int,
                        self.mod_dim as int,
                    ),
            decreases self.mod_vec@.len() - k,
        {
            let (a, b) = self.mod_vec[k];
            proof {
                assert(self.mod_vec@[k as int].0 <= self.mod_vec@[k as int].1);
            }
            r.push(arr.slice_array(a, b, self.mod_dim));
            k = k + 1;
        }
        r
    }

    /// Each chunk as `(start, end, axis)`, in worker order.
    pub fn slice_position_vec(&self) -> (r: Vec<(usize, usize, usize)>)
        ensures
            r@.len() == self.mod_vec@.len(),
            forall|k: int|
                0 <= k < r@.len() ==> #[trigger] r@[k] == (
                    self.mod_vec@[k].0,
                    self.mod_vec@[k].1,
                    self.mod_dim,
                ),
    {
        let mut r: Vec<(usize, usize, usize)> = Vec::new();
        let mut k: usize = 0;
        while k < self.mod_vec.len()
            invariant
                k <= self.mod_vec@.len(),
                r@.len() == k,
                forall|j: int|
                    0 <= j < k ==> #[trigger] r@[j] == (
                        self.mod_vec@[j].0,
                        self.mod_vec@[j].1,
                        self.mod_dim,
                    ),
            decreases self.mod_vec@.len() - k,
        {
            let (a, b) = self.mod_vec[k];
            r.push((a, b, self.mod_dim));
            k = k + 1;
        }
        r
    }

    /// Join the results of the chunks along the split axis, in the order given; `None`
    /// where they cannot be joined (see `concat_over_dim`).
    pub fn restack<T: Copy>(&self, data: Vec<NdArray<T>>) -> (r: Option<NdArray<T>>)
        ensures
            r is Some <==> (concat_ok(models(data@), self.mod_dim as int) && concat_fits(
                models(data@),
                self.mod_dim as int,
            )),
            r is Some ==> r->0.wf() && r->0@ == concat_spec(models(data@), self.mod_dim as int),
    {
        concat_over_dim(&data, self.mod_dim)
    }
}

} // verus!

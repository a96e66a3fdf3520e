//! Shapes of dense arrays in row-major order: element counts, the mapping between
//! multi-indices and flat positions, and the shape left over after a window slides.
use vstd::prelude::*;

verus! {

/// The largest rank the library handles.
pub const MAX_RANK: usize = 5;

/// Number of elements of an array of shape `s`: the product of its lengths.
pub open spec fn total(s: Seq<usize>) -> nat
    decreases s.len(),
{
    if s.len() == 0 {
        1
    } else {
        total(s.drop_last()) * (s.last() as nat)
    }
}

/// Row-major position of the multi-index `idx` in an array of shape `s`.
pub open spec fn flat(s: Seq<usize>, idx: Seq<int>) -> int
    decreases s.len(),
{
    if s.len() == 0 {
        0
    } else {
        flat(s.drop_last(), idx.drop_last()) * (s.last() as int) + idx.last()
    }
}

/// Multi-index of the row-major position `i` in an array of shape `s`
/// (the digits of `i` in the mixed radix given by `s`).
pub open spec fn digits(s: Seq<usize>, i: int) -> Seq<int>
    decreases s.len(),
{
    if s.len() == 0 {
        Seq::empty()
    } else {
        digits(s.drop_last(), i / (s.last() as int)).push(i % (s.last() as int))
    }
}

/// `idx` addresses an element of an array of shape `s`.
pub open spec fn valid_index(s: Seq<usize>, idx: Seq<int>) -> bool {
    &&& idx.len() == s.len()
    &&& forall|k: int| 0 <= k < s.len() ==> 0 <= #[trigger] idx[k] < s[k]
}

/// Componentwise sum of two multi-indices.
pub open spec fn add_index(a: Seq<int>, b: Seq<int>) -> Seq<int> {
    Seq::new(a.len(), |k: int| a[k] + b[k])
}

/// `idx` moved by `d` along `axis`.
pub open spec fn shift_index(idx: Seq<int>, axis: int, d: int) -> Seq<int> {
    idx.update(axis, idx[axis] + d)
}

/// Number of placements of a window of length `w` along an axis of length `n`:
/// `n - (w - 1)`, never below zero.
pub open spec fn reduced_len(n: usize, w: usize) -> usize {
    if w == 0 {
        n
    } else if n + 1 >= w {
        (n + 1 - w) as usize
    } else {
        0
    }
}

/// Shape of the result of sliding a window of shape `w` over an array of shape `s`.
pub open spec fn reduced(s: Seq<usize>, w: Seq<usize>) -> Seq<usize> {
    Seq::new(s.len(), |k: int| reduced_len(s[k], w[k]))
}

/// A window shape for arrays of rank `rank`: one length of at least one per axis.
pub open spec fn window_ok(w: Seq<usize>, rank: nat) -> bool {
    &&& w.len() == rank
    &&& forall|k: int| 0 <= k < w.len() ==> #[trigger] w[k] >= 1
}

/// Window shape for rank `rank` built from a raw list of lengths: missing entries are 1,
/// extra entries are ignored, and a length of 0 counts as 1.
pub open spec fn window_from_raw(raw: Seq<usize>, rank: nat) -> Seq<usize> {
    Seq::new(rank, |k: int| if k < raw.len() && raw[k] >= 1 { raw[k] } else { 1usize })
}

/// A multi-index has one entry per axis.
pub proof fn lemma_digits_len(s: Seq<usize>, i: int)
    ensures
        digits(s, i).len() == s.len(),
    decreases s.len(),
{
    if s.len() > 0 {
        lemma_digits_len(s.drop_last(), i / (s.last() as int));
    }
}

/// Every position below `total(s)` has a valid multi-index.
pub proof fn lemma_digits_valid(s: Seq<usize>, i: int)
    requires
        0 <= i < total(s),
    ensures
        valid_index(s, digits(s, i)),
    decreases s.len(),
{
    lemma_digits_len(s, i);
    if s.len() > 0 {
        let p = s.drop_last();
        let n = s.last() as int;
        let tp = total(p) as int;
        assert(tp * n == total(s));
        assert(n > 0) by (nonlinear_arith)
            requires
                0 <= i < tp * n,
                tp >= 0,
                n >= 0,
        ;
        let q = i / n;
        assert(0 <= q < tp) by (nonlinear_arith)
            requires
                0 <= i < tp * n,
                n > 0,
                q == i / n,
        ;
        assert(0 <= i % n < n) by (nonlinear_arith)
            requires
                n > 0,
                i >= 0,
        ;
        lemma_digits_valid(p, q);
        let d = digits(s, i);
        assert forall|k: int| 0 <= k < s.len() implies 0 <= #[trigger] d[k] < s[k] by {
            if k < s.len() - 1 {
                assert(d[k] == digits(p, q)[k]);
                assert(s[k] == p[k]);
            }
        }
    }
}

/// The position of a valid multi-index lies below `total(s)`.
pub proof fn lemma_flat_bound(s: Seq<usize>, idx: Seq<int>)
    requires
        valid_index(s, idx),
    ensures
        0 <= flat(s, idx) < total(s),
    decreases s.len(),
{
    if s.len() > 0 {
        let p = s.drop_last();
        let pi = idx.drop_last();
        assert(valid_index(p, pi)) by {
            assert forall|k: int| 0 <= k < p.len() implies 0 <= #[trigger] pi[k] < p[k] by {
                assert(pi[k] == idx[k]);
                assert(p[k] == s[k]);
            }
        }
        lemma_flat_bound(p, pi);
        let f = flat(p, pi);
        let tp = total(p) as int;
        let n = s.last() as int;
        let x = idx.last();
        assert(0 <= x < n) by {
            assert(idx[idx.len() - 1] < s[s.len() - 1]);
        }
        assert(0 <= f * n + x < tp * n) by (nonlinear_arith)
            requires
                0 <= f < tp,
                0 <= x < n,
        ;
    }
}

/// `flat` undoes `digits`.
pub proof fn lemma_flat_digits(s: Seq<usize>, i: int)
    requires
        0 <= i < total(s),
    ensures
        flat(s, digits(s, i)) == i,
    decreases s.len(),
{
    if s.len() > 0 {
        let p = s.drop_last();
        let n = s.last() as int;
        let tp = total(p) as int;
        assert(tp * n == total(s));
        assert(n > 0) by (nonlinear_arith)
            requires
                0 <= i < tp * n,
                tp >= 0,
                n >= 0,
        ;
        let q = i / n;
        assert(0 <= q < tp) by (nonlinear_arith)
            requires
                0 <= i < tp * n,
                n > 0,
                q == i / n,
        ;
        lemma_flat_digits(p, q);
        let d = digits(s, i);
        assert(d.drop_last() =~= digits(p, q));
        assert(q * n + i % n == i) by (nonlinear_arith)
            requires
                n > 0,
                q == i / n,
        ;
    }
}

/// `digits` undoes `flat` on valid multi-indices.
pub proof fn lemma_digits_flat(s: Seq<usize>, idx: Seq<int>)
    requires
        valid_index(s, idx),
    ensures
        digits(s, flat(s, idx)) == idx,
    decreases s.len(),
{
    if s.len() > 0 {
        let p = s.drop_last();
        let pi = idx.drop_last();
        assert(valid_index(p, pi)) by {
            assert forall|k: int| 0 <= k < p.len() implies 0 <= #[trigger] pi[k] < p[k] by {
                assert(pi[k] == idx[k]);
                assert(p[k] == s[k]);
            }
        }
        lemma_digits_flat(p, pi);
        let f = flat(p, pi);
        let n = s.last() as int;
        let x = idx.last();
        assert(0 <= x < n) by {
            assert(idx[idx.len() - 1] < s[s.len() - 1]);
        }
        vstd::arithmetic::div_mod::lemma_fundamental_div_mod_converse(f * n + x, n, f, x);
        assert(digits(s, flat(s, idx)) =~= idx);
    }
}

/// A shape that is no larger on any axis holds no more elements.
pub proof fn lemma_total_le(a: Seq<usize>, b: Seq<usize>)
    requires
        a.len() == b.len(),
        forall|k: int| 0 <= k < a.len() ==> #[trigger] a[k] <= b[k],
    ensures
        total(a) <= total(b),
    decreases a.len(),
{
    if a.len() > 0 {
        let pa = a.drop_last();
        let pb = b.drop_last();
        assert forall|k: int| 0 <= k < pa.len() implies #[trigger] pa[k] <= pb[k] by {
            assert(pa[k] == a[k]);
            assert(pb[k] == b[k]);
        }
        lemma_total_le(pa, pb);
        let x = total(pa) as int;
        let y = total(pb) as int;
        let u = a.last() as int;
        let v = b.last() as int;
        assert(a[a.len() - 1] <= b[b.len() - 1]);
        assert(x * u <= y * v) by (nonlinear_arith)
            requires
                0 <= x <= y,
                0 <= u <= v,
        ;
    }
}

/// With no zero length, a prefix of a shape holds no more elements than the whole.
pub proof fn lemma_total_prefix_le(s: Seq<usize>, k: int)
    requires
        0 <= k <= s.len(),
        forall|j: int| 0 <= j < s.len() ==> #[trigger] s[j] >= 1,
    ensures
        total(s.subrange(0, k)) <= total(s),
    decreases s.len(),
{
    if k < s.len() {
        let p = s.drop_last();
        assert forall|j: int| 0 <= j < p.len() implies #[trigger] p[j] >= 1 by {
            assert(p[j] == s[j]);
        }
        lemma_total_prefix_le(p, k);
        assert(p.subrange(0, k) =~= s.subrange(0, k));
        let x = total(p) as int;
        let n = s.last() as int;
        assert(s[s.len() - 1] >= 1);
        assert(x <= x * n) by (nonlinear_arith)
            requires
                x >= 0,
                n >= 1,
        ;
    } else {
        assert(s.subrange(0, k) =~= s);
    }
}

/// The reduced shape is no larger than the shape it comes from.
pub proof fn lemma_reduced_le(s: Seq<usize>, w: Seq<usize>)
    requires
        s.len() == w.len(),
    ensures
        total(reduced(s, w)) <= total(s),
{
    let r = reduced(s, w);
    assert forall|k: int| 0 <= k < r.len() implies #[trigger] r[k] <= s[k] by {}
    lemma_total_le(r, s);
}

/// Shape of rank `rank` built from `sh`: missing entries become 1, extra entries
/// are ignored, and a 0 entry is taken as 1.
pub fn from_slice(sh: &[usize], rank: usize) -> (r: Vec<usize>)
    requires
        1 <= rank <= MAX_RANK,
    ensures
        r@ == window_from_raw(sh@, rank as nat),
        window_ok(r@, rank as nat),
{
    let mut r: Vec<usize> = Vec::new();
    let mut k: usize = 0;
    while k < rank
        invariant
            k <= rank,
            r@ =~= window_from_raw(sh@, rank as nat).subrange(0, k as int),
        decreases rank - k,
    {
        if k < sh.len() && sh[k] >= 1 {
            r.push(sh[k]);
        } else {
            r.push(1);
        }
        k = k + 1;
    }
    r
}

/// Shape left after sliding a window of shape `win` over an array of shape `shape`:
/// on each axis `shape[k] - (win[k] - 1)`, saturating at 0.
pub fn size_sub_shape(shape: &Vec<usize>, win: &Vec<usize>) -> (r: Vec<usize>)
    requires
        shape.len() == win.len(),
    ensures
        r@ == reduced(shape@, win@),
{
    let mut r: Vec<usize> = Vec::new();
    let mut k: usize = 0;
    while k < shape.len()
        invariant
            k <= shape.len(),
            shape.len() == win.len(),
            r@ =~= reduced(shape@, win@).subrange(0, k as int),
        decreases shape.len() - k,
    {
        r.push(shape[k].saturating_sub(win[k].saturating_sub(1)));
        k = k + 1;
    }
    r
}

/// Number of elements of an array of shape `shape`, or `None` where that number does
/// not fit in a `usize`.
pub fn checked_total(shape: &Vec<usize>) -> (r: Option<usize>)
    ensures
        r == (if total(shape@) <= usize::MAX {
            Some(total(shape@) as usize)
        } else {
            None::<usize>
        }),
{
    let mut k: usize = 0;
    while k < shape.len()
        invariant
            k <= shape.len(),
            forall|j: int| 0 <= j < k ==> #[trigger] shape@[j] >= 1,
        decreases shape.len() - k,
    {
        if shape[k] == 0 {
            proof {
                lemma_total_zero(shape@, k as int);
            }
            return Some(0);
        }
        k = k + 1;
    }
    let mut acc: usize = 1;
    let mut k: usize = 0;
    while k < shape.len()
        invariant
            k <= shape.len(),
            forall|j: int| 0 <= j < shape.len() ==> #[trigger] shape@[j] >= 1,
            acc == total(shape@.subrange(0, k as int)),
        decreases shape.len() - k,
    {
        proof {
            assert(shape@.subrange(0, k + 1).drop_last() =~= shape@.subrange(0, k as int));
        }
        match acc.checked_mul(shape[k]) {
            Some(v) => {
                acc = v;
            },
            None => {
                proof {
                    lemma_total_prefix_le(shape@, k + 1);
                }
                return None;
            },
        }
        k = k + 1;
    }
    proof {
        assert(shape@.subrange(0, shape.len() as int) =~= shape@);
    }
    Some(acc)
}

/// A shape with a zero length holds no elements.
pub proof fn lemma_total_zero(s: Seq<usize>, k: int)
    requires
        0 <= k < s.len(),
        s[k] == 0,
    ensures
        total(s) == 0,
    decreases s.len(),
{
    if k < s.len() - 1 {
        let p = s.drop_last();
        assert(p[k] == 0);
        lemma_total_zero(p, k);
        let n = s.last() as nat;
        assert(total(p) * n == 0) by (nonlinear_arith)
            requires
                total(p) == 0,
        ;
    } else {
        assert(s.last() == 0);
        assert(total(s) == total(s.drop_last()) * 0);
    }
}

} // verus!

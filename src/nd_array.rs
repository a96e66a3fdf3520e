//! A dense array of rank 1 to 5 kept as a shape and its elements in row-major order,
//! with slicing along one axis and concatenation along one axis. The array is held as
//! plain values so that its contents can be stated and proved for every element type;
//! callers holding `ndarray` arrays copy them in and out.
use vstd::prelude::*;
use crate::shape::{
    MAX_RANK, total, flat, digits, valid_index, shift_index, lemma_digits_len,
    lemma_digits_valid, lemma_flat_bound, lemma_total_le, lemma_total_prefix_le, checked_total,
};

verus! {

/// The mathematical content of an array: its shape and its elements in row-major order.
pub struct ArrayModel<T> {
    pub shape: Seq<usize>,
    pub data: Seq<T>,
}

/// A model describes an array of supported rank whose element count matches its shape
/// and fits in memory.
pub open spec fn wf_model<T>(m: ArrayModel<T>) -> bool {
    &&& 1 <= m.shape.len() <= MAX_RANK
    &&& m.data.len() == total(m.shape)
    &&& total(m.shape) <= usize::MAX
}

/// Element of `m` at the multi-index `idx`.
pub open spec fn model_at<T>(m: ArrayModel<T>, idx: Seq<int>) -> T {
    m.data[flat(m.shape, idx)]
}

/// Widening of a sequence of machine integers to mathematical ones.
pub open spec fn ints(v: Seq<usize>) -> Seq<int> {
    v.map_values(|x: usize| x as int)
}

/// The part `[start, end)` of `a` along `axis`, with every other axis in full.
pub open spec fn slice_spec<T>(a: ArrayModel<T>, start: int, end: int, axis: int) -> ArrayModel<T> {
    let sh = a.shape.update(axis, (end - start) as usize);
    ArrayModel {
        shape: sh,
        data: Seq::new(
            total(sh),
            |i: int| model_at(a, shift_index(digits(sh, i), axis, start)),
        ),
    }
}

/// Sum of the lengths along `axis` of the first `p` parts.
pub open spec fn axis_offset<T>(parts: Seq<ArrayModel<T>>, axis: int, p: int) -> int
    decreases p,
{
    if p <= 0 {
        0
    } else {
        axis_offset(parts, axis, p - 1) + parts[p - 1].shape[axis]
    }
}

/// The part that holds position `t` along `axis`, searching from part `p` on.
pub open spec fn part_of<T>(parts: Seq<ArrayModel<T>>, axis: int, t: int, p: int) -> int
    decreases parts.len() - p,
{
    if p + 1 >= parts.len() {
        p
    } else if t < axis_offset(parts, axis, p + 1) {
        p
    } else {
        part_of(parts, axis, t, p + 1)
    }
}

/// The parts can be joined along `axis`: there is at least one, all are well formed,
/// and they agree on every length but the one along `axis`.
pub open spec fn concat_ok<T>(parts: Seq<ArrayModel<T>>, axis: int) -> bool {
    &&& parts.len() >= 1
    &&& 0 <= axis < parts[0].shape.len()
    &&& forall|p: int| 0 <= p < parts.len() ==> wf_model(#[trigger] parts[p])
    &&& forall|p: int, k: int|
        0 <= p < parts.len() && 0 <= k < parts[0].shape.len() && k != axis
            ==> #[trigger] parts[p].shape[k] == parts[0].shape[k]
    &&& forall|p: int| 0 <= p < parts.len() ==> (#[trigger] parts[p]).shape.len() == parts[0].shape.len()
}

/// Shape of the parts joined along `axis`.
pub open spec fn concat_shape<T>(parts: Seq<ArrayModel<T>>, axis: int) -> Seq<usize> {
    parts[0].shape.update(axis, axis_offset(parts, axis, parts.len() as int) as usize)
}

/// The joined array fits in memory.
pub open spec fn concat_fits<T>(parts: Seq<ArrayModel<T>>, axis: int) -> bool {
    &&& axis_offset(parts, axis, parts.len() as int) <= usize::MAX
    &&& total(concat_shape(parts, axis)) <= usize::MAX
}

/// The parts joined along `axis`, in their order.
pub open spec fn concat_spec<T>(parts: Seq<ArrayModel<T>>, axis: int) -> ArrayModel<T> {
    let sh = concat_shape(parts, axis);
    ArrayModel {
        shape: sh,
        data: Seq::new(
            total(sh),
            |i: int|
                {
                    let idx = digits(sh, i);
                    let p = part_of(parts, axis, idx[axis], 0);
                    model_at(parts[p], shift_index(idx, axis, -axis_offset(parts, axis, p)))
                },
        ),
    }
}

/// A dense array: its lengths per axis and its elements in row-major order.
pub struct NdArray<T> {
    pub shape: Vec<usize>,
    pub data: Vec<T>,
}

impl<T> View for NdArray<T> {
    type V = ArrayModel<T>;

    open spec fn view(&self) -> ArrayModel<T> {
        ArrayModel { shape: self.shape@, data: self.data@ }
    }
}

impl<T: Copy> NdArray<T> {
    /// The array has a supported rank and as many elements as its shape asks for.
    pub open spec fn wf(&self) -> bool {
        wf_model(self@)
    }

    /// Array of the given shape holding `data` in row-major order; `None` where the rank
    /// is not 1 to 5 or the number of elements does not match the shape.
    pub fn new(shape: Vec<usize>, data: Vec<T>) -> (r: Option<Self>)
        ensures
            r is Some <==> (1 <= shape@.len() <= MAX_RANK && data@.len() == total(shape@)),
            r is Some ==> r->0@ == (ArrayModel { shape: shape@, data: data@ }),
    {
        if shape.len() < 1 || shape.len() > MAX_RANK {
            return None;
        }
        let len = data.len();
        match checked_total(&shape) {
            Some(n) => {
                if n == len {
                    Some(NdArray { shape, data })
                } else {
                    None
                }
            },
            None => None,
        }
    }

    /// Number of axes.
    pub fn ndim(&self) -> (r: usize)
        ensures
            r == self.shape@.len(),
    {
        self.shape.len()
    }

    /// Length of the array along axis `d`.
    pub fn get_dimension_length(&self, d: usize) -> (r: usize)
        requires
            d < self.shape@.len(),
        ensures
            r == self.shape@[d as int],
    {
        self.shape[d]
    }

    /// The part `[start, end)` of the array along `axis`, copied out, every other axis
    /// in full.
    pub fn slice_array(&self, start: usize, end: usize, axis: usize) -> (r: NdArray<T>)
        requires
            self.wf(),
            axis < self.shape@.len(),
            start <= end <= self.shape@[axis as int],
        ensures
            r.wf(),
            r@ == slice_spec(self@, start as int, end as int, axis as int),
    {
        let len = self.data.len();
        let mut sh = self.shape.clone();
        sh.set(axis, end - start);
        let ghost want = slice_spec(self@, start as int, end as int, axis as int);
        proof {
            assert(sh@ == want.shape);
            assert forall|k: int| 0 <= k < sh@.len() implies #[trigger] sh@[k] <= self.shape@[k] by {}
            lemma_total_le(sh@, self.shape@);
        }
        let n = match checked_total(&sh) {
            Some(n) => n,
            None => 0,
        };
        let mut data: Vec<T> = Vec::new();
        let mut i: usize = 0;
        while i < n
            invariant
                self.wf(),
                len == self.data@.len(),
                axis < self.shape@.len(),
                start <= end <= self.shape@[axis as int],
                sh@ == want.shape,
                n == total(sh@),
                want == slice_spec(self@, start as int, end as int, axis as int),
                i <= n,
                data@.len() == i,
                forall|j: int| 0 <= j < i ==> data@[j] == #[trigger] want.data[j],
            decreases n - i,
        {
            let mut idx = unflat_index(&sh, i);
            proof {
                lemma_digits_valid(sh@, i as int);
                assert(ints(idx@)[axis as int] == idx@[axis as int] as int);
            }
            idx.set(axis, idx[axis] + start);
            let ghost src_idx = shift_index(digits(sh@, i as int), axis as int, start as int);
            proof {
                assert(ints(idx@) =~= src_idx);
                assert(valid_index(self.shape@, src_idx));
                lemma_flat_bound(self.shape@, src_idx);
            }
            let pos = flat_index(&self.shape, &idx);
            data.push(self.data[pos]);
            i = i + 1;
        }
        proof {
            assert(data@ =~= want.data);
        }
        NdArray { shape: sh, data }
    }
}

/// Models of a sequence of arrays.
pub open spec fn models<T>(v: Seq<NdArray<T>>) -> Seq<ArrayModel<T>> {
    v.map_values(|a: NdArray<T>| a@)
}

/// Offsets along an axis never decrease from one part to the next.
pub proof fn lemma_axis_offset_mono<T>(parts: Seq<ArrayModel<T>>, axis: int, p: int, q: int)
    requires
        0 <= p <= q,
    ensures
        axis_offset(parts, axis, p) <= axis_offset(parts, axis, q),
    decreases q,
{
    if p < q {
        lemma_axis_offset_mono(parts, axis, p, q - 1);
    }
}

/// `parts` joined along `axis`, in their order; `None` where they cannot be joined
/// (no part, an axis out of range, a malformed part, lengths that differ off `axis`)
/// or the result would not fit in memory.
pub fn concat_over_dim<T: Copy>(parts: &Vec<NdArray<T>>, axis: usize) -> (r: Option<NdArray<T>>)
    ensures
        r is Some <==> (concat_ok(models(parts@), axis as int) && concat_fits(
            models(parts@),
            axis as int,
        )),
        r is Some ==> r->0.wf() && r->0@ == concat_spec(models(parts@), axis as int),
{
    let ghost ms = models(parts@);
    let np = parts.len();
    if np == 0 {
        return None;
    }
    let rank = parts[0].shape.len();
    if axis >= rank || rank > MAX_RANK {
        proof {
            assert(ms[0] == parts@[0]@);
        }
        return None;
    }
    let mut sum: usize = 0;
    let mut p: usize = 0;
    while p < np
        invariant
            np == parts@.len(),
            np >= 1,
            ms == models(parts@),
            rank == parts@[0].shape@.len(),
            1 <= rank <= MAX_RANK,
            axis < rank,
            p <= np,
            sum == axis_offset(ms, axis as int, p as int),
            forall|q: int| 0 <= q < p ==> wf_model(#[trigger] ms[q]),
            forall|q: int| 0 <= q < p ==> (#[trigger] ms[q]).shape.len() == rank,
            forall|q: int, k: int|
                0 <= q < p && 0 <= k < rank && k != axis ==> #[trigger] ms[q].shape[k]
                    == ms[0].shape[k],
        decreases np - p,
    {
        let a = &parts[p];
        proof {
            assert(ms[p as int] == parts@[p as int]@);
            assert(ms[0] == parts@[0]@);
        }
        if a.shape.len() != rank {
            return None;
        }
        let len = a.data.len();
        match checked_total(&a.shape) {
            Some(n) => {
                if n != len {
                    return None;
                }
            },
            None => {
                return None;
            },
        }
        let mut k: usize = 0;
        while k < rank
            invariant
                k <= rank,
                parts@.len() >= 1,
                ms == models(parts@),
                p < parts@.len(),
                a@ == ms[p as int],
                ms[0] == parts@[0]@,
                rank == a.shape@.len(),
                rank == parts@[0].shape@.len(),
                forall|j: int| 0 <= j < k && j != axis ==> #[trigger] a.shape@[j] == parts@[0].shape@[j],
            decreases rank - k,
        {
            if k != axis && a.shape[k] != parts[0].shape[k] {
                return None;
            }
            k = k + 1;
        }
        match sum.checked_add(a.shape[axis]) {
            Some(v) => {
                sum = v;
            },
            None => {
                proof {
                    lemma_axis_offset_mono(ms, axis as int, p + 1, np as int);
                }
                return None;
            },
        }
        p = p + 1;
    }
    let mut sh = parts[0].shape.clone();
    sh.set(axis, sum);
    let ghost want = concat_spec(ms, axis as int);
    proof {
        assert(ms[0] == parts@[0]@);
        assert(sh@ =~= concat_shape(ms, axis as int));
    }
    let n = match checked_total(&sh) {
        Some(n) => n,
        None => {
            return None;
        },
    };
    let mut data: Vec<T> = Vec::new();
    let mut i: usize = 0;
    while i < n
        invariant
            np == parts@.len(),
            np >= 1,
            ms == models(parts@),
            concat_ok(ms, axis as int),
            concat_fits(ms, axis as int),
            sh@ == concat_shape(ms, axis as int),
            sum == axis_offset(ms, axis as int, np as int),
            want == concat_spec(ms, axis as int),
            n == total(sh@),
            i <= n,
            data@.len() == i,
            forall|j: int| 0 <= j < i ==> data@[j] == #[trigger] want.data[j],
        decreases n - i,
    {
        let mut idx = unflat_index(&sh, i);
        let ghost d = digits(sh@, i as int);
        proof {
            lemma_digits_valid(sh@, i as int);
            assert(ints(idx@)[axis as int] == idx@[axis as int] as int);
        }
        let t = idx[axis];
        proof {
            assert forall|q: int| 0 <= q < np implies #[trigger] ms[q] == parts@[q]@ by {}
            assert forall|q: int| 0 <= q <= np implies #[trigger] axis_offset(ms, axis as int, q)
                <= sum by {
                lemma_axis_offset_mono(ms, axis as int, q, np as int);
            }
        }
        let mut p: usize = 0;
        let mut off: usize = 0;
        while p + 1 < np && t >= off + parts[p].shape[axis]
            invariant
                np == parts@.len(),
                ms == models(parts@),
                concat_ok(ms, axis as int),
                forall|q: int| 0 <= q < np ==> #[trigger] ms[q] == parts@[q]@,
                forall|q: int| 0 <= q <= np ==> #[trigger] axis_offset(ms, axis as int, q) <= sum,
                p < np,
                off == axis_offset(ms, axis as int, p as int),
                off <= t,
                t < sum,
                sum == axis_offset(ms, axis as int, np as int),
                part_of(ms, axis as int, t as int, 0) == part_of(ms, axis as int, t as int, p as int),
            decreases np - p,
        {
            proof {
                assert(ms[p as int] == parts@[p as int]@);
                lemma_axis_offset_mono(ms, axis as int, p + 1, np as int);
            }
            off = off + parts[p].shape[axis];
            p = p + 1;
        }
        let ghost pp = p as int;
        proof {
            assert(ms[pp] == parts@[pp]@);
            lemma_axis_offset_mono(ms, axis as int, pp + 1, np as int);
            assert(part_of(ms, axis as int, t as int, pp) == pp);
            assert(t < off + parts@[pp].shape@[axis as int]);
        }
        idx.set(axis, t - off);
        let ghost src_idx = shift_index(d, axis as int, -(off as int));
        proof {
            assert(ints(idx@) =~= src_idx);
            assert forall|k: int| 0 <= k < sh@.len() implies 0 <= #[trigger] src_idx[k]
                < ms[pp].shape[k] by {
                if k != axis {
                    assert(ms[pp].shape[k] == ms[0].shape[k]);
                }
            }
            assert(valid_index(ms[pp].shape, src_idx));
            assert(wf_model(ms[pp]));
        }
        let pos = flat_index(&parts[p].shape, &idx);
        proof {
            lemma_flat_bound(ms[pp].shape, src_idx);
        }
        data.push(parts[p].data[pos]);
        i = i + 1;
    }
    proof {
        assert(data@ =~= want.data);
    }
    Some(NdArray { shape: sh, data })
}

/// Multi-index of row-major position `i` in an array of shape `shape`.
pub fn unflat_index(shape: &Vec<usize>, i: usize) -> (r: Vec<usize>)
    requires
        i < total(shape@),
    ensures
        ints(r@) == digits(shape@, i as int),
{
    let n = shape.len();
    let mut r: Vec<usize> = Vec::new();
    let mut k: usize = 0;
    while k < n
        invariant
            k <= n,
            n == shape@.len(),
            r@.len() == k,
        decreases n - k,
    {
        r.push(0);
        k = k + 1;
    }
    let ghost want = digits(shape@, i as int);
    proof {
        lemma_digits_len(shape@, i as int);
        assert(shape@.subrange(0, n as int) =~= shape@);
    }
    let mut rem: usize = i;
    let mut k: usize = n;
    while k > 0
        invariant
            k <= n,
            n == shape@.len(),
            r@.len() == n,
            want == digits(shape@, i as int),
            want.len() == n,
            rem < total(shape@.subrange(0, k as int)),
            digits(shape@.subrange(0, k as int), rem as int) == want.subrange(0, k as int),
            forall|j: int| k <= j < n ==> r@[j] as int == #[trigger] want[j],
        decreases k,
    {
        let ghost pre = shape@.subrange(0, k as int);
        let ghost pre1 = shape@.subrange(0, k - 1);
        proof {
            assert(pre.drop_last() =~= pre1);
            assert(pre.last() == shape@[k - 1]);
            let tp = total(pre1) as int;
            let m = shape@[k - 1] as int;
            assert(total(pre) == tp * m);
            let x = rem as int;
            assert(m > 0) by (nonlinear_arith)
                requires
                    0 <= x < tp * m,
                    tp >= 0,
                    m >= 0,
            ;
            assert(0 <= x / m < tp) by (nonlinear_arith)
                requires
                    0 <= x < tp * m,
                    m > 0,
            ;
            let d = digits(pre, rem as int);
            assert(d == digits(pre1, rem as int / m).push(rem as int % m));
            assert(want.subrange(0, k - 1) =~= d.drop_last());
            assert(want[k - 1] == d[k - 1]);
        }
        let m = shape[k - 1];
        r.set(k - 1, rem % m);
        rem = rem / m;
        k = k - 1;
    }
    proof {
        assert(ints(r@) =~= want);
    }
    r
}

/// Row-major position of the valid multi-index `idx` in an array of shape `shape`.
pub fn flat_index(shape: &Vec<usize>, idx: &Vec<usize>) -> (r: usize)
    requires
        valid_index(shape@, ints(idx@)),
        total(shape@) <= usize::MAX,
    ensures
        r == flat(shape@, ints(idx@)),
{
    let ghost full = ints(idx@);
    let n = shape.len();
    proof {
        assert forall|j: int| 0 <= j < shape@.len() implies #[trigger] shape@[j] >= 1 by {
            assert(full[j] < shape@[j]);
        }
    }
    let mut acc: usize = 0;
    let mut k: usize = 0;
    while k < n
        invariant
            k <= n,
            n == shape@.len(),
            idx@.len() == n,
            full == ints(idx@),
            valid_index(shape@, full),
            total(shape@) <= usize::MAX,
            forall|j: int| 0 <= j < shape@.len() ==> #[trigger] shape@[j] >= 1,
            acc == flat(shape@.subrange(0, k as int), full.subrange(0, k as int)),
        decreases n - k,
    {
        let ghost s1 = shape@.subrange(0, k + 1);
        let ghost i1 = full.subrange(0, k + 1);
        proof {
            assert(s1.drop_last() =~= shape@.subrange(0, k as int));
            assert(i1.drop_last() =~= full.subrange(0, k as int));
            assert(valid_index(s1, i1));
            lemma_flat_bound(s1, i1);
            lemma_total_prefix_le(shape@, k + 1);
            assert(i1.last() == idx@[k as int] as int);
        }
        acc = acc * shape[k] + idx[k];
        k = k + 1;
    }
    proof {
        assert(shape@.subrange(0, n as int) =~= shape@);
        assert(full.subrange(0, n as int) =~= full);
    }
    acc
}

} // verus!

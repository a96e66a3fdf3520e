//! The window engine: a reduction applied at every placement of a window, and the
//! law that lets the work be split into chunks and joined back without any change.
use vstd::prelude::*;
use crate::shape::{
    total, flat, digits, valid_index, add_index, shift_index, reduced, reduced_len, window_ok,
    lemma_digits_valid, lemma_digits_flat, lemma_flat_bound, lemma_reduced_le, lemma_total_le,
    lemma_total_zero, size_sub_shape, checked_total,
};
use crate::nd_array::{
    ArrayModel, NdArray, model_at, ints, unflat_index, flat_index, wf_model, slice_spec,
    axis_offset, part_of, concat_ok, concat_fits, concat_spec, concat_shape,
};
use crate::array_shape_traits::{
    ArraySplitter, split_start, split_end, lemma_split_bounds, largest_axis, lemma_largest_axis_bound,
};
use crate::nd_array::models;
use crate::window_functions::{is_reduction, reduction_of, lemma_reduction_result};

verus! {

/// Elements of `a` under the window of shape `w` anchored at `pos`, in row-major order
/// of their offsets in the window.
pub open spec fn window_elems<T>(a: ArrayModel<T>, w: Seq<usize>, pos: Seq<int>) -> Seq<T> {
    Seq::new(total(w), |j: int| model_at(a, add_index(pos, digits(w, j))))
}

/// The result of applying `f` at every placement of a window of shape `w` over `a`:
/// an array of the reduced shape whose element at each position is `f` of the window
/// anchored there.
pub open spec fn apply_spec<T>(a: ArrayModel<T>, w: Seq<usize>, f: spec_fn(Seq<T>) -> T) -> ArrayModel<T> {
    let sh = reduced(a.shape, w);
    ArrayModel {
        shape: sh,
        data: Seq::new(total(sh), |i: int| f(window_elems(a, w, digits(sh, i)))),
    }
}

/// Copy of the elements under the window of shape `win` anchored at `pos`.
fn gather_window<T: Copy>(arr: &NdArray<T>, win: &Vec<usize>, pos: &Vec<usize>, m: usize) -> (r:
    Vec<T>)
    requires
        arr.wf(),
        window_ok(win@, arr.shape@.len()),
        valid_index(reduced(arr.shape@, win@), ints(pos@)),
        m == total(win@),
    ensures
        r@ == window_elems(arr@, win@, ints(pos@)),
{
    let rank = arr.shape.len();
    let len = arr.data.len();
    let ghost want = window_elems(arr@, win@, ints(pos@));
    let mut r: Vec<T> = Vec::new();
    let mut j: usize = 0;
    while j < m
        invariant
            arr.wf(),
            len == arr.data@.len(),
            rank == arr.shape@.len(),
            window_ok(win@, rank as nat),
            valid_index(reduced(arr.shape@, win@), ints(pos@)),
            m == total(win@),
            want == window_elems(arr@, win@, ints(pos@)),
            j <= m,
            r@.len() == j,
            forall|q: int| 0 <= q < j ==> r@[q] == #[trigger] want[q],
        decreases m - j,
    {
        let off = unflat_index(win, j);
        let ghost d = digits(win@, j as int);
        proof {
            lemma_digits_valid(win@, j as int);
        }
        let mut idx: Vec<usize> = Vec::new();
        let mut k: usize = 0;
        while k < rank
            invariant
                k <= rank,
                rank == arr.shape@.len(),
                window_ok(win@, rank as nat),
                valid_index(reduced(arr.shape@, win@), ints(pos@)),
                valid_index(win@, d),
                ints(off@) == d,
                idx@.len() == k,
                forall|q: int| 0 <= q < k ==> (#[trigger] idx@[q]) as int == ints(pos@)[q] + d[q],
                forall|q: int| 0 <= q < k ==> (#[trigger] idx@[q]) < arr.shape@[q],
            decreases rank - k,
        {
            proof {
                assert(ints(pos@)[k as int] == pos@[k as int] as int);
                assert(ints(off@)[k as int] == off@[k as int] as int);
                assert(reduced(arr.shape@, win@)[k as int] > ints(pos@)[k as int]);
                assert(win@[k as int] > d[k as int]);
            }
            idx.push(pos[k] + off[k]);
            k = k + 1;
        }
        let ghost at = add_index(ints(pos@), d);
        proof {
            assert(ints(idx@) =~= at);
            assert(valid_index(arr.shape@, at));
            lemma_flat_bound(arr.shape@, at);
        }
        let p = flat_index(&arr.shape, &idx);
        r.push(arr.data[p]);
        j = j + 1;
    }
    proof {
        assert(r@ =~= want);
    }
    r
}

/// Apply `func` at every placement of a window of shape `win` over `arr`.
///
/// The result has, on each axis, `arr`'s length minus `win`'s length less one (never
/// below zero), and at each position the reduction of the window anchored there.
pub fn apply_over_any_window<T: Copy, F: Fn(&[T]) -> T>(
    arr: &NdArray<T>,
    win: &Vec<usize>,
    func: &F,
) -> (r: NdArray<T>)
    requires
        arr.wf(),
        window_ok(win@, arr.shape@.len()),
        is_reduction(*func),
    ensures
        r.wf(),
        r.shape@ == reduced(arr.shape@, win@),
        r@ == apply_spec(arr@, win@, reduction_of(*func)),
{
    let red = size_sub_shape(&arr.shape, win);
    proof {
        lemma_reduced_le(arr.shape@, win@);
    }
    let n = match checked_total(&red) {
        Some(n) => n,
        None => 0,
    };
    let m = match checked_total(win) {
        Some(m) => m,
        None => 0,
    };
    if n > 0 {
        proof {
            assert forall|k: int| 0 <= k < win@.len() implies #[trigger] win@[k]
                <= arr.shape@[k] by {
                if win@[k] > arr.shape@[k] {
                    lemma_total_zero(red@, k);
                }
            }
            lemma_total_le(win@, arr.shape@);
        }
    }
    let ghost want = apply_spec(arr@, win@, reduction_of(*func));
    let mut data: Vec<T> = Vec::new();
    let mut i: usize = 0;
    while i < n
        invariant
            arr.wf(),
            window_ok(win@, arr.shape@.len()),
            is_reduction(*func),
            red@ == reduced(arr.shape@, win@),
            n == total(red@),
            n > 0 ==> m == total(win@),
            want == apply_spec(arr@, win@, reduction_of(*func)),
            i <= n,
            data@.len() == i,
            forall|q: int| 0 <= q < i ==> data@[q] == #[trigger] want.data[q],
        decreases n - i,
    {
        let pos = unflat_index(&red, i);
        proof {
            lemma_digits_valid(red@, i as int);
        }
        let w = gather_window(arr, win, &pos, m);
        let ws = w.as_slice();
        let y = func(ws);
        proof {
            lemma_reduction_result(*func, ws, y);
        }
        data.push(y);
        i = i + 1;
    }
    proof {
        assert(data@ =~= want.data);
    }
    NdArray { shape: red, data }
}

/// Apply `func` as the parallel engine does, one chunk after another: plan the chunks
/// for `workers` workers, cut them, apply `func` to each, and join the results in
/// order. The result is that of `apply_over_any_window` on the whole array.
pub fn split_apply_over_any_window<T: Copy, F: Fn(&[T]) -> T>(
    arr: &NdArray<T>,
    win: &Vec<usize>,
    func: &F,
    workers: usize,
) -> (r: NdArray<T>)
    requires
        arr.wf(),
        window_ok(win@, arr.shape@.len()),
        is_reduction(*func),
        workers >= 1,
    ensures
        r.wf(),
        r@ == apply_spec(arr@, win@, reduction_of(*func)),
{
    let splitter = ArraySplitter::new(arr, win, workers);
    let chunks = splitter.split_array(arr);
    let ghost ax = splitter.mod_dim as int;
    let ghost n = workers as nat;
    let ghost f = reduction_of(*func);
    let ghost want = chunk_results(arr@, win@, f, n, ax);
    let mut results: Vec<NdArray<T>> = Vec::new();
    let mut k: usize = 0;
    while k < chunks.len()
        invariant
            arr.wf(),
            window_ok(win@, arr.shape@.len()),
            is_reduction(*func),
            f == reduction_of(*func),
            splitter.planned_for(arr.shape@, win@, n),
            splitter.fits(arr.shape@),
            ax == splitter.mod_dim,
            want == chunk_results(arr@, win@, f, n, ax),
            chunks@.len() == n,
            forall|j: int|
                0 <= j < chunks@.len() ==> (#[trigger] chunks@[j]).wf() && chunks@[j]@
                    == slice_spec(
                    arr@,
                    splitter.mod_vec@[j].0 as int,
                    splitter.mod_vec@[j].1 as int,
                    ax,
                ),
            k <= chunks@.len(),
            results@.len() == k,
            forall|j: int| 0 <= j < k ==> (#[trigger] results@[j])@ == want[j],
        decreases chunks@.len() - k,
    {
        proof {
            assert(splitter.mod_vec@[k as int].0 == split_start(
                reduced_len(arr.shape@[ax], win@[ax]) as nat,
                n,
                k as int,
            ));
            assert(chunks@[k as int]@ == chunk_spec(arr@, win@, n, ax, k as int));
            assert(chunks@[k as int].shape@.len() == arr.shape@.len());
        }
        results.push(apply_over_any_window(&chunks[k], win, func));
        k = k + 1;
    }
    proof {
        assert(models(results@) =~= want);
        lemma_chunked_apply_matches(arr@, win@, f, n, ax);
    }
    match splitter.restack(results) {
        Some(r) => r,
        None => {
            proof {
                assert(false);
            }
            NdArray { shape: Vec::new(), data: Vec::new() }
        },
    }
}

/// Chunk `k` of `n` of `a` cut along `axis` for a window of shape `w`.
pub open spec fn chunk_spec<T>(a: ArrayModel<T>, w: Seq<usize>, n: nat, axis: int, k: int) -> ArrayModel<T> {
    let len = a.shape[axis];
    let wl = w[axis];
    slice_spec(
        a,
        split_start(reduced_len(len, wl) as nat, n, k),
        split_end(len, wl, n, k),
        axis,
    )
}

/// The results of applying `f` to each of the `n` chunks of `a` along `axis`, in order.
pub open spec fn chunk_results<T>(
    a: ArrayModel<T>,
    w: Seq<usize>,
    f: spec_fn(Seq<T>) -> T,
    n: nat,
    axis: int,
) -> Seq<ArrayModel<T>> {
    Seq::new(n, |k: int| apply_spec(chunk_spec(a, w, n, axis, k), w, f))
}

/// The search for the part holding `t` ends at a part whose range along the axis holds it.
pub proof fn lemma_part_of_bounds<T>(parts: Seq<ArrayModel<T>>, axis: int, t: int, p: int)
    requires
        0 <= p < parts.len(),
        axis_offset(parts, axis, p) <= t < axis_offset(parts, axis, parts.len() as int),
    ensures
        p <= part_of(parts, axis, t, p) < parts.len(),
        axis_offset(parts, axis, part_of(parts, axis, t, p)) <= t < axis_offset(
            parts,
            axis,
            part_of(parts, axis, t, p) + 1,
        ),
    decreases parts.len() - p,
{
    if p + 1 < parts.len() && t >= axis_offset(parts, axis, p + 1) {
        lemma_part_of_bounds(parts, axis, t, p + 1);
    }
}

/// Along the split axis, chunk `k`'s result is as long as the gap between the starts of
/// chunk `k` and chunk `k + 1`, and it matches the whole result on every other axis.
proof fn lemma_chunk_result_shape<T>(
    a: ArrayModel<T>,
    w: Seq<usize>,
    f: spec_fn(Seq<T>) -> T,
    n: nat,
    axis: int,
    k: int,
)
    requires
        wf_model(a),
        window_ok(w, a.shape.len()),
        n >= 1,
        0 <= axis < a.shape.len(),
        0 <= k < n,
    ensures
        apply_spec(chunk_spec(a, w, n, axis, k), w, f).shape == reduced(a.shape, w).update(
            axis,
            (split_start(reduced_len(a.shape[axis], w[axis]) as nat, n, k + 1) - split_start(
                reduced_len(a.shape[axis], w[axis]) as nat,
                n,
                k,
            )) as usize,
        ),
        wf_model(apply_spec(chunk_spec(a, w, n, axis, k), w, f)),
{
    let len = a.shape[axis];
    let wl = w[axis];
    let span = reduced_len(len, wl) as nat;
    lemma_split_bounds(len, wl, n);
    let st0 = split_start(span, n, k);
    let st1 = split_start(span, n, k + 1);
    let en = split_end(len, wl, n, k);
    assert(st0 <= st1);
    assert(st0 <= en <= len);
    let c = chunk_spec(a, w, n, axis, k);
    let res = apply_spec(c, w, f);
    assert(wl >= 1);
    if wl <= len + 1 {
        assert(en == st1 + wl - 1);
        assert(reduced_len((en - st0) as usize, wl) == st1 - st0);
    } else {
        assert(span == 0);
        assert(st1 <= 0);
        assert(en == len);
        assert(reduced_len((en - st0) as usize, wl) == 0);
    }
    assert(res.shape =~= reduced(a.shape, w).update(axis, (st1 - st0) as usize));
    assert forall|j: int| 0 <= j < res.shape.len() implies #[trigger] res.shape[j] <= a.shape[j] by {}
    lemma_total_le(res.shape, a.shape);
}

/// Where each chunk's result begins along the split axis: at the chunk's own start.
proof fn lemma_chunk_offsets<T>(
    a: ArrayModel<T>,
    w: Seq<usize>,
    f: spec_fn(Seq<T>) -> T,
    n: nat,
    axis: int,
    k: int,
)
    requires
        wf_model(a),
        window_ok(w, a.shape.len()),
        n >= 1,
        0 <= axis < a.shape.len(),
        0 <= k <= n,
    ensures
        axis_offset(chunk_results(a, w, f, n, axis), axis, k) == split_start(
            reduced_len(a.shape[axis], w[axis]) as nat,
            n,
            k,
        ),
    decreases k,
{
    let span = reduced_len(a.shape[axis], w[axis]) as nat;
    lemma_split_bounds(a.shape[axis], w[axis], n);
    if k > 0 {
        lemma_chunk_offsets(a, w, f, n, axis, k - 1);
        lemma_chunk_result_shape(a, w, f, n, axis, k - 1);
        let parts = chunk_results(a, w, f, n, axis);
        assert(parts[k - 1] == apply_spec(chunk_spec(a, w, n, axis, k - 1), w, f));
        assert(split_start(span, n, k - 1) <= split_start(span, n, k));
    }
}

/// One element of the joined chunk results equals the element of the whole result.
proof fn lemma_chunk_element<T>(
    a: ArrayModel<T>,
    w: Seq<usize>,
    f: spec_fn(Seq<T>) -> T,
    n: nat,
    axis: int,
    i: int,
)
    requires
        wf_model(a),
        window_ok(w, a.shape.len()),
        n >= 1,
        0 <= axis < a.shape.len(),
        0 <= i < total(reduced(a.shape, w)),
        concat_shape(chunk_results(a, w, f, n, axis), axis) == reduced(a.shape, w),
        forall|k: int|
            0 <= k <= n ==> #[trigger] axis_offset(chunk_results(a, w, f, n, axis), axis, k)
                == split_start(reduced_len(a.shape[axis], w[axis]) as nat, n, k),
    ensures
        concat_spec(chunk_results(a, w, f, n, axis), axis).data[i] == apply_spec(a, w, f).data[i],
{
    let len = a.shape[axis];
    let wl = w[axis];
    let span = reduced_len(len, wl) as nat;
    let parts = chunk_results(a, w, f, n, axis);
    let r = reduced(a.shape, w);
    lemma_split_bounds(len, wl, n);
    lemma_digits_valid(r, i);
    let idx = digits(r, i);
    let t = idx[axis];
    assert(axis_offset(parts, axis, 0) == 0);
    assert(axis_offset(parts, axis, n as int) == span);
    lemma_part_of_bounds(parts, axis, t, 0);
    let p = part_of(parts, axis, t, 0);
    let st0 = split_start(span, n, p);
    let st1 = split_start(span, n, p + 1);
    assert(axis_offset(parts, axis, p) == st0);
    assert(axis_offset(parts, axis, p + 1) == st1);
    assert(st0 <= t < st1);
    // a window fits along the axis, since some placement exists there
    assert(r[axis] == span);
    assert(wl <= len + 1);
    let c = chunk_spec(a, w, n, axis, p);
    let res = apply_spec(c, w, f);
    assert(parts[p] == res);
    lemma_chunk_result_shape(a, w, f, n, axis, p);
    let rs = res.shape;
    let idx2 = shift_index(idx, axis, -st0);
    assert(valid_index(rs, idx2)) by {
        assert forall|j: int| 0 <= j < rs.len() implies 0 <= #[trigger] idx2[j] < rs[j] by {
            if j != axis {
                assert(idx2[j] == idx[j]);
            }
        }
    }
    let i2 = flat(rs, idx2);
    lemma_flat_bound(rs, idx2);
    lemma_digits_flat(rs, idx2);
    assert(concat_spec(parts, axis).data[i] == res.data[i2]);
    assert(res.data[i2] == f(window_elems(c, w, idx2)));
    assert(apply_spec(a, w, f).data[i] == f(window_elems(a, w, idx)));
    let en = split_end(len, wl, n, p);
    assert(en == st1 + wl - 1);
    let cs = c.shape;
    assert(cs == a.shape.update(axis, (en - st0) as usize));
    assert forall|j: int| 0 <= j < total(w) implies #[trigger] window_elems(c, w, idx2)[j]
        == window_elems(a, w, idx)[j] by {
        lemma_digits_valid(w, j);
        let dj = digits(w, j);
        let at2 = add_index(idx2, dj);
        let at = add_index(idx, dj);
        assert(valid_index(cs, at2)) by {
            assert forall|q: int| 0 <= q < cs.len() implies 0 <= #[trigger] at2[q] < cs[q] by {
                assert(at2[q] == idx2[q] + dj[q]);
                assert(idx[q] < r[q]);
                assert(dj[q] < w[q]);
                if q != axis {
                    assert(idx2[q] == idx[q]);
                }
            }
        }
        let m = flat(cs, at2);
        lemma_flat_bound(cs, at2);
        lemma_digits_flat(cs, at2);
        assert(c.data[m] == model_at(a, shift_index(at2, axis, st0)));
        assert(shift_index(at2, axis, st0) =~= at);
    }
    assert(window_elems(c, w, idx2) =~= window_elems(a, w, idx));
}

/// Cutting `a` into `n` chunks along an axis with the splitter's boundaries, applying
/// `f` to each chunk and joining the results in order gives exactly the result of
/// applying `f` to the whole of `a`, whatever the number of chunks.
pub proof fn lemma_chunked_apply_matches<T>(
    a: ArrayModel<T>,
    w: Seq<usize>,
    f: spec_fn(Seq<T>) -> T,
    n: nat,
    axis: int,
)
    requires
        wf_model(a),
        window_ok(w, a.shape.len()),
        n >= 1,
        0 <= axis < a.shape.len(),
    ensures
        concat_ok(chunk_results(a, w, f, n, axis), axis),
        concat_fits(chunk_results(a, w, f, n, axis), axis),
        concat_spec(chunk_results(a, w, f, n, axis), axis) == apply_spec(a, w, f),
{
    let len = a.shape[axis];
    let wl = w[axis];
    let span = reduced_len(len, wl) as nat;
    let parts = chunk_results(a, w, f, n, axis);
    let r = reduced(a.shape, w);
    let whole = apply_spec(a, w, f);
    lemma_split_bounds(len, wl, n);
    assert forall|k: int| 0 <= k < n implies wf_model(#[trigger] parts[k]) && parts[k].shape
        == r.update(axis, (split_start(span, n, k + 1) - split_start(span, n, k)) as usize) by {
        lemma_chunk_result_shape(a, w, f, n, axis, k);
    }
    assert forall|k: int| 0 <= k <= n implies #[trigger] axis_offset(parts, axis, k)
        == split_start(span, n, k) by {
        lemma_chunk_offsets(a, w, f, n, axis, k);
    }
    assert(parts[0].shape.len() == a.shape.len());
    assert(concat_ok(parts, axis));
    assert(concat_shape(parts, axis) =~= r);
    lemma_reduced_le(a.shape, w);
    let joined = concat_spec(parts, axis);
    assert forall|i: int| 0 <= i < total(r) implies #[trigger] joined.data[i] == whole.data[i] by {
        lemma_chunk_element(a, w, f, n, axis, i);
    }
    assert(joined.data =~= whole.data);
}

/// The parallel engine gives the sequential result: cutting `a` along its largest axis
/// into as many chunks as there are workers, with the splitter's boundaries, applying
/// `f` to each chunk and joining the results in order gives exactly `f` applied over
/// the whole of `a`, for every number of workers.
pub proof fn lemma_parallel_matches_sequential<T>(
    a: ArrayModel<T>,
    w: Seq<usize>,
    f: spec_fn(Seq<T>) -> T,
    workers: nat,
)
    requires
        wf_model(a),
        window_ok(w, a.shape.len()),
        workers >= 1,
    ensures
        concat_spec(chunk_results(a, w, f, workers, largest_axis(a.shape)), largest_axis(a.shape))
            == apply_spec(a, w, f),
{
    lemma_largest_axis_bound(a.shape);
    lemma_chunked_apply_matches(a, w, f, workers, largest_axis(a.shape));
}

} // verus!

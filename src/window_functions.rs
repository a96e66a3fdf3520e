//! Reductions applied to each window, and the registry that names them by number.
use vstd::prelude::*;
use crate::integer_conversion_traits::IntConv;

verus! {

/// `f` reduces any window, and windows with the same elements in the same order
/// always give the same result: it is a function of the window's contents.
pub open spec fn is_reduction<T, F: Fn(&[T]) -> T>(f: F) -> bool {
    &&& forall|s: &[T]| #[trigger] f.requires((s,))
    &&& forall|s1: &[T], s2: &[T], r1: T, r2: T|
        s1@ == s2@ && #[trigger] f.ensures((s1,), r1) && #[trigger] f.ensures((s2,), r2) ==> r1
            == r2
}

/// `f` can return `r` on a window holding `w`.
pub open spec fn reduces_to<T, F: Fn(&[T]) -> T>(f: F, w: Seq<T>, r: T) -> bool {
    exists|s: &[T]| s@ == w && #[trigger] f.ensures((s,), r)
}

/// The function of the window's contents that the reduction `f` computes.
pub open spec fn reduction_of<T, F: Fn(&[T]) -> T>(f: F) -> spec_fn(Seq<T>) -> T {
    |w: Seq<T>| choose|r: T| #[trigger] reduces_to(f, w, r)
}

/// What a reduction returned on a window is its value on the window's contents.
pub proof fn lemma_reduction_result<T, F: Fn(&[T]) -> T>(f: F, s: &[T], r: T)
    requires
        is_reduction(f),
        f.ensures((s,), r),
    ensures
        reduction_of(f)(s@) == r,
{
    let w = s@;
    assert(reduces_to(f, w, r));
    let r2 = choose|r2: T| #[trigger] reduces_to(f, w, r2);
    assert(reduces_to(f, w, r2));
    let s2 = choose|s2: &[T]| s2@ == w && #[trigger] f.ensures((s2,), r2);
    assert(f.ensures((s2,), r2));
}

/// Running maximum of `s`, starting from the smallest element; a later element wins a tie.
pub open spec fn seq_max<T: IntConv>(s: Seq<T>) -> T
    decreases s.len(),
{
    if s.len() == 0 {
        T::spec_min()
    } else {
        let m = seq_max(s.drop_last());
        if s.last().value() >= m.value() {
            s.last()
        } else {
            m
        }
    }
}

/// Running minimum of `s`, starting from the largest element; a later element wins a tie.
pub open spec fn seq_min<T: IntConv>(s: Seq<T>) -> T
    decreases s.len(),
{
    if s.len() == 0 {
        T::spec_max()
    } else {
        let m = seq_min(s.drop_last());
        if s.last().value() <= m.value() {
            s.last()
        } else {
            m
        }
    }
}

/// The maximum of a window is one of its elements and no element exceeds it.
pub proof fn lemma_window_max_is_max<T: IntConv>(s: Seq<T>)
    ensures
        forall|i: int| 0 <= i < s.len() ==> (#[trigger] s[i]).value() <= seq_max(s).value(),
        s.len() > 0 ==> exists|i: int| 0 <= i < s.len() && s[i] == seq_max(s),
    decreases s.len(),
{
    if s.len() > 0 {
        let p = s.drop_last();
        lemma_window_max_is_max(p);
        assert forall|i: int| 0 <= i < s.len() implies (#[trigger] s[i]).value() <= seq_max(
            s,
        ).value() by {
            if i < s.len() - 1 {
                assert(s[i] == p[i]);
            }
        }
        if s.last().value() >= seq_max(p).value() {
            assert(s[s.len() - 1] == seq_max(s));
        } else {
            T::lemma_bounds(s.last());
            let i = choose|i: int| 0 <= i < p.len() && p[i] == seq_max(p);
            assert(s[i] == seq_max(s));
        }
    }
}

/// The minimum of a window is one of its elements and no element is below it.
pub proof fn lemma_window_min_is_min<T: IntConv>(s: Seq<T>)
    ensures
        forall|i: int| 0 <= i < s.len() ==> seq_min(s).value() <= (#[trigger] s[i]).value(),
        s.len() > 0 ==> exists|i: int| 0 <= i < s.len() && s[i] == seq_min(s),
    decreases s.len(),
{
    if s.len() > 0 {
        let p = s.drop_last();
        lemma_window_min_is_min(p);
        assert forall|i: int| 0 <= i < s.len() implies seq_min(s).value() <= (
        #[trigger] s[i]).value() by {
            if i < s.len() - 1 {
                assert(s[i] == p[i]);
            }
        }
        if s.last().value() <= seq_min(p).value() {
            assert(s[s.len() - 1] == seq_min(s));
        } else {
            T::lemma_bounds(s.last());
            let i = choose|i: int| 0 <= i < p.len() && p[i] == seq_min(p);
            assert(s[i] == seq_min(s));
        }
    }
}

/// Largest element of the window; the smallest representable element for an empty one.
pub fn func_window_max<T: IntConv>(w: &[T]) -> (r: T)
    ensures
        r == seq_max(w@),
{
    let mut acc = T::min_value();
    let mut i: usize = 0;
    while i < w.len()
        invariant
            i <= w@.len(),
            acc == seq_max(w@.subrange(0, i as int)),
        decreases w@.len() - i,
    {
        proof {
            assert(w@.subrange(0, i + 1).drop_last() =~= w@.subrange(0, i as int));
        }
        if w[i].as_larger_int() >= acc.as_larger_int() {
            acc = w[i];
        }
        i = i + 1;
    }
    proof {
        assert(w@.subrange(0, w@.len() as int) =~= w@);
    }
    acc
}

/// Smallest element of the window; the largest representable element for an empty one.
pub fn func_window_min<T: IntConv>(w: &[T]) -> (r: T)
    ensures
        r == seq_min(w@),
{
    let mut acc = T::max_value();
    let mut i: usize = 0;
    while i < w.len()
        invariant
            i <= w@.len(),
            acc == seq_min(w@.subrange(0, i as int)),
        decreases w@.len() - i,
    {
        proof {
            assert(w@.subrange(0, i + 1).drop_last() =~= w@.subrange(0, i as int));
        }
        if w[i].as_larger_int() <= acc.as_larger_int() {
            acc = w[i];
        }
        i = i + 1;
    }
    proof {
        assert(w@.subrange(0, w@.len() as int) =~= w@);
    }
    acc
}

/// The window maximum is a reduction: a function of the window's contents.
pub proof fn lemma_window_max_is_reduction<T: IntConv>()
    ensures
        is_reduction(func_window_max::<T>),
{
}

/// The window minimum is a reduction: a function of the window's contents.
pub proof fn lemma_window_min_is_reduction<T: IntConv>()
    ensures
        is_reduction(func_window_min::<T>),
{
}

/// The reductions known to the registry, each with a number from 0 on.
#[derive(Clone, Copy, Debug, PartialEq, Eq, Structural)]
pub enum WindowFunction {
    WindowMax,
    WindowMin,
    StdevDdof0,
    StdevDdof1,
    AreaContrast,
    FastStd,
    FastStdClamp,
    FastPopulationStd,
    FastSampleStd,
}

/// Number of reductions in the registry; their numbers are `0` to one less than this.
pub const FUNCTION_COUNT: usize = 9;

/// The reduction with number `i`, if there is one.
pub open spec fn function_for_id(i: usize) -> Option<WindowFunction> {
    if i == 0 {
        Some(WindowFunction::WindowMax)
    } else if i == 1 {
        Some(WindowFunction::WindowMin)
    } else if i == 2 {
        Some(WindowFunction::StdevDdof0)
    } else if i == 3 {
        Some(WindowFunction::StdevDdof1)
    } else if i == 4 {
        Some(WindowFunction::AreaContrast)
    } else if i == 5 {
        Some(WindowFunction::FastStd)
    } else if i == 6 {
        Some(WindowFunction::FastStdClamp)
    } else if i == 7 {
        Some(WindowFunction::FastPopulationStd)
    } else if i == 8 {
        Some(WindowFunction::FastSampleStd)
    } else {
        None
    }
}

/// The numbers in use run from 0 without a gap, so a listing can stop at the first
/// unknown one.
pub proof fn lemma_ids_contiguous(i: usize)
    ensures
        function_for_id(i) is Some <==> i < FUNCTION_COUNT,
{
}

impl WindowFunction {
    /// Registered name of the reduction.
    pub open spec fn spec_name(&self) -> Seq<char> {
        match self {
            WindowFunction::WindowMax => "func_window_max"@,
            WindowFunction::WindowMin => "func_window_min"@,
            WindowFunction::StdevDdof0 => "func_stdev_ddof_0"@,
            WindowFunction::StdevDdof1 => "func_stdev_ddof_1"@,
            WindowFunction::AreaContrast => "func_area_contrast"@,
            WindowFunction::FastStd => "func_fast_std"@,
            WindowFunction::FastStdClamp => "func_fast_std_clamp"@,
            WindowFunction::FastPopulationStd => "func_fast_population_std"@,
            WindowFunction::FastSampleStd => "func_fast_sample_std"@,
        }
    }

    /// Registered description of the reduction.
    pub open spec fn spec_description(&self) -> Seq<char> {
        match self {
            WindowFunction::WindowMax => "return the maximum value of the window"@,
            WindowFunction::WindowMin => "return the minimum value of the window"@,
            WindowFunction::StdevDdof0 => "apply rust ndarray::std(ddof:0) over the window (uses float64 values) then round to input dtype"@,
            WindowFunction::StdevDdof1 => "apply rust ndarray::std(ddof:1) over the window (uses float64 values) then round to input dtype"@,
            WindowFunction::AreaContrast => "TODO:Create Description"@,
            WindowFunction::FastStd => "similar to standard deviation, trades precision for speed, uses integer addition for first stage the n float 64 for second stage before returning as input dtype"@,
            WindowFunction::FastStdClamp => "run func_fast_std then double before converting back into input type"@,
            WindowFunction::FastPopulationStd => "TODO:Create Description"@,
            WindowFunction::FastSampleStd => "TODO:Create Description"@,
        }
    }

    /// Registered name of the reduction.
    pub fn name(&self) -> (r: &'static str)
        ensures
            r@ == self.spec_name(),
    {
        match self {
            WindowFunction::WindowMax => "func_window_max",
            WindowFunction::WindowMin => "func_window_min",
            WindowFunction::StdevDdof0 => "func_stdev_ddof_0",
            WindowFunction::StdevDdof1 => "func_stdev_ddof_1",
            WindowFunction::AreaContrast => "func_area_contrast",
            WindowFunction::FastStd => "func_fast_std",
            WindowFunction::FastStdClamp => "func_fast_std_clamp",
            WindowFunction::FastPopulationStd => "func_fast_population_std",
            WindowFunction::FastSampleStd => "func_fast_sample_std",
        }
    }

    /// Registered description of the reduction.
    pub fn description(&self) -> (r: &'static str)
        ensures
            r@ == self.spec_description(),
    {
        match self {
            WindowFunction::WindowMax => "return the maximum value of the window",
            WindowFunction::WindowMin => "return the minimum value of the window",
            WindowFunction::StdevDdof0 => "apply rust ndarray::std(ddof:0) over the window (uses float64 values) then round to input dtype",
            WindowFunction::StdevDdof1 => "apply rust ndarray::std(ddof:1) over the window (uses float64 values) then round to input dtype",
            WindowFunction::AreaContrast => "TODO:Create Description",
            WindowFunction::FastStd => "similar to standard deviation, trades precision for speed, uses integer addition for first stage the n float 64 for second stage before returning as input dtype",
            WindowFunction::FastStdClamp => "run func_fast_std then double before converting back into input type",
            WindowFunction::FastPopulationStd => "TODO:Create Description",
            WindowFunction::FastSampleStd => "TODO:Create Description",
        }
    }
}

/// The reduction with number `i`; an error for a number that is not in use.
pub fn get_func(i: usize) -> (r: Result<WindowFunction, &'static str>)
    ensures
        match function_for_id(i) {
            Some(f) => r == Ok::<WindowFunction, &'static str>(f),
            None => r is Err && r->Err_0@ == "No Function Found for Value"@,
        },
{
    match i {
        0 => Ok(WindowFunction::WindowMax),
        1 => Ok(WindowFunction::WindowMin),
        2 => Ok(WindowFunction::StdevDdof0),
        3 => Ok(WindowFunction::StdevDdof1),
        4 => Ok(WindowFunction::AreaContrast),
        5 => Ok(WindowFunction::FastStd),
        6 => Ok(WindowFunction::FastStdClamp),
        7 => Ok(WindowFunction::FastPopulationStd),
        8 => Ok(WindowFunction::FastSampleStd),
        _ => Err("No Function Found for Value"),
    }
}

/// Name of the reduction with number `i`; an error for a number that is not in use.
pub fn get_func_name(i: usize) -> (r: Result<&'static str, &'static str>)
    ensures
        match function_for_id(i) {
            Some(f) => r is Ok && r->Ok_0@ == f.spec_name(),
            None => r is Err && r->Err_0@ == "No Function Found for Value"@,
        },
{
    match get_func(i) {
        Ok(f) => Ok(f.name()),
        Err(e) => Err(e),
    }
}

/// Description of the reduction with number `i`; an error for a number that is not in use.
pub fn get_func_description(i: usize) -> (r: Result<&'static str, &'static str>)
    ensures
        match function_for_id(i) {
            Some(f) => r is Ok && r->Ok_0@ == f.spec_description(),
            None => r is Err && r->Err_0@ == "No Function Found for Value"@,
        },
{
    match get_func(i) {
        Ok(f) => Ok(f.description()),
        Err(e) => Err(e),
    }
}

} // verus!

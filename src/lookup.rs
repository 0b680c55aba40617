use crate::interpolate::{interp, interpolate_segment};
use vstd::prelude::*;

verus! {

/// How many calibration points a table can hold.
pub const LUT_CAPACITY: usize = 16;

#[verifier::external_type_specification]
#[verifier::external_body]
#[verifier::reject_recursive_types(T)]
pub struct ExHeaplessVec<T, const N: usize>(heapless::Vec<T, N>);

/// A calibration table: (frequency in hertz, fraction in parts per million)
/// points, meant to be sorted by strictly increasing frequency.
pub type Lut = heapless::Vec<(u32, i32), LUT_CAPACITY>;

/// The points that a table holds, in order.
pub uninterp spec fn lut_points(v: Lut) -> Seq<(u32, i32)>;

/// Relies on heapless::Vec::as_slice: it hands out the stored points, in order.
#[verifier::external_body]
fn lut_as_slice(v: &Lut) -> (r: &[(u32, i32)])
    ensures
        r@ == lut_points(*v),
{
    v.as_slice()
}

/// Frequencies strictly increasing along the table.
pub open spec fn is_sorted(pts: Seq<(u32, i32)>) -> bool {
    forall|i: int, j: int| 0 <= i < j < pts.len() ==> pts[i].0 < pts[j].0
}

/// `k` is the first point whose frequency is not below `freq`.
pub open spec fn is_bracket(pts: Seq<(u32, i32)>, freq: int, k: int) -> bool {
    &&& 0 <= k < pts.len()
    &&& freq <= pts[k].0
    &&& forall|j: int| 0 <= j < k ==> pts[j].0 < freq
}

/// The upper end of the segment that holds `freq`.
pub open spec fn bracket(pts: Seq<(u32, i32)>, freq: int) -> int {
    choose|k: int| is_bracket(pts, freq, k)
}

/// The lower end of the segment whose upper end is point `k`: the point
/// before it, or the origin `(0, 0)` for the first point.
pub open spec fn lower_end(pts: Seq<(u32, i32)>, k: int) -> (int, int) {
    if k == 0 {
        (0, 0)
    } else {
        (pts[k - 1].0 as int, pts[k - 1].1 as int)
    }
}

/// The percentage that a table gives for `freq`: the first point's fraction
/// below the first frequency, the last point's above the last frequency,
/// and in between the interpolation over the segment that holds `freq`,
/// each times one hundred.
pub open spec fn lookup_value(pts: Seq<(u32, i32)>, freq: int) -> int
    recommends
        pts.len() > 0,
{
    if freq < pts[0].0 {
        100 * pts[0].1
    } else if freq > pts.last().0 {
        100 * pts.last().1
    } else {
        let k = bracket(pts, freq);
        let lo = lower_end(pts, k);
        100 * interp(lo.0, lo.1, pts[k].0 as int, pts[k].1 as int, freq)
    }
}

/// At most one point is the first one not below a frequency.
proof fn lemma_bracket_unique(pts: Seq<(u32, i32)>, freq: int, k: int)
    requires
        is_bracket(pts, freq, k),
    ensures
        bracket(pts, freq) == k,
{
    let c = bracket(pts, freq);
    assert(is_bracket(pts, freq, c));
    if c < k {
        assert(pts[c].0 < freq);
    } else if k < c {
        assert(pts[k].0 < freq);
    }
}

/// Converts a sensor frequency into a percentage through the table `lut`:
/// clamped to the first and last points' fractions outside the table's
/// frequencies, interpolated on the segment that holds it otherwise.
pub fn moisture_from_freq(freq: u32, lut: &Lut) -> (r: i64)
    requires
        lut_points(*lut).len() >= 1,
    ensures
        r as int == lookup_value(lut_points(*lut), freq as int),
{
    let pts = lut_as_slice(lut);
    let n: usize = pts.len();
    if freq < pts[0].0 {
        return pts[0].1 as i64 * 100;
    }
    if freq > pts[n - 1].0 {
        return pts[n - 1].1 as i64 * 100;
    }
    let mut x0: u32 = 0;
    let mut y0: i32 = 0;
    let mut i: usize = 0;
    while i < n && freq > pts[i].0
        invariant
            pts@ == lut_points(*lut),
            n == pts@.len(),
            0 <= i <= n,
            freq <= pts@[n - 1].0,
            forall|j: int| 0 <= j < i ==> pts@[j].0 < freq,
            (x0 as int, y0 as int) == lower_end(pts@, i as int),
        decreases n - i,
    {
        x0 = pts[i].0;
        y0 = pts[i].1;
        i = i + 1;
    }
    assert(i < n);
    let x1: u32 = pts[i].0;
    let y1: i32 = pts[i].1;
    proof {
        lemma_bracket_unique(pts@, freq as int, i as int);
    }
    let moisture: i32 = interpolate_segment(x0, y0, x1, y1, freq);
    moisture as i64 * 100
}

/// In range, the lookup is the interpolation over the segment that holds
/// the frequency, scaled by one hundred.
pub proof fn lemma_scale(pts: Seq<(u32, i32)>, freq: int, k: int)
    requires
        pts.len() > 0,
        pts[0].0 <= freq <= pts.last().0,
        is_bracket(pts, freq, k),
    ensures
        lookup_value(pts, freq) == 100 * interp(
            lower_end(pts, k).0,
            lower_end(pts, k).1,
            pts[k].0 as int,
            pts[k].1 as int,
            freq,
        ),
{
    lemma_bracket_unique(pts, freq, k);
}

/// At the first frequency of a sorted table the search gives what the
/// left clamp would: the first fraction times one hundred. It needs the
/// first frequency above zero, since the search starts from the origin.
pub proof fn lemma_boundary_agreement_first(pts: Seq<(u32, i32)>)
    requires
        pts.len() > 0,
        is_sorted(pts),
        pts[0].0 > 0,
    ensures
        lookup_value(pts, pts[0].0 as int) == 100 * pts[0].1,
{
    if pts.len() > 1 {
        assert(pts[0].0 < pts.last().0);
    }
    lemma_bracket_unique(pts, pts[0].0 as int, 0);
}

/// At the last frequency of a sorted table the search gives what the
/// right clamp would: the last fraction times one hundred. A table of one
/// point needs its frequency above zero, as for the first frequency.
pub proof fn lemma_boundary_agreement_last(pts: Seq<(u32, i32)>)
    requires
        pts.len() > 0,
        is_sorted(pts),
        pts.len() > 1 || pts[0].0 > 0,
    ensures
        lookup_value(pts, pts.last().0 as int) == 100 * pts.last().1,
{
    let n = pts.len() as int;
    let f = pts.last().0 as int;
    assert forall|j: int| 0 <= j < n - 1 implies pts[j].0 < f by {
        assert(pts[j].0 < pts[n - 1].0);
    }
    assert(is_bracket(pts, f, n - 1));
    lemma_bracket_unique(pts, f, n - 1);
}

} // verus!

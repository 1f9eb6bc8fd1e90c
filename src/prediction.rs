use crate::corner_table::{lemma_face_in_range, next_corner, prev_corner, CornerTable};
use crate::error::DecodeError;
use vstd::prelude::*;

verus! {

/// Two's-complement wrap of `x` into `i32`, for `x` within three times the `i32` range.
pub open spec fn wrap_i32(x: int) -> int {
    if x > i32::MAX {
        x - 0x1_0000_0000
    } else if x < i32::MIN {
        x + 0x1_0000_0000
    } else {
        x
    }
}

pub open spec fn in_wrap_range(x: int) -> bool {
    -0x1_8000_0000 <= x < 0x1_8000_0000
}

fn wrap_to_i32(x: i64) -> (r: i32)
    requires
        in_wrap_range(x as int),
    ensures
        r == wrap_i32(x as int),
{
    if x > i32::MAX as i64 {
        (x - 0x1_0000_0000) as i32
    } else if x < i32::MIN as i64 {
        (x + 0x1_0000_0000) as i32
    } else {
        x as i32
    }
}

/// Reconstructs a value from its prediction and residual, wrapping as `i32`.
pub fn reconstruct(prediction: i32, residual: i32) -> (r: i32)
    ensures
        r == wrap_i32(prediction + residual),
{
    wrap_to_i32(prediction as i64 + residual as i64)
}

/// The parallelogram rule `a + b - c`, wrapping as `i32`.
pub fn parallelogram_predict(a: i32, b: i32, c: i32) -> (r: i32)
    ensures
        r == wrap_i32(a + b - c),
{
    wrap_to_i32(a as i64 + b as i64 - c as i64)
}

/// The residual that delta coding stores for `value` after `prev`.
pub fn delta_residual(prev: i32, value: i32) -> (r: i32)
    ensures
        r == wrap_i32(value - prev),
{
    wrap_to_i32(value as i64 - prev as i64)
}

/// Delta coding loses nothing: the residual stored for `value` after `prev`, added back
/// to `prev`, gives `value`; and a residual `r` decodes to exactly `p + r` when that fits.
pub proof fn lemma_delta_round_trip(p: i32, value: i32, r: i32)
    ensures
        wrap_i32(p + wrap_i32(value - p)) == value,
        i32::MIN <= p + r <= i32::MAX ==> wrap_i32(p + r) == p + r,
{
}

/// The prediction schemes a selector byte can name.
#[derive(Debug, Clone, Copy, PartialEq, Eq, Structural)]
pub enum PredictionScheme {
    NoPrediction,
    Delta,
    Parallelogram,
    MultiParallelogram,
}

pub open spec fn scheme_of(selector: u8) -> Option<PredictionScheme> {
    if selector == 0xfe {
        Some(PredictionScheme::NoPrediction)
    } else if selector == 0 {
        Some(PredictionScheme::Delta)
    } else if selector == 1 {
        Some(PredictionScheme::Parallelogram)
    } else if selector == 2 {
        Some(PredictionScheme::MultiParallelogram)
    } else {
        None
    }
}

pub open spec fn needs_topology(s: PredictionScheme) -> bool {
    s == PredictionScheme::Parallelogram || s == PredictionScheme::MultiParallelogram
}

impl PredictionScheme {
    /// Reads a selector byte: `UnknownPredictionScheme` for an unknown byte,
    /// `PredictionRequiresTopology` for a parallelogram scheme without a corner table.
    pub fn parse(selector: u8, has_topology: bool) -> (r: Result<PredictionScheme, DecodeError>)
        ensures
            scheme_of(selector) is None ==> r == Err::<PredictionScheme, DecodeError>(
                DecodeError::UnknownPredictionScheme,
            ),
            scheme_of(selector) matches Some(s) ==> (if needs_topology(s) && !has_topology {
                r == Err::<PredictionScheme, DecodeError>(DecodeError::PredictionRequiresTopology)
            } else {
                r == Ok::<PredictionScheme, DecodeError>(s)
            }),
    {
        let s = match selector {
            0xfe => PredictionScheme::NoPrediction,
            0 => PredictionScheme::Delta,
            1 => PredictionScheme::Parallelogram,
            2 => PredictionScheme::MultiParallelogram,
            _ => {
                return Err(DecodeError::UnknownPredictionScheme);
            },
        };
        if (s == PredictionScheme::Parallelogram || s == PredictionScheme::MultiParallelogram)
            && !has_topology {
            return Err(DecodeError::PredictionRequiresTopology);
        }
        Ok(s)
    }
}

/// The parallelogram prediction across corner `c`, when `c` has an opposite corner and the
/// points of the opposite corner and of the two other corners of `c`'s face are decoded.
pub open spec fn parallelogram_at(
    pts: Seq<u32>,
    opp: Seq<Option<usize>>,
    c: int,
    values: Seq<i32>,
    known: Seq<bool>,
) -> Option<int> {
    if opp[c] is Some {
        let o = opp[c]->Some_0 as int;
        let a = pts[next_corner(c)] as int;
        let b = pts[prev_corner(c)] as int;
        let d = pts[o] as int;
        if known[a] && known[b] && known[d] {
            Some(wrap_i32(values[a] + values[b] - values[d]))
        } else {
            None
        }
    } else {
        None
    }
}

/// All points of the table index into buffers of length `n`.
pub open spec fn points_below(t: CornerTable, n: nat) -> bool {
    forall|c: int| 0 <= c < t.points().len() ==> #[trigger] t.points()[c] < n
}

/// Predicts the value at corner `c` by the parallelogram rule across its opposite edge;
/// `None` at a boundary or when a neighbor is not decoded yet.
pub fn predict_parallelogram_at(
    table: &CornerTable,
    c: usize,
    values: &Vec<i32>,
    known: &Vec<bool>,
) -> (r: Option<i32>)
    requires
        table.wf(),
        c < table.points().len(),
        values@.len() == known@.len(),
        points_below(*table, values@.len() as nat),
    ensures
        r matches Some(v) ==> parallelogram_at(table.points(), table.opposites(), c as int, values@, known@) == Some(v as int),
        r is None ==> parallelogram_at(table.points(), table.opposites(), c as int, values@, known@) is None,
{
    match table.opposite(c) {
        None => None,
        Some(o) => {
            let a = table.point(table.next(c)) as usize;
            let b = table.point(table.prev(c)) as usize;
            let d = table.point(o) as usize;
            if known[a] && known[b] && known[d] {
                Some(parallelogram_predict(values[a], values[b], values[d]))
            } else {
                None
            }
        },
    }
}


/// Point `q` received its value before position `i` of the order `seq`.
pub open spec fn decoded_before(seq: Seq<u32>, i: int, q: int) -> bool {
    exists|j: int| 0 <= j < i && seq[j] == q
}

/// The points decoded before position `i`, as flags over `0..n`.
pub open spec fn known_before(seq: Seq<u32>, i: int, n: nat) -> Seq<bool> {
    Seq::new(n, |q: int| decoded_before(seq, i, q))
}

/// Sum and count of the parallelogram predictions available at the corners `0..n` that
/// reference point `p`.
pub open spec fn pg_sum_count(
    pts: Seq<u32>,
    opp: Seq<Option<usize>>,
    p: u32,
    values: Seq<i32>,
    known: Seq<bool>,
    n: int,
) -> (int, nat)
    decreases n,
{
    if n <= 0 {
        (0, 0)
    } else {
        let (s, k) = pg_sum_count(pts, opp, p, values, known, n - 1);
        if pts[n - 1] == p && parallelogram_at(pts, opp, n - 1, values, known) is Some {
            (s + parallelogram_at(pts, opp, n - 1, values, known)->Some_0, k + 1)
        } else {
            (s, k)
        }
    }
}

/// Integer division rounding toward zero.
pub open spec fn trunc_div(s: int, k: nat) -> int {
    if s >= 0 {
        s / (k as int)
    } else {
        -((-s) / (k as int))
    }
}

/// The prediction that `scheme` makes for position `i` of `seq`, given the values decoded
/// so far (`values` at the points decoded before `i`).
pub open spec fn prediction_at(
    scheme: PredictionScheme,
    pts: Seq<u32>,
    opp: Seq<Option<usize>>,
    seq: Seq<u32>,
    values: Seq<i32>,
    i: int,
) -> int {
    let prev = if i == 0 { 0 } else { values[seq[i - 1] as int] as int };
    let known = known_before(seq, i, values.len());
    let (s, k) = pg_sum_count(pts, opp, seq[i], values, known, pts.len() as int);
    match scheme {
        PredictionScheme::NoPrediction => 0,
        PredictionScheme::Delta => prev,
        PredictionScheme::Parallelogram => {
            if k == 0 {
                prev
            } else {
                first_pg(pts, opp, seq[i], values, known, pts.len() as int)
            }
        },
        PredictionScheme::MultiParallelogram => {
            if k == 0 {
                prev
            } else {
                trunc_div(s, k)
            }
        },
    }
}

/// The parallelogram prediction of the first corner below `n` referencing `p` that has one.
pub open spec fn first_pg(
    pts: Seq<u32>,
    opp: Seq<Option<usize>>,
    p: u32,
    values: Seq<i32>,
    known: Seq<bool>,
    n: int,
) -> int
    decreases n,
{
    if n <= 0 {
        0
    } else {
        let (s, k) = pg_sum_count(pts, opp, p, values, known, n - 1);
        if k > 0 {
            first_pg(pts, opp, p, values, known, n - 1)
        } else if pts[n - 1] == p && parallelogram_at(pts, opp, n - 1, values, known) is Some {
            parallelogram_at(pts, opp, n - 1, values, known)->Some_0
        } else {
            0
        }
    }
}


proof fn lemma_average_in_range(s: int, k: nat)
    requires
        k > 0,
        k * i32::MIN <= s <= k * i32::MAX,
    ensures
        i32::MIN <= trunc_div(s, k) <= i32::MAX,
{
    if s >= 0 {
        assert(s / (k as int) <= i32::MAX) by (nonlinear_arith)
            requires k > 0, 0 <= s <= k * i32::MAX;
        assert(s / (k as int) >= 0) by (nonlinear_arith)
            requires k > 0, 0 <= s;
    } else {
        assert((-s) / (k as int) <= -(i32::MIN as int)) by (nonlinear_arith)
            requires k > 0, 0 < -s <= k * -(i32::MIN as int);
        assert((-s) / (k as int) >= 0) by (nonlinear_arith)
            requires k > 0, 0 <= -s;
    }
}

/// The prediction of `scheme` for `point`, whose predecessor in the decode order holds
/// `prev` (0 for the first value), from the values decoded so far.
pub fn predict_value(
    scheme: PredictionScheme,
    table: &CornerTable,
    point: u32,
    prev: i32,
    values: &Vec<i32>,
    known: &Vec<bool>,
) -> (r: i32)
    requires
        table.wf(),
        values@.len() == known@.len(),
        points_below(*table, values@.len() as nat),
    ensures
        ({
            let pts = table.points();
            let opp = table.opposites();
            let (s, k) = pg_sum_count(pts, opp, point, values@, known@, pts.len() as int);
            match scheme {
                PredictionScheme::NoPrediction => r == 0,
                PredictionScheme::Delta => r == prev,
                PredictionScheme::Parallelogram => r == (if k == 0 {
                    prev as int
                } else {
                    first_pg(pts, opp, point, values@, known@, pts.len() as int)
                }),
                PredictionScheme::MultiParallelogram => r == (if k == 0 {
                    prev as int
                } else {
                    trunc_div(s, k)
                }),
            }
        }),
{
    match scheme {
        PredictionScheme::NoPrediction => {
            return 0;
        },
        PredictionScheme::Delta => {
            return prev;
        },
        _ => {},
    }
    let ghost pts = table.points();
    let ghost opp = table.opposites();
    let n = table.num_corners();
    let mut sum: i128 = 0;
    let mut count: u64 = 0;
    let mut first: i32 = 0;
    let mut c: usize = 0;
    while c < n
        invariant
            table.wf(),
            pts == table.points(),
            opp == table.opposites(),
            n == pts.len(),
            c <= n,
            values@.len() == known@.len(),
            points_below(*table, values@.len() as nat),
            count <= c,
            (sum as int, count as nat) == pg_sum_count(pts, opp, point, values@, known@, c as int),
            count > 0 ==> first == first_pg(pts, opp, point, values@, known@, c as int),
            count * i32::MIN <= sum <= count * i32::MAX,
        decreases n - c,
    {
        if table.point(c) == point {
            match predict_parallelogram_at(table, c, values, known) {
                Some(v) => {
                    if count == 0 {
                        first = v;
                    }
                    proof {
                        assert(c < 0x1_0000_0000_0000_0000);
                        assert((count + 1) * i32::MIN <= sum + v <= (count + 1) * i32::MAX)
                            by (nonlinear_arith)
                            requires count * i32::MIN <= sum <= count * i32::MAX,
                                i32::MIN <= v <= i32::MAX;
                        assert(sum + v < 0x1_0000_0000_0000_0000_0000_0000_0000) by (nonlinear_arith)
                            requires sum <= count * i32::MAX, v <= i32::MAX, count <= c,
                                c < 0x1_0000_0000_0000_0000;
                        assert(sum + v > -0x1_0000_0000_0000_0000_0000_0000_0000) by (nonlinear_arith)
                            requires sum >= count * i32::MIN, v >= i32::MIN, count <= c,
                                c < 0x1_0000_0000_0000_0000;
                    }
                    sum = sum + v as i128;
                    count = count + 1;
                },
                None => {},
            }
        }
        c = c + 1;
    }
    if count == 0 {
        return prev;
    }
    if scheme == PredictionScheme::Parallelogram {
        return first;
    }
    proof {
        lemma_average_in_range(sum as int, count as nat);
    }
    let avg: i128 = if sum >= 0 {
        sum / (count as i128)
    } else {
        -((-sum) / (count as i128))
    };
    avg as i32
}


/// Two value buffers that agree on the points decoded before `i` give the same
/// predictions at `i`.
proof fn lemma_pg_frame(
    pts: Seq<u32>,
    opp: Seq<Option<usize>>,
    p: u32,
    v1: Seq<i32>,
    v2: Seq<i32>,
    known: Seq<bool>,
    n: int,
)
    requires
        v1.len() == v2.len() == known.len(),
        forall|c: int| 0 <= c < pts.len() ==> #[trigger] pts[c] < v1.len(),
        forall|q: int| 0 <= q < known.len() && #[trigger] known[q] ==> v1[q] == v2[q],
        n <= pts.len(),
        pts.len() % 3 == 0,
        forall|c: int| 0 <= c < n && #[trigger] opp[c] is Some ==> (opp[c]->Some_0 as int) < pts.len(),
    ensures
        pg_sum_count(pts, opp, p, v1, known, n) == pg_sum_count(pts, opp, p, v2, known, n),
        first_pg(pts, opp, p, v1, known, n) == first_pg(pts, opp, p, v2, known, n),
    decreases n,
{
    if n > 0 {
        lemma_pg_frame(pts, opp, p, v1, v2, known, n - 1);
        let c = n - 1;
        lemma_face_in_range(c, pts.len() as int);
        assert(parallelogram_at(pts, opp, c, v1, known) == parallelogram_at(pts, opp, c, v2, known));
    }
}


/// Values that agree on the points decoded before `i` give the same prediction at `i`.
proof fn lemma_prediction_frame(
    scheme: PredictionScheme,
    t: CornerTable,
    seq: Seq<u32>,
    v1: Seq<i32>,
    v2: Seq<i32>,
    i: int,
)
    requires
        t.wf(),
        0 <= i < seq.len(),
        v1.len() == v2.len(),
        points_below(t, v1.len() as nat),
        i > 0 ==> seq[i - 1] < v1.len(),
        forall|q: int| 0 <= q < v1.len() && decoded_before(seq, i, q) ==> v1[q] == v2[q],
    ensures
        prediction_at(scheme, t.points(), t.opposites(), seq, v1, i) == prediction_at(
            scheme,
            t.points(),
            t.opposites(),
            seq,
            v2,
            i,
        ),
{
    let known = known_before(seq, i, v1.len() as nat);
    assert forall|q: int| 0 <= q < known.len() && #[trigger] known[q] implies v1[q] == v2[q] by {}
    lemma_pg_frame(t.points(), t.opposites(), seq[i], v1, v2, known, t.points().len() as int);
    if i > 0 {
        assert(decoded_before(seq, i, seq[i - 1] as int));
    }
}

/// Everything a decode of one attribute component needs to succeed: enough residuals, a
/// corner table over the points, and a decode order that lists points at most once.
pub open spec fn decode_inputs_ok(pts: Seq<u32>, seq: Seq<u32>, num_points: u32, num_residuals: nat) -> bool {
    &&& num_residuals >= seq.len()
    &&& forall|c: int| 0 <= c < pts.len() ==> #[trigger] pts[c] < num_points
    &&& forall|i: int| 0 <= i < seq.len() ==> #[trigger] seq[i] < num_points
    &&& forall|i: int, j: int| 0 <= i < j < seq.len() ==> #[trigger] seq[i] != #[trigger] seq[j]
}

/// Reconstructs one attribute component for every point: the value at position `i` of the
/// order `seq` is the prediction of `scheme` plus `residuals[i]`. Points outside `seq` hold 0.
/// `Truncated` when there are fewer residuals than positions, `MalformedConnectivity` when
/// the table references a point at or past `num_points`, `SequencingInconsistent` when the
/// order names such a point or a point twice.
pub fn decode_attribute_values(
    scheme: PredictionScheme,
    table: &CornerTable,
    seq: &Vec<u32>,
    num_points: u32,
    residuals: &Vec<i32>,
) -> (r: Result<Vec<i32>, DecodeError>)
    requires
        table.wf(),
    ensures
        residuals@.len() < seq@.len() ==> r == Err::<Vec<i32>, DecodeError>(DecodeError::Truncated),
        r is Ok <==> decode_inputs_ok(table.points(), seq@, num_points, residuals@.len()),
        r matches Ok(out) ==> {
            &&& out@.len() == num_points
            &&& forall|i: int|
                0 <= i < seq@.len() ==> #[trigger] out@[seq@[i] as int] == wrap_i32(
                    prediction_at(scheme, table.points(), table.opposites(), seq@, out@, i)
                        + residuals@[i],
                )
            &&& forall|q: int| 0 <= q < num_points && !decoded_before(seq@, seq@.len() as int, q) ==> out@[q] == 0
        },
{
    if residuals.len() < seq.len() {
        return Err(DecodeError::Truncated);
    }
    let ghost pts = table.points();
    let ghost opp = table.opposites();
    let n = table.num_corners();
    let mut c: usize = 0;
    while c < n
        invariant
            c <= n,
            n == pts.len(),
            pts == table.points(),
            residuals@.len() >= seq@.len(),
            forall|a: int| 0 <= a < c ==> #[trigger] pts[a] < num_points,
        decreases n - c,
    {
        if table.point(c) >= num_points {
            proof {
                assert(!(pts[c as int] < num_points));
            }
            return Err(DecodeError::MalformedConnectivity);
        }
        c = c + 1;
    }
    let mut values: Vec<i32> = Vec::new();
    let mut known: Vec<bool> = Vec::new();
    let mut k: u32 = 0;
    while k < num_points
        invariant
            k <= num_points,
            values@.len() == k,
            known@.len() == k,
            forall|q: int| 0 <= q < k ==> !known@[q] && values@[q] == 0,
        decreases num_points - k,
    {
        values.push(0);
        known.push(false);
        k = k + 1;
    }
    let len = seq.len();
    let mut i: usize = 0;
    let mut prev: i32 = 0;
    while i < len
        invariant
            table.wf(),
            pts == table.points(),
            opp == table.opposites(),
            len == seq@.len(),
            residuals@.len() >= len,
            i <= len,
            points_below(*table, num_points as nat),
            values@.len() == num_points,
            known@.len() == num_points,
            forall|q: int| 0 <= q < num_points ==> (#[trigger] known@[q] <==> decoded_before(seq@, i as int, q)),
            forall|q: int| 0 <= q < num_points && !known@[q] ==> #[trigger] values@[q] == 0,
            forall|j: int| 0 <= j < i ==> #[trigger] seq@[j] < num_points,
            forall|a: int, b: int| 0 <= a < b < i ==> #[trigger] seq@[a] != #[trigger] seq@[b],
            i > 0 ==> prev == values@[seq@[i - 1] as int],
            i == 0 ==> prev == 0,
            forall|j: int|
                0 <= j < i ==> #[trigger] values@[seq@[j] as int] == wrap_i32(
                    prediction_at(scheme, pts, opp, seq@, values@, j) + residuals@[j],
                ),
        decreases len - i,
    {
        let p = seq[i];
        if p >= num_points {
            proof {
                assert(!decode_inputs_ok(pts, seq@, num_points, residuals@.len()));
            }
            return Err(DecodeError::SequencingInconsistent);
        }
        if known[p as usize] {
            proof {
                let j = choose|j: int| 0 <= j < i && seq@[j] == p as int;
                assert(seq@[j] == seq@[i as int]);
                assert(!decode_inputs_ok(pts, seq@, num_points, residuals@.len()));
            }
            return Err(DecodeError::SequencingInconsistent);
        }
        let pred = predict_value(scheme, table, p, prev, &values, &known);
        let v = reconstruct(pred, residuals[i]);
        let ghost old_values = values@;
        proof {
            assert(known@ =~= known_before(seq@, i as int, values@.len() as nat));
        }
        values.set(p as usize, v);
        known.set(p as usize, true);
        proof {
            assert forall|q: int| 0 <= q < old_values.len() && decoded_before(seq@, i as int, q) implies old_values[q] == values@[q] by {
                if q == p as int {
                    assert(known@[q] == true);
                }
            }
            lemma_prediction_frame(scheme, *table, seq@, old_values, values@, i as int);
            assert forall|j: int| 0 <= j < i + 1 implies #[trigger] values@[seq@[j] as int] == wrap_i32(
                prediction_at(scheme, pts, opp, seq@, values@, j) + residuals@[j],
            ) by {
                if j < i {
                    assert(seq@[j] != p);
                    assert forall|q: int| 0 <= q < old_values.len() && decoded_before(seq@, j, q) implies old_values[q] == values@[q] by {
                        let jj = choose|jj: int| 0 <= jj < j && seq@[jj] == q;
                        assert(seq@[jj] != p);
                    }
                    lemma_prediction_frame(scheme, *table, seq@, old_values, values@, j);
                }
            }
            assert forall|q: int| 0 <= q < num_points implies (#[trigger] known@[q] <==> decoded_before(seq@, i + 1, q)) by {
                if decoded_before(seq@, i + 1, q) && q != p as int {
                    let jj = choose|jj: int| 0 <= jj < i + 1 && seq@[jj] == q;
                    assert(decoded_before(seq@, i as int, q));
                }
                if q == p as int {
                    assert(seq@[i as int] == q);
                }
            }
        }
        prev = v;
        i = i + 1;
    }
    Ok(values)
}


proof fn lemma_no_pg_count_zero(
    pts: Seq<u32>,
    opp: Seq<Option<usize>>,
    p: u32,
    values: Seq<i32>,
    known: Seq<bool>,
    n: int,
)
    requires
        forall|c: int| 0 <= c < n && pts[c] == p ==> #[trigger] parallelogram_at(pts, opp, c, values, known) is None,
    ensures
        pg_sum_count(pts, opp, p, values, known, n).1 == 0,
    decreases n,
{
    if n > 0 {
        lemma_no_pg_count_zero(pts, opp, p, values, known, n - 1);
    }
}

/// Under the parallelogram schemes, a point none of whose corners has a decoded opposite
/// face (a boundary, or neighbors not decoded yet) is predicted as under delta coding.
pub proof fn lemma_boundary_falls_back_to_delta(
    t: CornerTable,
    seq: Seq<u32>,
    values: Seq<i32>,
    i: int,
)
    requires
        0 <= i < seq.len(),
        forall|c: int|
            0 <= c < t.points().len() && t.points()[c] == seq[i] ==> #[trigger] parallelogram_at(
                t.points(),
                t.opposites(),
                c,
                values,
                known_before(seq, i, values.len()),
            ) is None,
    ensures
        prediction_at(PredictionScheme::Parallelogram, t.points(), t.opposites(), seq, values, i)
            == prediction_at(PredictionScheme::Delta, t.points(), t.opposites(), seq, values, i),
        prediction_at(PredictionScheme::MultiParallelogram, t.points(), t.opposites(), seq, values, i)
            == prediction_at(PredictionScheme::Delta, t.points(), t.opposites(), seq, values, i),
{
    lemma_no_pg_count_zero(
        t.points(),
        t.opposites(),
        seq[i],
        values,
        known_before(seq, i, values.len()),
        t.points().len() as int,
    );
}

/// Across an interior edge whose three neighbor values `a`, `b`, `c` are decoded, the
/// parallelogram prediction is exactly `a + b - c` whenever that fits in `i32`.
pub proof fn lemma_parallelogram_exact(a: i32, b: i32, c: i32)
    ensures
        i32::MIN <= a + b - c <= i32::MAX ==> wrap_i32(a + b - c) == a + b - c,
{
}

/// The residuals of component `k` out of `nc` interleaved components, `count` values long.
pub open spec fn component_of(residuals: Seq<i32>, nc: nat, k: nat, count: nat) -> Seq<i32> {
    Seq::new(count, |i: int| residuals[i * nc + k])
}

/// Picks the residuals of component `k` from residuals stored value by value.
pub fn component_residuals(residuals: &Vec<i32>, num_components: usize, k: usize, count: usize) -> (r: Vec<i32>)
    requires
        k < num_components,
        count * num_components <= residuals@.len(),
    ensures
        r@ == component_of(residuals@, num_components as nat, k as nat, count as nat),
{
    let rl = residuals.len();
    let mut r: Vec<i32> = Vec::new();
    let mut i: usize = 0;
    while i < count
        invariant
            rl == residuals@.len(),
            i <= count,
            k < num_components,
            count * num_components <= residuals@.len(),
            r@ == component_of(residuals@, num_components as nat, k as nat, i as nat),
        decreases count - i,
    {
        proof {
            assert(i * num_components + k < count * num_components) by (nonlinear_arith)
                requires i < count, k < num_components;
        }
        r.push(residuals[i * num_components + k]);
        proof {
            assert(r@ =~= component_of(residuals@, num_components as nat, k as nat, (i + 1) as nat));
        }
        i = i + 1;
    }
    r
}

/// Reconstructs every component of an attribute whose residuals are stored value by value
/// (`num_components` per value): component `k` is decoded as `decode_attribute_values`
/// decodes it from its own residuals. `Truncated` when fewer than
/// `num_components * seq.len()` residuals are given.
pub fn decode_attribute_components(
    scheme: PredictionScheme,
    table: &CornerTable,
    seq: &Vec<u32>,
    num_points: u32,
    num_components: u8,
    residuals: &Vec<i32>,
) -> (r: Result<Vec<Vec<i32>>, DecodeError>)
    requires
        table.wf(),
    ensures
        residuals@.len() < num_components * seq@.len() ==> r == Err::<Vec<Vec<i32>>, DecodeError>(
            DecodeError::Truncated,
        ),
        r matches Ok(out) ==> {
            &&& out@.len() == num_components
            &&& forall|k: int|
                0 <= k < num_components ==> {
                    let res = component_of(residuals@, num_components as nat, k as nat, seq@.len());
                    let v = #[trigger] out@[k]@;
                    &&& decode_inputs_ok(table.points(), seq@, num_points, res.len())
                    &&& v.len() == num_points
                    &&& forall|i: int|
                        0 <= i < seq@.len() ==> v[seq@[i] as int] == wrap_i32(
                            prediction_at(scheme, table.points(), table.opposites(), seq@, v, i)
                                + res[i],
                        )
                }
        },
        num_components > 0 && residuals@.len() >= num_components * seq@.len() ==> (r is Ok
            <==> decode_inputs_ok(table.points(), seq@, num_points, seq@.len())),
{
    let nc = num_components as usize;
    let count = seq.len();
    if nc > 0 && residuals.len() / nc < count {
        proof {
            let l = residuals@.len() as int;
            assert(l < nc * count) by (nonlinear_arith)
                requires nc > 0, l / (nc as int) < count, l >= 0;
        }
        return Err(DecodeError::Truncated);
    }
    proof {
        let l = residuals@.len() as int;
        if nc > 0 {
            assert(count * nc <= l) by (nonlinear_arith)
                requires nc > 0, l / (nc as int) >= count, l >= 0;
        }
    }
    let mut out: Vec<Vec<i32>> = Vec::new();
    let mut k: usize = 0;
    while k < nc
        invariant
            table.wf(),
            k <= nc,
            nc == num_components,
            count == seq@.len(),
            count * nc <= residuals@.len(),
            out@.len() == k,
            forall|j: int|
                0 <= j < k ==> {
                    let res = component_of(residuals@, nc as nat, j as nat, count as nat);
                    let v = #[trigger] out@[j]@;
                    &&& decode_inputs_ok(table.points(), seq@, num_points, res.len())
                    &&& v.len() == num_points
                    &&& forall|i: int|
                        0 <= i < seq@.len() ==> v[seq@[i] as int] == wrap_i32(
                            prediction_at(scheme, table.points(), table.opposites(), seq@, v, i)
                                + res[i],
                        )
                },
        decreases nc - k,
    {
        let res = component_residuals(residuals, nc, k, count);
        assert(res@.len() == count);
        let v = decode_attribute_values(scheme, table, seq, num_points, &res)?;
        out.push(v);
        proof {
            assert forall|j: int| 0 <= j < k + 1 implies {
                let res = component_of(residuals@, nc as nat, j as nat, count as nat);
                let v = #[trigger] out@[j]@;
                &&& decode_inputs_ok(table.points(), seq@, num_points, res.len())
                &&& v.len() == num_points
                &&& forall|i: int|
                    0 <= i < seq@.len() ==> v[seq@[i] as int] == wrap_i32(
                        prediction_at(scheme, table.points(), table.opposites(), seq@, v, i)
                            + res[i],
                    )
            } by {
                if j < k {
                } else {
                    assert(out@[j] == v);
                }
            }
        }
        k = k + 1;
    }
    proof {
        assert(nc * count == count * nc) by (nonlinear_arith);
        if nc > 0 {
            assert(out@[0]@.len() == num_points);
            assert(decode_inputs_ok(
                table.points(),
                seq@,
                num_points,
                component_of(residuals@, nc as nat, 0, count as nat).len(),
            ));
        }
    }
    Ok(out)
}

} // verus!

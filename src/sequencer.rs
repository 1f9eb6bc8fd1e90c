use crate::corner_table::CornerTable;
use crate::error::DecodeError;
use crate::header::{EncoderMethod, Header};
use vstd::prelude::*;

verus! {

/// `s` is the identity order over `0..num_points`.
pub open spec fn is_identity(s: Seq<u32>, num_points: nat) -> bool {
    s.len() == num_points && forall|i: int| 0 <= i < s.len() ==> #[trigger] s[i] == i
}

/// `s` lists each point at most once.
pub open spec fn no_repeats(s: Seq<u32>) -> bool {
    forall|i: int, j: int| 0 <= i < j < s.len() ==> #[trigger] s[i] != #[trigger] s[j]
}

/// Point `p` is referenced by some corner of `pts`.
pub open spec fn reached(pts: Seq<u32>, p: u32) -> bool {
    exists|c: int| 0 <= c < pts.len() && pts[c] == p
}

/// The points of the corners `0..n` in the order in which they are first reached.
pub open spec fn first_reach(pts: Seq<u32>, n: int) -> Seq<u32>
    decreases n,
{
    if n <= 0 {
        Seq::empty()
    } else {
        let prior = first_reach(pts, n - 1);
        if prior.contains(pts[n - 1]) {
            prior
        } else {
            prior.push(pts[n - 1])
        }
    }
}

/// What a corner walk over `pts` yields: every point reached exactly once when all points
/// are below `num_points`, `MalformedConnectivity` otherwise.
pub open spec fn traversal_result(pts: Seq<u32>, num_points: u32, r: Result<Vec<u32>, DecodeError>) -> bool {
    &&& r is Ok <==> forall|c: int| 0 <= c < pts.len() ==> #[trigger] pts[c] < num_points
    &&& r is Err ==> r == Err::<Vec<u32>, DecodeError>(DecodeError::MalformedConnectivity)
    &&& r matches Ok(s) ==> {
        &&& s@ == first_reach(pts, pts.len() as int)
        &&& no_repeats(s@)
        &&& forall|i: int| 0 <= i < s@.len() ==> reached(pts, #[trigger] s@[i])
        &&& forall|p: u32| reached(pts, p) ==> #[trigger] s@.contains(p)
    }
}

/// The attribute order of sequential connectivity: point `i` is the `i`-th encoded value.
pub fn sequential_generate_sequence(num_points: u32) -> (r: Vec<u32>)
    ensures
        is_identity(r@, num_points as nat),
{
    let mut r: Vec<u32> = Vec::new();
    let mut i: u32 = 0;
    while i < num_points
        invariant
            i <= num_points,
            is_identity(r@, i as nat),
        decreases num_points - i,
    {
        r.push(i);
        i = i + 1;
    }
    r
}

/// The identity order is a bijection onto `0..num_points`: every entry is a point, no
/// point appears twice, and every point appears.
pub proof fn lemma_identity_sequence_bijective(s: Seq<u32>, num_points: nat)
    requires
        is_identity(s, num_points),
    ensures
        forall|i: int| 0 <= i < s.len() ==> #[trigger] s[i] < num_points,
        no_repeats(s),
        forall|p: u32| p < num_points ==> #[trigger] s.contains(p),
{
    assert forall|p: u32| p < num_points implies #[trigger] s.contains(p) by {
        assert(s[p as int] == p);
    }
}

/// The attribute order of a corner table: the points in the order in which a walk over
/// the corners in decode order first reaches them. `MalformedConnectivity` when a corner
/// references a point at or past `num_points`.
pub fn corner_traversal_sequence(table: &CornerTable, num_points: u32) -> (r: Result<Vec<u32>, DecodeError>)
    ensures
        traversal_result(table.points(), num_points, r),
{
    let n = table.num_corners();
    let mut c: usize = 0;
    while c < n
        invariant
            c <= n,
            n == table.points().len(),
            forall|a: int| 0 <= a < c ==> #[trigger] table.points()[a] < num_points,
        decreases n - c,
    {
        if table.point(c) >= num_points {
            return Err(DecodeError::MalformedConnectivity);
        }
        c = c + 1;
    }
    let mut visited: Vec<bool> = Vec::new();
    let mut k: u32 = 0;
    while k < num_points
        invariant
            k <= num_points,
            visited@.len() == k,
            forall|q: int| 0 <= q < k ==> !visited@[q],
        decreases num_points - k,
    {
        visited.push(false);
        k = k + 1;
    }
    let ghost pts = table.points();
    let mut s: Vec<u32> = Vec::new();
    let mut c: usize = 0;
    while c < n
        invariant
            c <= n,
            n == pts.len(),
            pts == table.points(),
            forall|a: int| 0 <= a < n ==> #[trigger] pts[a] < num_points,
            visited@.len() == num_points,
            no_repeats(s@),
            forall|i: int| 0 <= i < s@.len() ==> reached(pts, #[trigger] s@[i]),
            forall|i: int| 0 <= i < s@.len() ==> #[trigger] s@[i] < num_points,
            forall|q: int| 0 <= q < num_points ==> (#[trigger] visited@[q] <==> s@.contains(q as u32)),
            forall|a: int| 0 <= a < c ==> s@.contains(#[trigger] pts[a]),
            s@ == first_reach(pts, c as int),
        decreases n - c,
    {
        let p = table.point(c);
        if !visited[p as usize] {
            let ghost before = s@;
            visited.set(p as usize, true);
            s.push(p);
            proof {
                assert(!before.contains(p));
                assert forall|i: int, j: int| 0 <= i < j < s@.len() implies #[trigger] s@[i] != #[trigger] s@[j] by {
                    if j == before.len() {
                        assert(before[i] == s@[i]);
                    }
                }
                assert forall|i: int| 0 <= i < s@.len() implies reached(pts, #[trigger] s@[i]) by {
                    if i == before.len() {
                        assert(pts[c as int] == p);
                    } else {
                        assert(before[i] == s@[i]);
                    }
                }
                assert forall|q: int| 0 <= q < num_points implies (#[trigger] visited@[q] <==> s@.contains(q as u32)) by {
                    if q == p as int {
                        assert(s@[before.len() as int] == p);
                    } else {
                        if s@.contains(q as u32) {
                            let i = choose|i: int| 0 <= i < s@.len() && s@[i] == q as u32;
                            assert(i != before.len());
                            assert(before[i] == q as u32);
                        }
                        if before.contains(q as u32) {
                            let i = choose|i: int| 0 <= i < before.len() && before[i] == q as u32;
                            assert(s@[i] == q as u32);
                        }
                    }
                }
                assert forall|a: int| 0 <= a < c + 1 implies s@.contains(#[trigger] pts[a]) by {
                    if a == c {
                        assert(s@[before.len() as int] == p);
                    } else {
                        let i = choose|i: int| 0 <= i < before.len() && before[i] == pts[a];
                        assert(s@[i] == pts[a]);
                    }
                }
            }
        } else {
            assert(s@.contains(pts[c as int]));
        }
        proof {
            assert(first_reach(pts, c + 1) == (if first_reach(pts, c as int).contains(pts[c as int]) {
                first_reach(pts, c as int)
            } else {
                first_reach(pts, c as int).push(pts[c as int])
            }));
        }
        c = c + 1;
    }
    proof {
        assert forall|p: u32| reached(pts, p) implies #[trigger] s@.contains(p) by {
            let a = choose|a: int| 0 <= a < pts.len() && pts[a] == p;
            assert(s@.contains(pts[a]));
        }
    }
    Ok(s)
}

/// The order in which one attribute decoder's values were encoded: the identity for
/// sequential connectivity, the corner walk of `table` otherwise.
pub fn generate_sequence(header: &Header, num_points: u32, table: &CornerTable) -> (r: Result<Vec<u32>, DecodeError>)
    ensures
        header.encoder_method == EncoderMethod::MeshSequential ==> r is Ok,
        header.encoder_method == EncoderMethod::MeshSequential ==> (r matches Ok(s) && is_identity(
            s@,
            num_points as nat,
        )),
        header.encoder_method == EncoderMethod::MeshEdgebreaker ==> traversal_result(
            table.points(),
            num_points,
            r,
        ),
{
    if header.encoder_method == EncoderMethod::MeshEdgebreaker {
        corner_traversal_sequence(table, num_points)
    } else {
        Ok(sequential_generate_sequence(num_points))
    }
}

} // verus!

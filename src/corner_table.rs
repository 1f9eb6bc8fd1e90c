use vstd::prelude::*;

verus! {

/// The corner after `c` within its face.
pub open spec fn next_corner(c: int) -> int {
    3 * (c / 3) + (c + 1) % 3
}

/// The corner before `c` within its face.
pub open spec fn prev_corner(c: int) -> int {
    3 * (c / 3) + (c + 2) % 3
}

/// Corner `o` faces corner `c` across their shared edge: the edge opposite `c` is the
/// edge opposite `o` walked the other way.
pub open spec fn faces_across(pts: Seq<u32>, c: int, o: int) -> bool {
    &&& pts[next_corner(o)] == pts[prev_corner(c)]
    &&& pts[prev_corner(o)] == pts[next_corner(c)]
}

/// Every opposite link is in range, symmetric, and joins corners across a shared edge.
pub open spec fn links_ok(pts: Seq<u32>, opp: Seq<Option<usize>>) -> bool {
    forall|c: int|
        0 <= c < opp.len() && #[trigger] opp[c] is Some ==> {
            let o = opp[c]->Some_0 as int;
            &&& 0 <= o < opp.len()
            &&& o != c
            &&& opp[o] == Some(c as usize)
            &&& faces_across(pts, c, o)
        }
}

/// The corners of `c`'s face lie below any multiple of three above `c`.
pub proof fn lemma_face_in_range(c: int, n: int)
    requires
        0 <= c < n,
        n % 3 == 0,
    ensures
        3 * (c / 3) + 2 < n,
        3 * (c / 3) <= c,
        0 <= (c + 1) % 3 <= 2,
        0 <= (c + 2) % 3 <= 2,
        c - c % 3 == 3 * (c / 3),
        0 <= c % 3 <= c,
        (c % 3 + 1) % 3 == (c + 1) % 3,
        (c % 3 + 2) % 3 == (c + 2) % 3,
        next_corner(c) < n,
        prev_corner(c) < n,
{
    assert(3 * (c / 3) + 2 < n) by (nonlinear_arith)
        requires 0 <= c < n, n % 3 == 0;
    assert((c % 3 + 1) % 3 == (c + 1) % 3 && (c % 3 + 2) % 3 == (c + 2) % 3) by (nonlinear_arith)
        requires 0 <= c;
}

/// No two corners left without an opposite face each other across an edge: pairing
/// leaves a corner unpaired only when no other unpaired corner matches it.
pub open spec fn pairing_complete(pts: Seq<u32>, opp: Seq<Option<usize>>) -> bool {
    forall|a: int, b: int|
        #![trigger faces_across(pts, a, b)]
        0 <= a < opp.len() && 0 <= b < opp.len() && a != b && opp[a] is None && opp[b] is None
            ==> !faces_across(pts, a, b)
}

/// For every corner, the point it references and the corner opposite it, if any.
pub struct CornerTable {
    corner_to_point: Vec<u32>,
    opposite_corners: Vec<Option<usize>>,
}

impl CornerTable {
    /// The point of each corner.
    pub closed spec fn points(&self) -> Seq<u32> {
        self.corner_to_point@
    }

    /// The opposite of each corner.
    pub closed spec fn opposites(&self) -> Seq<Option<usize>> {
        self.opposite_corners@
    }

    pub open spec fn wf(&self) -> bool {
        &&& self.points().len() == self.opposites().len()
        &&& self.points().len() % 3 == 0
        &&& links_ok(self.points(), self.opposites())
    }

    /// Builds the table of a face list: corner `3 * f + k` references `faces[f][k]`, and two
    /// corners are made opposite when their faces share an edge walked in opposite
    /// directions, each corner paired at most once.
    pub fn new(faces: &Vec<[u32; 3]>) -> (r: CornerTable)
        requires
            3 * faces@.len() <= usize::MAX,
        ensures
            r.wf(),
            r.points().len() == 3 * faces@.len(),
            pairing_complete(r.points(), r.opposites()),
            forall|f: int, k: int|
                0 <= f < faces@.len() && 0 <= k < 3 ==> r.points()[3 * f + k] == #[trigger] faces@[f]@[k],
    {
        let nf = faces.len();
        let mut pts: Vec<u32> = Vec::new();
        let mut i: usize = 0;
        while i < nf
            invariant
                i <= nf,
                nf == faces@.len(),
                3 * nf <= usize::MAX,
                pts@.len() == 3 * i,
                forall|f: int, k: int|
                    0 <= f < i && 0 <= k < 3 ==> pts@[3 * f + k] == #[trigger] faces@[f]@[k],
            decreases nf - i,
        {
            let f = faces[i];
            pts.push(f[0]);
            pts.push(f[1]);
            pts.push(f[2]);
            proof {
                assert forall|f2: int, k: int|
                    0 <= f2 < i + 1 && 0 <= k < 3 implies pts@[3 * f2 + k] == #[trigger] faces@[f2]@[k] by {
                    if f2 == i {
                        assert(k == 0 || k == 1 || k == 2);
                    }
                }
            }
            i = i + 1;
        }
        let n = pts.len();
        let mut opp: Vec<Option<usize>> = Vec::new();
        let mut j: usize = 0;
        while j < n
            invariant
                j <= n,
                opp@.len() == j,
                forall|a: int| 0 <= a < j ==> opp@[a] is None,
            decreases n - j,
        {
            opp.push(None);
            j = j + 1;
        }
        let mut c: usize = 0;
        while c < n
            invariant
                c <= n,
                n == pts@.len(),
                n % 3 == 0,
                opp@.len() == n,
                links_ok(pts@, opp@),
                forall|a: int, b: int|
                    #![trigger faces_across(pts@, a, b)]
                    0 <= a < c && a < b < n && opp@[a] is None && opp@[b] is None ==> !faces_across(pts@, a, b),
            decreases n - c,
        {
            if opp[c].is_none() {
                proof {
                    lemma_face_in_range(c as int, n as int);
                }
                let cn = c - c % 3 + (c % 3 + 1) % 3;
                let cp = c - c % 3 + (c % 3 + 2) % 3;
                let mut o: usize = c + 1;
                while o < n
                    invariant
                        c < n,
                        c < o <= n,
                        n == pts@.len(),
                        n % 3 == 0,
                        opp@.len() == n,
                        links_ok(pts@, opp@),
                        cn == next_corner(c as int),
                        cp == prev_corner(c as int),
                        cn < n && cp < n,
                        forall|a: int, b: int|
                            #![trigger faces_across(pts@, a, b)]
                            0 <= a < c && a < b < n && opp@[a] is None && opp@[b] is None ==> !faces_across(pts@, a, b),
                        forall|b: int|
                            #![trigger faces_across(pts@, c as int, b)]
                            c < b < o && opp@[c as int] is None && opp@[b] is None ==> !faces_across(pts@, c as int, b),
                    decreases n - o,
                {
                    proof {
                        lemma_face_in_range(o as int, n as int);
                    }
                    let on = o - o % 3 + (o % 3 + 1) % 3;
                    let op = o - o % 3 + (o % 3 + 2) % 3;
                    if opp[c].is_none() && opp[o].is_none() && pts[on] == pts[cp] && pts[op] == pts[cn] {
                        let ghost before = opp@;
                        opp.set(c, Some(o));
                        opp.set(o, Some(c));
                        proof {
                            assert forall|a: int|
                                0 <= a < opp@.len() && #[trigger] opp@[a] is Some implies {
                                let b = opp@[a]->Some_0 as int;
                                &&& 0 <= b < opp@.len()
                                &&& b != a
                                &&& opp@[b] == Some(a as usize)
                                &&& faces_across(pts@, a, b)
                            } by {
                                if a != c && a != o {
                                    assert(before[a] is Some);
                                    let b = before[a]->Some_0 as int;
                                    assert(before[b] == Some(a as usize));
                                }
                            }
                        }
                    }
                    o = o + 1;
                }
            }
            c = c + 1;
        }
        proof {
            assert forall|a: int, b: int|
                #![trigger faces_across(pts@, a, b)]
                0 <= a < opp@.len() && 0 <= b < opp@.len() && a != b && opp@[a] is None && opp@[b] is None
                    implies !faces_across(pts@, a, b) by {
                if b < a {
                    assert(!faces_across(pts@, b, a));
                }
            }
        }
        CornerTable { corner_to_point: pts, opposite_corners: opp }
    }

    pub fn num_corners(&self) -> (r: usize)
        ensures
            r == self.points().len(),
    {
        self.corner_to_point.len()
    }

    /// The point that corner `c` references.
    pub fn point(&self, c: usize) -> (r: u32)
        requires
            c < self.points().len(),
        ensures
            r == self.points()[c as int],
    {
        self.corner_to_point[c]
    }

    /// The corner across the edge opposite `c`, or `None` at a boundary.
    pub fn opposite(&self, c: usize) -> (r: Option<usize>)
        requires
            c < self.opposites().len(),
        ensures
            r == self.opposites()[c as int],
    {
        self.opposite_corners[c]
    }

    /// The next corner of `c`'s face.
    pub fn next(&self, c: usize) -> (r: usize)
        requires
            self.wf(),
            c < self.points().len(),
        ensures
            r == next_corner(c as int),
            r < self.points().len(),
    {
        let n = self.corner_to_point.len();
        proof {
            lemma_face_in_range(c as int, n as int);
        }
        c - c % 3 + (c % 3 + 1) % 3
    }

    /// The previous corner of `c`'s face.
    pub fn prev(&self, c: usize) -> (r: usize)
        requires
            self.wf(),
            c < self.points().len(),
        ensures
            r == prev_corner(c as int),
            r < self.points().len(),
    {
        let n = self.corner_to_point.len();
        proof {
            lemma_face_in_range(c as int, n as int);
        }
        c - c % 3 + (c % 3 + 2) % 3
    }
}

/// The opposite relation is symmetric: if `o` is opposite `c`, then `c` is opposite `o`.
pub proof fn lemma_opposite_symmetric(t: &CornerTable, c: int)
    requires
        t.wf(),
        0 <= c < t.opposites().len(),
        t.opposites()[c] is Some,
    ensures
        ({
            let o = t.opposites()[c]->Some_0 as int;
            0 <= o < t.opposites().len() && t.opposites()[o] == Some(c as usize)
        }),
{
}

} // verus!

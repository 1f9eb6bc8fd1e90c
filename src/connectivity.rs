use crate::cursor::{
    le16, le32, lemma_varint_length_unique, lemma_varuint_length_unique, varint_ends_at, varint_error,
    varint_value, varuint_at, varuint_ends_at, varuint_sum, ByteCursor,
};
use crate::error::DecodeError;
use crate::header::{EncoderMethod, Header};
use vstd::prelude::*;

verus! {

/// How the index triples of the sequential method are stored.
#[derive(Debug, Clone, Copy, PartialEq, Eq, Structural)]
pub enum SequentialIndicesEncodingMethod {
    Compressed,
    Uncompressed,
}

pub open spec fn index_method_of(value: u8) -> Option<SequentialIndicesEncodingMethod> {
    if value == 0 {
        Some(SequentialIndicesEncodingMethod::Compressed)
    } else if value == 1 {
        Some(SequentialIndicesEncodingMethod::Uncompressed)
    } else {
        None
    }
}

impl SequentialIndicesEncodingMethod {
    pub fn parse(value: u8) -> (r: Option<SequentialIndicesEncodingMethod>)
        ensures
            r == index_method_of(value),
    {
        match value {
            0 => Some(SequentialIndicesEncodingMethod::Compressed),
            1 => Some(SequentialIndicesEncodingMethod::Uncompressed),
            _ => None,
        }
    }
}

/// The counts and index coding that open the sequential connectivity section.
#[derive(Debug, Clone, Copy, PartialEq, Eq, Structural)]
pub struct SequentialConnectivityData {
    pub num_faces: u32,
    pub num_points: u32,
    pub connectivity_method: SequentialIndicesEncodingMethod,
}

/// Bytes per stored index: one below 256 points, two below 65536, else four.
pub open spec fn index_width(num_points: u32) -> nat {
    if num_points < 256 {
        1
    } else if num_points < 65536 {
        2
    } else {
        4
    }
}

/// The little-endian value of the first `w` bytes of `t`.
pub open spec fn width_value(t: Seq<u8>, w: nat) -> nat {
    if w == 1 {
        t[0] as nat
    } else if w == 2 {
        le16(t[0], t[1])
    } else {
        le32(t[0], t[1], t[2], t[3])
    }
}

/// The `j`-th stored index of an uncompressed index list of width `w`.
pub open spec fn index_at(s: Seq<u8>, w: nat, j: int) -> nat {
    width_value(s.skip(j * w), w)
}

/// What reading `num_faces` index triples of width `w` from `s` gives, `rest` being what
/// is left of the input afterwards.
pub open spec fn indices_result(
    s: Seq<u8>,
    num_faces: u32,
    num_points: u32,
    w: nat,
    rest: Seq<u8>,
    r: Result<Vec<[u32; 3]>, DecodeError>,
) -> bool {
    let n = 3 * num_faces * w;
    &&& s.len() < n ==> r == Err::<Vec<[u32; 3]>, DecodeError>(DecodeError::Truncated)
    &&& s.len() >= n ==> ((r is Ok) <==> (forall|j: int|
        0 <= j < 3 * num_faces ==> #[trigger] index_at(s, w, j) < num_points))
    &&& s.len() >= n && r is Err ==> r == Err::<Vec<[u32; 3]>, DecodeError>(DecodeError::MalformedConnectivity)
    &&& r matches Ok(faces) ==> {
        &&& faces@.len() == num_faces
        &&& forall|i: int, k: int|
            0 <= i < num_faces && 0 <= k < 3 ==> #[trigger] faces@[i]@[k] == index_at(s, w, 3 * i + k)
        &&& faces_in_range(faces@, num_points)
        &&& rest == s.skip(n)
    }
}

/// Every index of `faces` names an existing point.
pub open spec fn faces_in_range(faces: Seq<[u32; 3]>, num_points: u32) -> bool {
    forall|i: int, k: int| 0 <= i < faces.len() && 0 <= k < 3 ==> #[trigger] faces[i]@[k] < num_points
}

/// `s` opens with the face count (`n1` bytes), the point count (`n2` bytes) and the
/// index-coding tag of `d`.
pub open spec fn conn_header_at(s: Seq<u8>, d: SequentialConnectivityData, n1: nat, n2: nat) -> bool {
    &&& varuint_ends_at(s, n1)
    &&& d.num_faces == varuint_sum(s, n1)
    &&& varuint_ends_at(s.skip(n1 as int), n2)
    &&& d.num_points == varuint_sum(s.skip(n1 as int), n2)
    &&& n1 + n2 < s.len()
    &&& index_method_of(s[(n1 + n2) as int]) == Some(d.connectivity_method)
}

/// `faces` is the face list that the index data `s` holds under the counts and coding of `d`.
pub open spec fn faces_from(s: Seq<u8>, d: SequentialConnectivityData, faces: Seq<[u32; 3]>) -> bool {
    &&& faces.len() == d.num_faces
    &&& faces_in_range(faces, d.num_points)
    &&& if d.connectivity_method == SequentialIndicesEncodingMethod::Uncompressed {
        let w = index_width(d.num_points);
        &&& s.len() >= 3 * d.num_faces * w
        &&& forall|i: int, k: int|
            0 <= i < d.num_faces && 0 <= k < 3 ==> #[trigger] faces[i]@[k] == index_at(s, w, 3 * i + k)
    } else {
        &&& compressed_indices(s, 3 * d.num_faces as nat, 0, d.num_points) is Ok
        &&& forall|i: int, k: int|
            0 <= i < d.num_faces && 0 <= k < 3 ==> #[trigger] faces[i]@[k] == compressed_indices(
                s,
                3 * d.num_faces as nat,
                0,
                d.num_points,
            )->Ok_0.0[3 * i + k]
    }
}

/// What the counts and tag at the front of `s` give: the data and the bytes they take, or
/// the error reading them stops at. Counts past `u32::MAX` are `MalformedConnectivity`; an
/// unknown tag is `InvalidHeader`.
pub open spec fn conn_header_of(s: Seq<u8>) -> Result<(SequentialConnectivityData, nat), DecodeError> {
    match varuint_at(s) {
        None => Err(varint_error(s)),
        Some((nf, n1)) => match varuint_at(s.skip(n1 as int)) {
            None => Err(varint_error(s.skip(n1 as int))),
            Some((np, n2)) => {
                if n1 + n2 >= s.len() {
                    Err(DecodeError::Truncated)
                } else if nf > u32::MAX || np > u32::MAX {
                    Err(DecodeError::MalformedConnectivity)
                } else {
                    match index_method_of(s[(n1 + n2) as int]) {
                        None => Err(DecodeError::InvalidHeader),
                        Some(m) => Ok(
                            (
                                SequentialConnectivityData {
                                    num_faces: nf as u32,
                                    num_points: np as u32,
                                    connectivity_method: m,
                                },
                                n1 + n2 + 1,
                            ),
                        ),
                    }
                }
            },
        },
    }
}

/// The bytes taken by the index data `t` under `d`, or the error reading it stops at.
pub open spec fn index_data_result(t: Seq<u8>, d: SequentialConnectivityData) -> Result<nat, DecodeError> {
    if d.connectivity_method == SequentialIndicesEncodingMethod::Uncompressed {
        let w = index_width(d.num_points);
        let n = 3 * d.num_faces * w;
        if t.len() < n {
            Err(DecodeError::Truncated)
        } else if forall|j: int| 0 <= j < 3 * d.num_faces ==> #[trigger] index_at(t, w, j) < d.num_points {
            Ok(n as nat)
        } else {
            Err(DecodeError::MalformedConnectivity)
        }
    } else {
        match compressed_indices(t, 3 * d.num_faces as nat, 0, d.num_points) {
            Ok((_, m)) => Ok(m),
            Err(e) => Err(e),
        }
    }
}

/// What the sequential connectivity section at the front of `s` gives: its data, the bytes
/// of its counts and tag, and the bytes of the whole section; or the error decoding stops at.
pub open spec fn sequential_connectivity_of(s: Seq<u8>) -> Result<(SequentialConnectivityData, nat, nat), DecodeError> {
    match conn_header_of(s) {
        Err(e) => Err(e),
        Ok((d, k)) => match index_data_result(s.skip(k as int), d) {
            Err(e) => Err(e),
            Ok(m) => Ok((d, k, k + m)),
        },
    }
}

impl SequentialConnectivityData {
    /// Reads the face count, the point count (both varints) and the index-coding tag.
    pub fn parse(cur: &mut ByteCursor) -> (r: Result<SequentialConnectivityData, DecodeError>)
        requires
            old(cur).wf(),
        ensures
            final(cur).wf(),
            old(cur).rest().len() == 0 ==> r == Err::<SequentialConnectivityData, DecodeError>(
                DecodeError::Truncated,
            ),
            r matches Ok(d) ==> exists|n1: nat, n2: nat|
                #[trigger] conn_header_at(old(cur).rest(), d, n1, n2) && final(cur).rest()
                    == old(cur).rest().skip((n1 + n2 + 1) as int),
            match conn_header_of(old(cur).rest()) {
                Ok((d, k)) => r == Ok::<SequentialConnectivityData, DecodeError>(d) && final(cur).rest()
                    == old(cur).rest().skip(k as int),
                Err(e) => r == Err::<SequentialConnectivityData, DecodeError>(e),
            },
    {
        let ghost s = cur.rest();
        let nf = cur.read_varuint()?;
        let ghost s1 = cur.rest();
        let np = cur.read_varuint()?;
        let ghost s2 = cur.rest();
        proof {
            let (vf, n1) = varuint_at(s)->Some_0;
            let (vp, n2) = varuint_at(s1)->Some_0;
            assert(s2 =~= s.skip((n1 + n2) as int));
            assert(s2.len() == s.len() - n1 - n2);
        }
        let tag = cur.read_u8()?;
        if nf > u32::MAX as u64 || np > u32::MAX as u64 {
            return Err(DecodeError::MalformedConnectivity);
        }
        match SequentialIndicesEncodingMethod::parse(tag) {
            Some(m) => {
                proof {
                    let n1 = choose|n1: nat|
                        varuint_ends_at(s, n1) && nf == varuint_sum(s, n1) && s1 == s.skip(
                            n1 as int,
                        );
                    let n2 = choose|n2: nat|
                        varuint_ends_at(s1, n2) && np == varuint_sum(s1, n2) && s2 == s1.skip(
                            n2 as int,
                        );
                    assert(s2 =~= s.skip((n1 + n2) as int));
                    assert(s[(n1 + n2) as int] == s2[0]);
                    assert(cur.rest() =~= s.skip((n1 + n2 + 1) as int));
                    assert(s1 == s.skip(n1 as int));
                    assert(varuint_sum(s, n1) == nf && varuint_sum(s.skip(n1 as int), n2) == np);
                    assert(conn_header_at(s, SequentialConnectivityData {
                        num_faces: nf as u32,
                        num_points: np as u32,
                        connectivity_method: m,
                    }, n1, n2));
                }
                proof {
                    let (vf, n1) = varuint_at(s)->Some_0;
                    let (vp, n2) = varuint_at(s1)->Some_0;
                    assert(s[(n1 + n2) as int] == tag);
                }
                Ok(
                    SequentialConnectivityData {
                        num_faces: nf as u32,
                        num_points: np as u32,
                        connectivity_method: m,
                    },
                )
            },
            None => {
                proof {
                    let (vf, n1) = varuint_at(s)->Some_0;
                    let (vp, n2) = varuint_at(s1)->Some_0;
                    assert(s[(n1 + n2) as int] == tag);
                }
                Err(DecodeError::InvalidHeader)
            },
        }
    }
}

/// Reads one index of `w` bytes.
fn read_index(cur: &mut ByteCursor, w: u64) -> (r: u32)
    requires
        old(cur).wf(),
        w == 1 || w == 2 || w == 4,
        old(cur).rest().len() >= w,
    ensures
        final(cur).wf(),
        r == width_value(old(cur).rest(), w as nat),
        final(cur).rest() == old(cur).rest().skip(w as int),
{
    if w == 1 {
        match cur.read_u8() {
            Ok(v) => v as u32,
            Err(_) => 0,
        }
    } else if w == 2 {
        match cur.read_u16_le() {
            Ok(v) => v as u32,
            Err(_) => 0,
        }
    } else {
        match cur.read_u32_le() {
            Ok(v) => v,
            Err(_) => 0,
        }
    }
}

/// Reads `num_faces` uncompressed index triples of `w` bytes per index. `Truncated` when
/// the input is shorter than the whole list (nothing is read then); `MalformedConnectivity`
/// when an index is not below `num_points`.
fn parse_sequential_indices(data: &SequentialConnectivityData, cur: &mut ByteCursor, w: u64) -> (r:
    Result<Vec<[u32; 3]>, DecodeError>)
    requires
        old(cur).wf(),
        w == 1 || w == 2 || w == 4,
    ensures
        final(cur).wf(),
        indices_result(old(cur).rest(), data.num_faces, data.num_points, w as nat, final(cur).rest(), r),
{
    let ghost s = cur.rest();
    let nf = data.num_faces;
    let np = data.num_points;
    let need: u64 = 3 * (nf as u64) * w;
    if (cur.remaining_len() as u64) < need {
        return Err(DecodeError::Truncated);
    }
    let mut faces: Vec<[u32; 3]> = Vec::new();
    let mut i: u32 = 0;
    while i < nf
        invariant
            cur.wf(),
            i <= nf,
            nf == data.num_faces,
            np == data.num_points,
            w == 1 || w == 2 || w == 4,
            need == 3 * nf * w,
            s.len() >= need,
            s == old(cur).rest(),
            cur.rest() == s.skip(3 * i * w),
            faces@.len() == i,
            forall|a: int, k: int|
                0 <= a < i && 0 <= k < 3 ==> #[trigger] faces@[a]@[k] == index_at(s, w as nat, 3 * a + k),
            forall|j: int| 0 <= j < 3 * i ==> #[trigger] index_at(s, w as nat, j) < np,
        decreases nf - i,
    {
        let ghost base = 3 * i * w;
        proof {
            assert(3 * (i + 1) * w <= 3 * nf * w) by (nonlinear_arith)
                requires i + 1 <= nf, w >= 1;
            assert(base + 3 * w == 3 * (i + 1) * w) by (nonlinear_arith)
                requires base == 3 * i * w;
            assert(s.skip(base).len() >= 3 * w);
        }
        let a = read_index(cur, w);
        proof {
            assert(s.skip(base).skip(w as int) =~= s.skip(base + w));
            assert(3 * i * w == (3 * i) * w) by (nonlinear_arith);
        }
        let b = read_index(cur, w);
        proof {
            assert(s.skip(base + w).skip(w as int) =~= s.skip(base + 2 * w));
            assert(base + w == (3 * i + 1) * w) by (nonlinear_arith) requires base == 3 * i * w;
        }
        let c = read_index(cur, w);
        proof {
            assert(s.skip(base + 2 * w).skip(w as int) =~= s.skip(base + 3 * w));
            assert(base + 2 * w == (3 * i + 2) * w) by (nonlinear_arith) requires base == 3 * i * w;
            assert(a == index_at(s, w as nat, 3 * i));
            assert(b == index_at(s, w as nat, 3 * i + 1));
            assert(c == index_at(s, w as nat, 3 * i + 2));
        }
        if a >= np || b >= np || c >= np {
            proof {
                let ww = w as nat;
                assert(s.len() >= 3 * data.num_faces * ww);
                if a >= np {
                    assert(!(index_at(s, ww, 3 * i) < data.num_points));
                } else if b >= np {
                    assert(!(index_at(s, ww, 3 * i + 1) < data.num_points));
                } else {
                    assert(!(index_at(s, ww, 3 * i + 2) < data.num_points));
                }
                assert(!(forall|j: int|
                    0 <= j < 3 * data.num_faces ==> #[trigger] index_at(s, ww, j) < data.num_points));
                assert(!(s.len() < 3 * data.num_faces * ww));
                assert(s == old(cur).rest());
            }
            return Err(DecodeError::MalformedConnectivity);
        }
        let f: [u32; 3] = [a, b, c];
        faces.push(f);
        proof {
            assert(f@[0] == a && f@[1] == b && f@[2] == c);
            assert forall|a2: int, k: int|
                0 <= a2 < i + 1 && 0 <= k < 3 implies #[trigger] faces@[a2]@[k] == index_at(
                s,
                w as nat,
                3 * a2 + k,
            ) by {
                if a2 == i {
                    assert(k == 0 || k == 1 || k == 2);
                }
            }
            assert forall|j: int| 0 <= j < 3 * (i + 1) implies #[trigger] index_at(s, w as nat, j)
                < np by {
                if j >= 3 * i {
                    assert(j == 3 * i || j == 3 * i + 1 || j == 3 * i + 2);
                }
            }
        }
        i = i + 1;
    }
    proof {
        assert forall|a2: int, k: int|
            0 <= a2 < faces@.len() && 0 <= k < 3 implies #[trigger] faces@[a2]@[k] < np by {
            assert(faces@[a2]@[k] == index_at(s, w as nat, 3 * a2 + k));
            assert(3 * a2 + k < 3 * nf);
        }
    }
    Ok(faces)
}

/// Reads the uncompressed index triples, each index `index_width(num_points)` bytes wide.
pub fn decode_sequential_indices(data: &SequentialConnectivityData, cur: &mut ByteCursor) -> (r:
    Result<Vec<[u32; 3]>, DecodeError>)
    requires
        old(cur).wf(),
    ensures
        final(cur).wf(),
        indices_result(
            old(cur).rest(),
            data.num_faces,
            data.num_points,
            index_width(data.num_points),
            final(cur).rest(),
            r,
        ),
{
    if data.num_points < 256 {
        parse_sequential_indices(data, cur, 1)
    } else if data.num_points < 65536 {
        parse_sequential_indices_u16(data, cur)
    } else {
        parse_sequential_indices(data, cur, 4)
    }
}

/// Reads the uncompressed index triples with two little-endian bytes per index.
pub fn parse_sequential_indices_u16(data: &SequentialConnectivityData, cur: &mut ByteCursor) -> (r:
    Result<Vec<[u32; 3]>, DecodeError>)
    requires
        old(cur).wf(),
    ensures
        final(cur).wf(),
        indices_result(old(cur).rest(), data.num_faces, data.num_points, 2, final(cur).rest(), r),
{
    parse_sequential_indices(data, cur, 2)
}

/// Decodes `count` delta-coded indices from the front of `s`: each is a signed varint added
/// to the index before it (0 before the first), and must lie in `0..num_points`. Gives the
/// indices and the number of bytes they take, or the error reading them stops at.
pub open spec fn compressed_indices(s: Seq<u8>, count: nat, last: int, num_points: u32) -> Result<(Seq<u32>, nat), DecodeError>
    decreases count,
{
    if count == 0 {
        Ok((Seq::<u32>::empty(), 0nat))
    } else if exists|n: nat| varint_ends_at(s, n) {
        let n = choose|n: nat| varint_ends_at(s, n);
        let idx = last + varint_value(s, n);
        if 0 <= idx < num_points {
            match compressed_indices(s.skip(n as int), (count - 1) as nat, idx, num_points) {
                Ok((t, m)) => Ok((seq![idx as u32].add(t), n + m)),
                Err(e) => Err(e),
            }
        } else {
            Err(DecodeError::MalformedConnectivity)
        }
    } else {
        Err(varint_error(s))
    }
}

/// Prefixes decoded indices and their byte count to the decode of what follows them.
pub open spec fn after_prefix(out: Seq<u32>, used: nat, r: Result<(Seq<u32>, nat), DecodeError>) -> Result<(Seq<u32>, nat), DecodeError> {
    match r {
        Ok((t, m)) => Ok((out.add(t), used + m)),
        Err(e) => Err(e),
    }
}

/// Reads `3 * num_faces` delta-coded indices (see `compressed_indices`) and groups them
/// into faces. `MalformedConnectivity` or `Truncated` when they cannot be read.
pub fn decode_compressed_indices(data: &SequentialConnectivityData, cur: &mut ByteCursor) -> (r:
    Result<Vec<[u32; 3]>, DecodeError>)
    requires
        old(cur).wf(),
    ensures
        final(cur).wf(),
        compressed_indices(old(cur).rest(), 3 * data.num_faces as nat, 0, data.num_points) matches Err(e)
            ==> r == Err::<Vec<[u32; 3]>, DecodeError>(e),
        r is Ok <==> compressed_indices(old(cur).rest(), 3 * data.num_faces as nat, 0, data.num_points) is Ok,
        r matches Ok(faces) ==> {
            let (t, m) = compressed_indices(old(cur).rest(), 3 * data.num_faces as nat, 0, data.num_points)->Ok_0;
            &&& faces@.len() == data.num_faces
            &&& forall|i: int, k: int|
                0 <= i < data.num_faces && 0 <= k < 3 ==> #[trigger] faces@[i]@[k] == t[3 * i + k]
            &&& faces_in_range(faces@, data.num_points)
            &&& m <= old(cur).rest().len()
            &&& final(cur).rest() == old(cur).rest().skip(m as int)
        },
{
    let ghost s = cur.rest();
    let np = data.num_points;
    let total: u64 = 3 * data.num_faces as u64;
    let ghost whole = compressed_indices(s, total as nat, 0, np);
    let mut flat: Vec<u32> = Vec::new();
    let mut last: u32 = 0;
    let mut k: u64 = 0;
    let ghost mut used: nat = 0;
    proof {
        assert(cur.rest() =~= s.skip(0));
        match whole {
            Ok((t, m)) => {
                assert(Seq::<u32>::empty().add(t) =~= t);
            },
            Err(_) => {},
        }
        assert(whole == after_prefix(flat@, used, compressed_indices(cur.rest(), total as nat, 0, np)));
    }
    while k < total
        invariant
            cur.wf(),
            k <= total,
            total == 3 * data.num_faces,
            np == data.num_points,
            s == old(cur).rest(),
            whole == compressed_indices(s, total as nat, 0, np),
            used <= s.len(),
            cur.rest() == s.skip(used as int),
            flat@.len() == k,
            forall|j: int| 0 <= j < k ==> #[trigger] flat@[j] < np,
            k > 0 ==> last == flat@[k - 1],
            k == 0 ==> last == 0,
            whole == after_prefix(flat@, used, compressed_indices(cur.rest(), (total - k) as nat, last as int, np)),
        decreases total - k,
    {
        let ghost rest = cur.rest();
        let delta = match cur.read_varint() {
            Ok(d) => d,
            Err(e) => {
                proof {
                    assert(!(exists|n: nat| varint_ends_at(rest, n)));
                    assert(compressed_indices(rest, (total - k) as nat, last as int, np) == Err::<(Seq<u32>, nat), DecodeError>(e));
                    assert(whole == Err::<(Seq<u32>, nat), DecodeError>(e));
                }
                return Err(e);
            },
        };
        let ghost n = choose|n: nat| varint_ends_at(rest, n) && delta == varint_value(rest, n)
            && cur.rest() == rest.skip(n as int);
        proof {
            let n2 = choose|n2: nat| varint_ends_at(rest, n2);
            lemma_varint_length_unique(rest, n, n2);
        }
        let idx: i128 = last as i128 + delta as i128;
        if idx < 0 || idx >= np as i128 {
            proof {
                assert(compressed_indices(rest, (total - k) as nat, last as int, np) == Err::<(Seq<u32>, nat), DecodeError>(DecodeError::MalformedConnectivity));
                assert(whole == Err::<(Seq<u32>, nat), DecodeError>(DecodeError::MalformedConnectivity));
            }
            return Err(DecodeError::MalformedConnectivity);
        }
        proof {
            let tail = compressed_indices(rest.skip(n as int), (total - k - 1) as nat, idx as int, np);
            assert(compressed_indices(rest, (total - k) as nat, last as int, np) == match tail {
                Ok((t, m)) => Ok((seq![idx as u32].add(t), n + m)),
                Err(e) => Err(e),
            });
            assert(s.skip(used as int).skip(n as int) =~= s.skip((used + n) as int));
            match tail {
                Ok((t, m)) => {
                    assert(flat@.push(idx as u32).add(t) =~= flat@.add(seq![idx as u32].add(t)));
                },
                Err(_) => {},
            }
        }
        flat.push(idx as u32);
        last = idx as u32;
        k = k + 1;
        proof {
            used = used + n;
        }
    }
    proof {
        assert(compressed_indices(cur.rest(), 0, last as int, np) == Ok::<(Seq<u32>, nat), DecodeError>((Seq::<u32>::empty(), 0nat)));
        assert(flat@.add(Seq::<u32>::empty()) =~= flat@);
    }
    let nf = data.num_faces as usize;
    let flen = flat.len();
    let mut faces: Vec<[u32; 3]> = Vec::new();
    let mut i: usize = 0;
    while i < nf
        invariant
            i <= nf,
            nf == data.num_faces,
            flat@.len() == 3 * nf,
            flat@.len() == flen,
            faces@.len() == i,
            forall|j: int| 0 <= j < flat@.len() ==> #[trigger] flat@[j] < np,
            forall|a: int, b: int| 0 <= a < i && 0 <= b < 3 ==> #[trigger] faces@[a]@[b] == flat@[3 * a + b],
        decreases nf - i,
    {
        let f: [u32; 3] = [flat[3 * i], flat[3 * i + 1], flat[3 * i + 2]];
        faces.push(f);
        proof {
            assert(f@[0] == flat@[3 * i as int] && f@[1] == flat@[3 * i + 1] && f@[2] == flat@[3 * i + 2]);
            assert forall|a: int, b: int| 0 <= a < i + 1 && 0 <= b < 3 implies #[trigger] faces@[a]@[b] == flat@[3 * a + b] by {
                if a == i {
                    assert(b == 0 || b == 1 || b == 2);
                }
            }
        }
        i = i + 1;
    }
    proof {
        assert forall|a: int, b: int| 0 <= a < faces@.len() && 0 <= b < 3 implies #[trigger] faces@[a]@[b] < np by {
            assert(faces@[a]@[b] == flat@[3 * a + b]);
        }
    }
    Ok(faces)
}

/// Decoding uncompressed indices is deterministic: the same bytes give the same outcome
/// and, on success, the same faces, every index of which is below `num_points`.
pub proof fn lemma_uncompressed_deterministic(
    s: Seq<u8>,
    num_faces: u32,
    num_points: u32,
    w: nat,
    rest1: Seq<u8>,
    rest2: Seq<u8>,
    r1: Result<Vec<[u32; 3]>, DecodeError>,
    r2: Result<Vec<[u32; 3]>, DecodeError>,
)
    requires
        indices_result(s, num_faces, num_points, w, rest1, r1),
        indices_result(s, num_faces, num_points, w, rest2, r2),
    ensures
        r1 is Ok <==> r2 is Ok,
        r1 is Ok ==> {
            let f1 = r1->Ok_0@;
            let f2 = r2->Ok_0@;
            &&& f1.len() == f2.len()
            &&& forall|i: int, k: int| 0 <= i < f1.len() && 0 <= k < 3 ==> #[trigger] f1[i]@[k] == f2[i]@[k]
            &&& faces_in_range(f1, num_points)
            &&& rest1 == rest2
        },
{
    if r1 is Ok {
        let f1 = r1->Ok_0@;
        let f2 = r2->Ok_0@;
        assert forall|i: int, k: int| 0 <= i < f1.len() && 0 <= k < 3 implies #[trigger] f1[i]@[k] == f2[i]@[k] by {
            assert(f1[i]@[k] == index_at(s, w, 3 * i + k));
            assert(f2[i]@[k] == index_at(s, w, 3 * i + k));
        }
    }
}

proof fn lemma_varuint_sum_prefix(s: Seq<u8>, t: Seq<u8>, n: nat)
    requires
        n <= s.len(),
        n <= t.len(),
        forall|i: int| 0 <= i < n ==> s[i] == t[i],
    ensures
        varuint_sum(s, n) == varuint_sum(t, n),
    decreases n,
{
    if n > 0 {
        assert forall|i: int| 0 <= i < n - 1 implies s.drop_first()[i] == t.drop_first()[i] by {
            assert(s[i + 1] == t[i + 1]);
        }
        lemma_varuint_sum_prefix(s.drop_first(), t.drop_first(), (n - 1) as nat);
    }
}

/// A varint read from a prefix `s` of `t`: the same as from `t` when it fits, else a
/// truncated one.
proof fn lemma_varuint_prefix(t: Seq<u8>, s: Seq<u8>, n: nat)
    requires
        s.len() <= t.len(),
        s == t.take(s.len() as int),
        varuint_ends_at(t, n),
    ensures
        s.len() >= n ==> varuint_at(s) == varuint_at(t),
        s.len() < n ==> varuint_at(s) is None && varint_error(s) == DecodeError::Truncated,
{
    assert(varuint_at(t) == Some((varuint_sum(t, n), n))) by {
        let m = choose|m: nat| varuint_ends_at(t, m);
        lemma_varuint_length_unique(t, n, m);
    }
    if s.len() >= n {
        assert(varuint_ends_at(s, n));
        let m = choose|m: nat| varuint_ends_at(s, m);
        lemma_varuint_length_unique(s, n, m);
        lemma_varuint_sum_prefix(s, t, n);
    } else {
        assert forall|m: nat| !varuint_ends_at(s, m) by {
            if varuint_ends_at(s, m) {
                assert(s[m - 1] == t[m - 1]);
            }
        }
        assert forall|i: int| 0 <= i < s.len() implies s[i] >= 128 by {
            assert(s[i] == t[i]);
        }
    }
}

/// Input cut short is `Truncated`: every strict prefix of a well-formed sequential
/// connectivity section with uncompressed indices fails with `Truncated`.
pub proof fn lemma_strict_prefix_truncated(t: Seq<u8>, s: Seq<u8>)
    requires
        sequential_connectivity_of(t) is Ok,
        sequential_connectivity_of(t)->Ok_0.0.connectivity_method == SequentialIndicesEncodingMethod::Uncompressed,
        s.len() < sequential_connectivity_of(t)->Ok_0.2,
        s.len() <= t.len(),
        s == t.take(s.len() as int),
    ensures
        sequential_connectivity_of(s) == Err::<(SequentialConnectivityData, nat, nat), DecodeError>(
            DecodeError::Truncated,
        ),
{
    let (d, k, total) = sequential_connectivity_of(t)->Ok_0;
    let (nf, n1) = varuint_at(t)->Some_0;
    let n1w = choose|m: nat| varuint_ends_at(t, m);
    assert(varuint_ends_at(t, n1w));
    lemma_varuint_prefix(t, s, n1w);
    if s.len() >= n1w {
        let t1 = t.skip(n1 as int);
        let s1 = s.skip(n1 as int);
        let (np, n2) = varuint_at(t1)->Some_0;
        let n2w = choose|m: nat| varuint_ends_at(t1, m);
        assert(varuint_ends_at(t1, n2w));
        assert(s1 =~= t1.take(s1.len() as int));
        lemma_varuint_prefix(t1, s1, n2w);
        if s1.len() >= n2w {
            if n1 + n2 < s.len() {
                assert(s[(n1 + n2) as int] == t[(n1 + n2) as int]);
                assert(conn_header_of(s) == conn_header_of(t));
                let w = index_width(d.num_points);
                assert(s.skip(k as int).len() < 3 * d.num_faces * w);
            }
        }
    }
}

} // verus!

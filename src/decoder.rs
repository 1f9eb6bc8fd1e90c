use crate::connectivity::{
    decode_compressed_indices, decode_sequential_indices, faces_from, faces_in_range,
    sequential_connectivity_of, SequentialConnectivityData, SequentialIndicesEncodingMethod,
};
use crate::cursor::ByteCursor;
use crate::error::DecodeError;
use crate::header::{header_of, EncoderMethod, Header};
use vstd::prelude::*;

verus! {

/// What decoding the sequential connectivity section at the front of `s` returns, with
/// `rest` the input left afterwards: exactly `sequential_connectivity_of(s)`.
pub open spec fn connectivity_decoded(
    s: Seq<u8>,
    rest: Seq<u8>,
    r: Result<(Vec<[u32; 3]>, SequentialConnectivityData), DecodeError>,
) -> bool {
    match sequential_connectivity_of(s) {
        Ok((d, k, m)) => {
            &&& r is Ok
            &&& r->Ok_0.1 == d
            &&& faces_from(s.skip(k as int), d, r->Ok_0.0@)
            &&& rest == s.skip(m as int)
        },
        Err(e) => r == Err::<(Vec<[u32; 3]>, SequentialConnectivityData), DecodeError>(e),
    }
}

/// Decodes the sequential connectivity section: the counts and index coding, then the
/// index triples, compressed or not.
pub fn decode_sequential_connectivity_data(cur: &mut ByteCursor) -> (r: Result<
    (Vec<[u32; 3]>, SequentialConnectivityData),
    DecodeError,
>)
    requires
        old(cur).wf(),
    ensures
        final(cur).wf(),
        connectivity_decoded(old(cur).rest(), final(cur).rest(), r),
{
    let ghost s = cur.rest();
    let data = SequentialConnectivityData::parse(cur)?;
    let ghost t = cur.rest();
    let faces = if data.connectivity_method == SequentialIndicesEncodingMethod::Compressed {
        decode_compressed_indices(&data, cur)?
    } else {
        decode_sequential_indices(&data, cur)?
    };
    proof {
        let (d, k) = crate::connectivity::conn_header_of(s)->Ok_0;
        let m = crate::connectivity::index_data_result(t, d)->Ok_0;
        assert(k <= s.len());
        assert(t == s.skip(k as int));
        assert(m <= t.len());
        assert(t.skip(m as int) =~= s.skip((k + m) as int));
    }
    Ok((faces, data))
}

/// Decodes the connectivity section that follows the header. Only the sequential method
/// is decoded; the Edgebreaker symbol stream fails with `MalformedConnectivity`.
pub fn decode_connectivity_data(header: &Header, cur: &mut ByteCursor) -> (r: Result<
    (Vec<[u32; 3]>, SequentialConnectivityData),
    DecodeError,
>)
    requires
        old(cur).wf(),
    ensures
        final(cur).wf(),
        header.encoder_method == EncoderMethod::MeshEdgebreaker ==> r == Err::<
            (Vec<[u32; 3]>, SequentialConnectivityData),
            DecodeError,
        >(DecodeError::MalformedConnectivity),
        header.encoder_method == EncoderMethod::MeshSequential ==> connectivity_decoded(
            old(cur).rest(),
            final(cur).rest(),
            r,
        ),
{
    if header.encoder_method == EncoderMethod::MeshEdgebreaker {
        return Err(DecodeError::MalformedConnectivity);
    }
    decode_sequential_connectivity_data(cur)
}

/// The face list of a mesh over the points `0..num_points`.
pub struct MeshConnectivity {
    pub faces: Vec<[u32; 3]>,
    pub num_points: u32,
}

/// What decoding a whole container `b` up to the end of its connectivity gives: the
/// connectivity data, and where in `b` the index data starts and the section ends; or the
/// error decoding stops at.
pub open spec fn mesh_connectivity_of(b: Seq<u8>) -> Result<(SequentialConnectivityData, nat, nat), DecodeError> {
    if b.len() < 11 {
        Err(DecodeError::Truncated)
    } else {
        match header_of(b) {
            None => Err(DecodeError::InvalidHeader),
            Some(h) => {
                if h.encoder_method == EncoderMethod::MeshEdgebreaker {
                    Err(DecodeError::MalformedConnectivity)
                } else {
                    match sequential_connectivity_of(b.skip(11)) {
                        Ok((d, k, m)) => Ok((d, 11 + k, 11 + m)),
                        Err(e) => Err(e),
                    }
                }
            },
        }
    }
}

/// Decodes the header and the connectivity of a whole container.
pub fn decode_mesh_connectivity(bytes: Vec<u8>) -> (r: Result<MeshConnectivity, DecodeError>)
    ensures
        r matches Ok(m) ==> faces_in_range(m.faces@, m.num_points),
        match mesh_connectivity_of(bytes@) {
            Ok((d, k, _)) => {
                &&& r is Ok
                &&& r->Ok_0.num_points == d.num_points
                &&& faces_from(bytes@.skip(k as int), d, r->Ok_0.faces@)
            },
            Err(e) => r == Err::<MeshConnectivity, DecodeError>(e),
        },
{
    let ghost b = bytes@;
    let mut cur = ByteCursor::new(bytes);
    let header = Header::parse(&mut cur)?;
    let (faces, data) = decode_connectivity_data(&header, &mut cur)?;
    proof {
        let (d, k, m) = sequential_connectivity_of(b.skip(11))->Ok_0;
        assert(b.skip(11).skip(k as int) =~= b.skip((11 + k) as int));
    }
    Ok(MeshConnectivity { faces, num_points: data.num_points })
}

/// Decoding connectivity is deterministic: two decodes of the same bytes give the same
/// outcome, the same connectivity data and faces, and leave the same input behind.
pub proof fn lemma_connectivity_deterministic(
    s: Seq<u8>,
    rest1: Seq<u8>,
    rest2: Seq<u8>,
    r1: Result<(Vec<[u32; 3]>, SequentialConnectivityData), DecodeError>,
    r2: Result<(Vec<[u32; 3]>, SequentialConnectivityData), DecodeError>,
)
    requires
        connectivity_decoded(s, rest1, r1),
        connectivity_decoded(s, rest2, r2),
    ensures
        r1 is Err ==> r1 == r2,
        r1 is Ok ==> {
            let (f1, d1) = r1->Ok_0;
            let (f2, d2) = r2->Ok_0;
            &&& r2 is Ok
            &&& d1 == d2
            &&& f1@.len() == f2@.len()
            &&& forall|i: int, k: int| 0 <= i < f1@.len() && 0 <= k < 3 ==> #[trigger] f1@[i]@[k] == f2@[i]@[k]
            &&& faces_in_range(f1@, d1.num_points)
            &&& rest1 == rest2
        },
{
    if r1 is Ok {
        let (d, k, m) = sequential_connectivity_of(s)->Ok_0;
        let f1 = r1->Ok_0.0@;
        let f2 = r2->Ok_0.0@;
        assert forall|i: int, k2: int| 0 <= i < f1.len() && 0 <= k2 < 3 implies #[trigger] f1[i]@[k2] == f2[i]@[k2] by {
            assert(f1[i]@[k2] == f2[i]@[k2]);
        }
    }
}

} // verus!

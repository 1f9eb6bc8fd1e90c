use mesh_decoder::attributes::{decode_attribute_data, Attribute, AttributeDecodersData};
use mesh_decoder::connectivity::{SequentialConnectivityData, SequentialIndicesEncodingMethod};
use mesh_decoder::corner_table::CornerTable;
use mesh_decoder::cursor::{bytes_to_u16, ByteCursor};
use mesh_decoder::decoder::decode_mesh_connectivity;
use mesh_decoder::error::DecodeError;
use mesh_decoder::header::{EncoderMethod, Header};
use mesh_decoder::prediction::{
    component_residuals, decode_attribute_components, decode_attribute_values, delta_residual,
    parallelogram_predict, reconstruct, PredictionScheme,
};
use mesh_decoder::sequencer::{corner_traversal_sequence, sequential_generate_sequence};

fn header_bytes(method: u8) -> Vec<u8> {
    let mut v = b"DRACO".to_vec();
    v.extend_from_slice(&[1, 0, 0, method, 0, 0]);
    v
}

#[test]
fn one_face_with_byte_indices() {
    let mut bytes = header_bytes(0);
    bytes.extend_from_slice(&[1, 3, 1, 0, 1, 2]);
    let mesh = decode_mesh_connectivity(bytes).unwrap();
    assert_eq!(mesh.faces, vec![[0, 1, 2]]);
    assert_eq!(mesh.num_points, 3);
}

#[test]
fn two_byte_indices_when_points_reach_256() {
    let mut bytes = header_bytes(0);
    // num_faces = 1, num_points = 300 (varint 0xac 0x02), uncompressed
    bytes.extend_from_slice(&[1, 0xac, 0x02, 1, 0, 0, 1, 0, 0x2b, 0x01]);
    let mesh = decode_mesh_connectivity(bytes).unwrap();
    assert_eq!(mesh.faces, vec![[0, 1, 299]]);
    assert_eq!(mesh.num_points, 300);
}

#[test]
fn four_byte_indices_past_65535_points() {
    let mut bytes = header_bytes(0);
    // num_points = 70000 = varint 0xf0 0xa2 0x04
    bytes.extend_from_slice(&[1, 0xf0, 0xa2, 0x04, 1]);
    bytes.extend_from_slice(&[0, 0, 0, 0, 1, 0, 0, 0, 0x6f, 0x11, 0x01, 0]);
    let mesh = decode_mesh_connectivity(bytes).unwrap();
    assert_eq!(mesh.faces, vec![[0, 1, 69999]]);
}

#[test]
fn bad_magic_is_invalid_header() {
    let mut bytes = b"DRAC0".to_vec();
    bytes.extend_from_slice(&[1, 0, 0, 0, 0, 0, 1, 3, 1, 0, 1, 2]);
    assert!(matches!(decode_mesh_connectivity(bytes), Err(DecodeError::InvalidHeader)));
}

#[test]
fn unknown_method_is_invalid_header() {
    let mut bytes = header_bytes(7);
    bytes.extend_from_slice(&[1, 3, 1, 0, 1, 2]);
    assert!(matches!(decode_mesh_connectivity(bytes), Err(DecodeError::InvalidHeader)));
}

#[test]
fn header_only_is_truncated() {
    assert!(matches!(decode_mesh_connectivity(header_bytes(0)), Err(DecodeError::Truncated)));
}

#[test]
fn short_header_is_truncated() {
    assert!(matches!(decode_mesh_connectivity(b"DRACO".to_vec()), Err(DecodeError::Truncated)));
}

#[test]
fn missing_index_bytes_are_truncated() {
    let mut bytes = header_bytes(0);
    bytes.extend_from_slice(&[2, 3, 1, 0, 1, 2, 0]);
    assert!(matches!(decode_mesh_connectivity(bytes), Err(DecodeError::Truncated)));
}

#[test]
fn index_past_point_count_is_malformed() {
    let mut bytes = header_bytes(0);
    bytes.extend_from_slice(&[1, 3, 1, 0, 1, 3]);
    assert!(matches!(
        decode_mesh_connectivity(bytes),
        Err(DecodeError::MalformedConnectivity)
    ));
}

#[test]
fn unknown_index_coding_is_invalid_header() {
    let mut bytes = header_bytes(0);
    bytes.extend_from_slice(&[1, 3, 9, 0, 1, 2]);
    assert!(matches!(decode_mesh_connectivity(bytes), Err(DecodeError::InvalidHeader)));
}

#[test]
fn decoding_is_deterministic() {
    let mut bytes = header_bytes(0);
    bytes.extend_from_slice(&[2, 4, 1, 0, 1, 2, 2, 1, 3]);
    let a = decode_mesh_connectivity(bytes.clone()).unwrap();
    let b = decode_mesh_connectivity(bytes).unwrap();
    assert_eq!(a.faces, b.faces);
    for f in &a.faces {
        for &i in f {
            assert!(i < a.num_points);
        }
    }
}

#[test]
fn header_fields() {
    let mut bytes = b"DRACO".to_vec();
    bytes.extend_from_slice(&[2, 3, 1, 1, 0x34, 0x12]);
    let mut cur = ByteCursor::new(bytes);
    let h = Header::parse(&mut cur).unwrap();
    assert_eq!(h.major_version, 2);
    assert_eq!(h.minor_version, 3);
    assert_eq!(h.encoder_type, 1);
    assert_eq!(h.encoder_method, EncoderMethod::MeshEdgebreaker);
    assert_eq!(h.flags, 0x1234);
    assert_eq!(cur.remaining_len(), 0);
}

#[test]
fn little_endian_pairs() {
    assert_eq!(bytes_to_u16(0x2c, 0x01), 300);
    assert_eq!(bytes_to_u16(0xff, 0xff), 65535);
}

#[test]
fn varint_values() {
    let mut cur = ByteCursor::new(vec![0xe5, 0x8e, 0x26, 0x7f]);
    assert_eq!(cur.read_varuint(), Ok(624485));
    assert_eq!(cur.read_varuint(), Ok(127));
    assert_eq!(cur.read_varuint(), Err(DecodeError::Truncated));
}

#[test]
fn varint_largest() {
    let mut bytes = vec![0xff; 9];
    bytes.push(0x01);
    let mut cur = ByteCursor::new(bytes);
    assert_eq!(cur.read_varuint(), Ok(u64::MAX));
    assert_eq!(cur.remaining_len(), 0);
}

#[test]
fn varint_errors() {
    let mut cur = ByteCursor::new(vec![0x80, 0x80]);
    assert_eq!(cur.read_varuint(), Err(DecodeError::Truncated));
    assert_eq!(cur.remaining_len(), 2);
    let mut bytes = vec![0xff; 9];
    bytes.push(0x02);
    let mut cur = ByteCursor::new(bytes);
    assert_eq!(cur.read_varuint(), Err(DecodeError::MalformedConnectivity));
}

#[test]
fn fixed_width_reads() {
    let mut cur = ByteCursor::new(vec![7, 0x34, 0x12, 0x78, 0x56, 0x34, 0x12, 9]);
    assert_eq!(cur.read_u8(), Ok(7));
    assert_eq!(cur.read_u16_le(), Ok(0x1234));
    assert_eq!(cur.read_u32_le(), Ok(0x12345678));
    assert_eq!(cur.read_u16_le(), Err(DecodeError::Truncated));
    assert_eq!(cur.read_u8(), Ok(9));
    assert_eq!(cur.read_u8(), Err(DecodeError::Truncated));
}

#[test]
fn connectivity_counts() {
    let mut cur = ByteCursor::new(vec![0x81, 0x01, 5, 1]);
    let d = SequentialConnectivityData::parse(&mut cur).unwrap();
    assert_eq!(d.num_faces, 129);
    assert_eq!(d.num_points, 5);
    assert_eq!(d.connectivity_method, SequentialIndicesEncodingMethod::Uncompressed);
}

#[test]
fn shared_edge_corners_are_opposite() {
    let faces = vec![[0u32, 1, 2], [2, 1, 3]];
    let t = CornerTable::new(&faces);
    assert_eq!(t.num_corners(), 6);
    assert_eq!(t.point(4), 1);
    assert_eq!(t.opposite(0), Some(5));
    assert_eq!(t.opposite(5), Some(0));
    for c in [1, 2, 3, 4] {
        assert_eq!(t.opposite(c), None);
    }
    assert_eq!(t.next(2), 0);
    assert_eq!(t.prev(3), 5);
}

#[test]
fn opposites_are_symmetric() {
    let faces = vec![[0u32, 1, 2], [2, 1, 3], [0, 2, 4], [4, 2, 3]];
    let t = CornerTable::new(&faces);
    for c in 0..t.num_corners() {
        if let Some(o) = t.opposite(c) {
            assert_eq!(t.opposite(o), Some(c));
        }
    }
}

#[test]
fn sequential_order_is_identity() {
    let s = sequential_generate_sequence(5);
    assert_eq!(s, vec![0, 1, 2, 3, 4]);
    assert!(sequential_generate_sequence(0).is_empty());
}

#[test]
fn corner_walk_order() {
    let faces = vec![[2u32, 0, 1], [1, 0, 3]];
    let t = CornerTable::new(&faces);
    assert_eq!(corner_traversal_sequence(&t, 4), Ok(vec![2, 0, 1, 3]));
    assert_eq!(corner_traversal_sequence(&t, 3), Err(DecodeError::MalformedConnectivity));
}

#[test]
fn delta_round_trip() {
    assert_eq!(reconstruct(10, 5), 15);
    assert_eq!(reconstruct(10, -25), -15);
    assert_eq!(reconstruct(i32::MAX, 1), i32::MIN);
    let r = delta_residual(40, 7);
    assert_eq!(r, -33);
    assert_eq!(reconstruct(40, r), 7);
    assert_eq!(reconstruct(i32::MIN, delta_residual(i32::MIN, i32::MAX)), i32::MAX);
}

#[test]
fn parallelogram_rule() {
    assert_eq!(parallelogram_predict(3, 4, 1), 6);
    assert_eq!(parallelogram_predict(-5, 2, 10), -13);
    assert_eq!(parallelogram_predict(i32::MAX, 1, 0), i32::MIN);
}

#[test]
fn delta_decoding_along_sequence() {
    let t = CornerTable::new(&vec![[0u32, 1, 2]]);
    let seq = vec![0u32, 1, 2];
    let out = decode_attribute_values(PredictionScheme::Delta, &t, &seq, 3, &vec![5, 1, -2]).unwrap();
    assert_eq!(out, vec![5, 6, 4]);
    let out = decode_attribute_values(PredictionScheme::NoPrediction, &t, &seq, 3, &vec![5, 1, -2])
        .unwrap();
    assert_eq!(out, vec![5, 1, -2]);
}

#[test]
fn delta_decoding_scatters_by_sequence() {
    let t = CornerTable::new(&vec![[0u32, 1, 2]]);
    let seq = vec![2u32, 0];
    let out = decode_attribute_values(PredictionScheme::Delta, &t, &seq, 3, &vec![4, 3]).unwrap();
    assert_eq!(out, vec![7, 0, 4]);
}

#[test]
fn parallelogram_decoding_uses_opposite_face() {
    // Square 0-1-3-2 split along 1-2; point 3 is across the edge from point 0.
    let t = CornerTable::new(&vec![[0u32, 1, 2], [2, 1, 3]]);
    let seq = vec![0u32, 1, 2, 3];
    let res = vec![10, 5, 7, 1];
    let out = decode_attribute_values(PredictionScheme::Parallelogram, &t, &seq, 4, &res).unwrap();
    // 10, 10+5, 15+7, then 15 + 22 - 10 + 1
    assert_eq!(out, vec![10, 15, 22, 28]);
    let multi = decode_attribute_values(PredictionScheme::MultiParallelogram, &t, &seq, 4, &res).unwrap();
    assert_eq!(multi, vec![10, 15, 22, 28]);
}

#[test]
fn boundary_falls_back_to_delta() {
    let t = CornerTable::new(&vec![[0u32, 1, 2]]);
    let seq = vec![0u32, 1, 2];
    let res = vec![3, 4, -1];
    let pg = decode_attribute_values(PredictionScheme::Parallelogram, &t, &seq, 3, &res).unwrap();
    let delta = decode_attribute_values(PredictionScheme::Delta, &t, &seq, 3, &res).unwrap();
    assert_eq!(pg, delta);
}

#[test]
fn decode_errors() {
    let t = CornerTable::new(&vec![[0u32, 1, 2]]);
    assert_eq!(
        decode_attribute_values(PredictionScheme::Delta, &t, &vec![0, 1], 3, &vec![1]),
        Err(DecodeError::Truncated)
    );
    assert_eq!(
        decode_attribute_values(PredictionScheme::Delta, &t, &vec![0, 0], 3, &vec![1, 2]),
        Err(DecodeError::SequencingInconsistent)
    );
    assert_eq!(
        decode_attribute_values(PredictionScheme::Delta, &t, &vec![0], 2, &vec![1]),
        Err(DecodeError::MalformedConnectivity)
    );
}

#[test]
fn scheme_selectors() {
    assert_eq!(PredictionScheme::parse(0, false), Ok(PredictionScheme::Delta));
    assert_eq!(PredictionScheme::parse(0xfe, false), Ok(PredictionScheme::NoPrediction));
    assert_eq!(PredictionScheme::parse(1, true), Ok(PredictionScheme::Parallelogram));
    assert_eq!(PredictionScheme::parse(2, true), Ok(PredictionScheme::MultiParallelogram));
    assert_eq!(PredictionScheme::parse(9, true), Err(DecodeError::UnknownPredictionScheme));
    assert_eq!(PredictionScheme::parse(1, false), Err(DecodeError::PredictionRequiresTopology));
}

#[test]
fn attribute_descriptor() {
    let mut cur = ByteCursor::new(vec![0, 9, 3, 0, 0x81, 0x02, 0xaa]);
    let a: Attribute = Attribute::parse(&mut cur).unwrap();
    assert_eq!(a.att_type, 0);
    assert_eq!(a.data_type, 9);
    assert_eq!(a.num_components, 3);
    assert_eq!(a.normalized, 0);
    assert_eq!(a.dec_unique_id, 257);
    assert_eq!(cur.remaining_len(), 1);
}

#[test]
fn attribute_section() {
    let h = Header {
        major_version: 2,
        minor_version: 2,
        encoder_type: 1,
        encoder_method: EncoderMethod::MeshSequential,
        flags: 0,
    };
    // one group of two attributes, then their method tags, then two selectors
    let bytes = vec![1, 2, 0, 9, 3, 0, 0, 1, 9, 2, 0, 1, 0, 0, 0, 0xfe];
    let mut cur = ByteCursor::new(bytes.clone());
    let d = AttributeDecodersData::parse(&h, &mut cur).unwrap();
    assert!(d.attribute_decoders.is_none());
    assert_eq!(d.attributes.len(), 1);
    assert_eq!(d.attributes[0].attributes.len(), 2);
    assert_eq!(d.attributes[0].attributes[1].dec_unique_id, 1);
    assert_eq!(d.attributes[0].decoded_types, vec![0, 0]);

    let t = CornerTable::new(&vec![[0u32, 1, 2]]);
    let mut cur = ByteCursor::new(bytes);
    let l = decode_attribute_data(&h, 3, &t, &mut cur).unwrap();
    assert_eq!(l.sequences, vec![vec![0, 1, 2]]);
    assert_eq!(l.schemes, vec![vec![PredictionScheme::Delta, PredictionScheme::NoPrediction]]);
}

#[test]
fn parallelogram_needs_edgebreaker() {
    let h = Header {
        major_version: 2,
        minor_version: 2,
        encoder_type: 1,
        encoder_method: EncoderMethod::MeshSequential,
        flags: 0,
    };
    let bytes = vec![1, 1, 0, 9, 3, 0, 0, 0, 1];
    let t = CornerTable::new(&vec![[0u32, 1, 2]]);
    let mut cur = ByteCursor::new(bytes);
    assert!(matches!(
        decode_attribute_data(&h, 3, &t, &mut cur),
        Err(DecodeError::PredictionRequiresTopology)
    ));
}

#[test]
fn compressed_indices_are_delta_coded() {
    let mut bytes = header_bytes(0);
    // two faces over four points; deltas 0,+1,+1 then 0,-1,+2 as signed varints
    bytes.extend_from_slice(&[2, 4, 0, 0x00, 0x01, 0x01, 0x00, 0x7f, 0x02]);
    let mesh = decode_mesh_connectivity(bytes).unwrap();
    assert_eq!(mesh.faces, vec![[0, 1, 2], [2, 1, 3]]);
}

#[test]
fn compressed_multi_byte_delta() {
    let mut bytes = header_bytes(0);
    // num_points = 300; deltas +299 (0xab 0x02), -150 (0xea 0x7e), -149 (0xeb 0x7e)
    bytes.extend_from_slice(&[1, 0xac, 0x02, 0, 0xab, 0x02, 0xea, 0x7e, 0xeb, 0x7e]);
    let mesh = decode_mesh_connectivity(bytes).unwrap();
    assert_eq!(mesh.faces, vec![[299, 149, 0]]);
}

#[test]
fn compressed_index_out_of_range() {
    let mut bytes = header_bytes(0);
    bytes.extend_from_slice(&[1, 3, 0, 0x00, 0x03, 0x01]);
    assert!(matches!(
        decode_mesh_connectivity(bytes),
        Err(DecodeError::MalformedConnectivity)
    ));
    let mut bytes = header_bytes(0);
    bytes.extend_from_slice(&[1, 3, 0, 0x7f, 0x01, 0x01]);
    assert!(matches!(
        decode_mesh_connectivity(bytes),
        Err(DecodeError::MalformedConnectivity)
    ));
}

#[test]
fn compressed_truncated() {
    let mut bytes = header_bytes(0);
    bytes.extend_from_slice(&[1, 3, 0, 0x00, 0x01]);
    assert!(matches!(decode_mesh_connectivity(bytes), Err(DecodeError::Truncated)));
}

#[test]
fn signed_varint_values() {
    let mut cur = ByteCursor::new(vec![0x7f, 0xc0, 0xbb, 0x78, 0x02, 0x80]);
    assert_eq!(cur.read_varint(), Ok(-1));
    assert_eq!(cur.read_varint(), Ok(-123456));
    assert_eq!(cur.read_varint(), Ok(2));
    assert_eq!(cur.read_varint(), Err(DecodeError::Truncated));
}

#[test]
fn edgebreaker_stream_is_not_decoded() {
    let mut bytes = header_bytes(1);
    bytes.extend_from_slice(&[1, 3, 1, 0, 1, 2]);
    assert!(matches!(
        decode_mesh_connectivity(bytes),
        Err(DecodeError::MalformedConnectivity)
    ));
}

#[test]
fn interleaved_components() {
    let res = vec![1, 10, 2, 20, 3, 30];
    assert_eq!(component_residuals(&res, 2, 1, 3), vec![10, 20, 30]);
    let t = CornerTable::new(&vec![[0u32, 1, 2]]);
    let seq = vec![0u32, 1, 2];
    let out = decode_attribute_components(PredictionScheme::Delta, &t, &seq, 3, 2, &res).unwrap();
    assert_eq!(out, vec![vec![1, 3, 6], vec![10, 30, 60]]);
    assert_eq!(
        decode_attribute_components(PredictionScheme::Delta, &t, &seq, 3, 3, &res),
        Err(DecodeError::Truncated)
    );
}

#[test]
fn every_strict_prefix_is_truncated() {
    let mut bytes = header_bytes(0);
    bytes.extend_from_slice(&[1, 0xac, 0x02, 1, 0, 0, 1, 0, 0x2b, 0x01]);
    for len in 11..bytes.len() {
        assert!(matches!(
            decode_mesh_connectivity(bytes[..len].to_vec()),
            Err(DecodeError::Truncated)
        ));
    }
}

#[test]
fn cursor_ends_after_connectivity() {
    let h = Header {
        major_version: 1,
        minor_version: 0,
        encoder_type: 0,
        encoder_method: EncoderMethod::MeshSequential,
        flags: 0,
    };
    let mut cur = ByteCursor::new(vec![1, 3, 1, 0, 1, 2, 0xaa, 0xbb]);
    let (faces, d) = mesh_decoder::decoder::decode_connectivity_data(&h, &mut cur).unwrap();
    assert_eq!(faces, vec![[0, 1, 2]]);
    assert_eq!(d.num_points, 3);
    assert_eq!(cur.remaining_len(), 2);
}

#[test]
fn attribute_section_errors() {
    let h = Header {
        major_version: 2,
        minor_version: 2,
        encoder_type: 1,
        encoder_method: EncoderMethod::MeshSequential,
        flags: 0,
    };
    let t = CornerTable::new(&vec![[0u32, 1, 2]]);
    let mut cur = ByteCursor::new(vec![1, 1, 0, 9, 3, 0, 0, 0, 7]);
    assert!(matches!(
        decode_attribute_data(&h, 3, &t, &mut cur),
        Err(DecodeError::UnknownPredictionScheme)
    ));
    let mut cur = ByteCursor::new(vec![1, 1, 0, 9, 3]);
    assert!(matches!(
        decode_attribute_data(&h, 3, &t, &mut cur),
        Err(DecodeError::Truncated)
    ));
    let mut cur = ByteCursor::new(vec![1, 1, 0, 9, 3, 0, 0, 0]);
    assert!(matches!(
        decode_attribute_data(&h, 3, &t, &mut cur),
        Err(DecodeError::Truncated)
    ));
}

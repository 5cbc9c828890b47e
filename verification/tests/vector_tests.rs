use randdb::vector::{decode_embedding, encode_embedding};

fn bits(values: &[f32]) -> Vec<u32> {
    values.iter().map(|value| value.to_bits()).collect()
}

#[test]
fn round_trips_embedding_bytes() {
    let embedding = vec![0.25f32, -1.0, 3.5];

    assert_eq!(
        decode_embedding(&encode_embedding(&bits(&embedding))),
        Some(bits(&embedding))
    );
}

#[test]
fn encodes_components_as_little_endian_bytes() {
    let embedding = vec![1.0f32, -2.5];
    let mut expected = Vec::new();
    for value in &embedding {
        expected.extend_from_slice(&value.to_le_bytes());
    }

    assert_eq!(encode_embedding(&bits(&embedding)), expected);
    assert_eq!(encode_embedding(&[0x0403_0201]), vec![1, 2, 3, 4]);
}

#[test]
fn decoding_rejects_a_partial_component() {
    assert_eq!(decode_embedding(&[1, 2, 3]), None);
    assert_eq!(decode_embedding(&[1, 2, 3, 4, 5]), None);
    assert_eq!(decode_embedding(&[]), Some(Vec::new()));
    assert_eq!(decode_embedding(&[1, 2, 3, 4]), Some(vec![0x0403_0201]));
}

#[test]
fn bytes_round_trip_through_components() {
    let bytes: Vec<u8> = (0u8..16).map(|b| b.wrapping_mul(37)).collect();
    let words = decode_embedding(&bytes).expect("whole components");

    assert_eq!(encode_embedding(&words), bytes);
}

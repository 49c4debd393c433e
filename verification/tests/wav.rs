use phonopaper::wav::wav_bytes;

#[test]
fn wav_header_and_samples_are_little_endian() {
    let bytes = wav_bytes(&[0, 1, -1, 32767, -32768], 44_100).unwrap();
    let mut expected: Vec<u8> = Vec::new();
    expected.extend_from_slice(b"RIFF");
    expected.extend_from_slice(&46u32.to_le_bytes());
    expected.extend_from_slice(b"WAVE");
    expected.extend_from_slice(b"fmt ");
    expected.extend_from_slice(&16u32.to_le_bytes());
    expected.extend_from_slice(&1u16.to_le_bytes());
    expected.extend_from_slice(&1u16.to_le_bytes());
    expected.extend_from_slice(&44_100u32.to_le_bytes());
    expected.extend_from_slice(&88_200u32.to_le_bytes());
    expected.extend_from_slice(&2u16.to_le_bytes());
    expected.extend_from_slice(&16u16.to_le_bytes());
    expected.extend_from_slice(b"data");
    expected.extend_from_slice(&10u32.to_le_bytes());
    expected.extend_from_slice(&[0x00, 0x00, 0x01, 0x00, 0xFF, 0xFF, 0xFF, 0x7F, 0x00, 0x80]);
    assert_eq!(bytes, expected);
}

#[test]
fn empty_wav_is_just_the_header() {
    let bytes = wav_bytes(&[], 8_000).unwrap();
    assert_eq!(bytes.len(), 44);
    assert_eq!(&bytes[4..8], &36u32.to_le_bytes());
    assert_eq!(&bytes[40..44], &0u32.to_le_bytes());
}

#[test]
fn wav_samples_round_trip_through_the_data_chunk() {
    let pcm: Vec<i16> = (-50..50).map(|v| v * 321).collect();
    let bytes = wav_bytes(&pcm, 22_050).unwrap();
    let back: Vec<i16> = bytes[44..]
        .chunks(2)
        .map(|c| i16::from_le_bytes([c[0], c[1]]))
        .collect();
    assert_eq!(back, pcm);
}

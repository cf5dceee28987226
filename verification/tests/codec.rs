use simple16::{calculate_size, compress, decompress, Simple16, MAX};

/// Compress `data`, check the size estimate against the bytes produced,
/// decompress, and check the decoded prefix matches the input.
fn round_trip<T: Simple16>(data: &[T]) {
    let mut bytes: Vec<u8> = Vec::new();
    compress(data, &mut bytes).unwrap();
    assert_eq!(calculate_size(data).unwrap(), bytes.len());
    let mut out: Vec<u32> = Vec::new();
    decompress(&bytes, &mut out).unwrap();
    assert!(out.len() >= data.len());
    for k in 0..data.len() {
        assert_eq!(data[k].as_(), out[k]);
    }
}

#[test]
fn t1() {
    let i = &[1u32, 5, 18, 99, 2023, 289981, 223389999];
    round_trip(i);
    let i = &[1u16, 5, 18, 99, 2023, u16::MAX];
    round_trip(i);
    let i = &[1u8, 5, 18, 99, u8::MAX];
    round_trip(i);
}

#[test]
fn t2() {
    let i = &[1u32];
    round_trip(i);
}

#[test]
fn t3() {
    let i = &[0u32, 0, 0, 0, 0, 0, 0, 1, 0, 0, 0, 0, 1, 0];
    round_trip(i);
}

#[test]
fn too_large_is_err() {
    assert!(compress(&[u32::MAX], &mut Vec::new()).is_err());
    assert!(compress(&[MAX + 1], &mut Vec::new()).is_err());
}

#[test]
fn empty_input_produces_no_bytes() {
    let data: &[u32] = &[];
    let mut bytes: Vec<u8> = Vec::new();
    compress(data, &mut bytes).unwrap();
    assert_eq!(bytes.len(), 0);
    assert_eq!(calculate_size(data).unwrap(), 0);
}

#[test]
fn single_max_value_uses_last_layout() {
    let data = &[MAX];
    let mut bytes: Vec<u8> = Vec::new();
    compress(data, &mut bytes).unwrap();
    // One word: selector 15 in the top four bits over the 28 one-bits of
    // MAX makes the word all ones.
    assert_eq!(bytes, vec![0xff, 0xff, 0xff, 0xff]);
    let mut out: Vec<u32> = Vec::new();
    decompress(&bytes, &mut out).unwrap();
    assert_eq!(out, vec![MAX]);
}

#[test]
fn zero_run_packs_twenty_eight_per_word() {
    let data = vec![0u32; 30];
    let mut bytes: Vec<u8> = Vec::new();
    compress(&data, &mut bytes).unwrap();
    // 28 zeros in a selector-0 word, the last 2 in a second one.
    assert_eq!(bytes, vec![0u8; 8]);
    let mut out: Vec<u32> = Vec::new();
    decompress(&bytes, &mut out).unwrap();
    assert_eq!(out.len(), 56);
    assert!(out.iter().all(|v| *v == 0));
}

#[test]
fn small_values_pack_bit_by_bit() {
    // [1, 1] fits two one-bit slots of layout 0: word 0b11.
    let mut bytes: Vec<u8> = Vec::new();
    compress(&[1u32, 1], &mut bytes).unwrap();
    assert_eq!(bytes, vec![3, 0, 0, 0]);

    let mut bytes: Vec<u8> = Vec::new();
    compress(&[1u8], &mut bytes).unwrap();
    assert_eq!(bytes, vec![1, 0, 0, 0]);
}

#[test]
fn compress_appends_after_existing_bytes() {
    let mut bytes: Vec<u8> = vec![7, 7];
    compress(&[1u32], &mut bytes).unwrap();
    assert_eq!(bytes, vec![7, 7, 1, 0, 0, 0]);
}

#[test]
fn failed_compress_appends_nothing() {
    let mut bytes: Vec<u8> = vec![7];
    assert!(compress(&[MAX + 1], &mut bytes).is_err());
    assert_eq!(bytes, vec![7]);
}

#[test]
fn misaligned_stream_is_rejected() {
    let mut out: Vec<u32> = Vec::new();
    assert!(decompress(&[0u8; 5], &mut out).is_err());
    assert!(out.is_empty());
    assert!(decompress(&[0u8; 3], &mut out).is_err());
    assert!(out.is_empty());
}

#[test]
fn aligned_garbage_decodes_silently() {
    let mut out: Vec<u32> = Vec::new();
    assert!(decompress(&[0xab, 0xcd, 0xef, 0x12], &mut out).is_ok());
    assert!(out.len() >= 1);
}

#[test]
fn size_is_err_for_out_of_range() {
    assert!(calculate_size(&[u32::MAX]).is_err());
    assert!(calculate_size(&[(MAX as u64) + 1]).is_err());
}

#[test]
fn wide_storage_round_trips() {
    round_trip(&[0u64, 1, 2023, MAX as u64]);
}

#[test]
fn narrow_domains_never_fail() {
    // Every 8-bit and 16-bit value fits the widest layout.
    assert!(compress(&[u8::MAX; 4], &mut Vec::new()).is_ok());
    assert!(compress(&[u16::MAX; 4], &mut Vec::new()).is_ok());
    assert!(calculate_size(&[u8::MAX; 4]).is_ok());
    assert!(calculate_size(&[u16::MAX; 4]).is_ok());
}

#[test]
fn mixed_widths_choose_narrower_layouts() {
    // Seven 4-bit values fit layout 7: one word for eight of them at most;
    // here seven values consume exactly one word.
    let data = &[15u32, 15, 15, 15, 15, 15, 15];
    let mut bytes: Vec<u8> = Vec::new();
    compress(data, &mut bytes).unwrap();
    assert_eq!(bytes.len(), 4);
    assert_eq!(calculate_size(data).unwrap(), 4);
    let mut out: Vec<u32> = Vec::new();
    decompress(&bytes, &mut out).unwrap();
    assert_eq!(&out[..7], data);
}

use respire::records::{decode_record, encode_record, pack_records, unpack_record};

#[test]
fn packing_interleaves_in_bit_reversed_order() {
    let records: Vec<Vec<u64>> = (0..4u64).map(|k| (0..3u64).map(|j| 10 * k + j).collect()).collect();
    let packed = pack_records(&records, 4, 3);
    // record k lands at offset rev_2(k): 0 -> 0, 1 -> 2, 2 -> 1, 3 -> 3
    assert_eq!(packed, vec![0, 20, 10, 30, 1, 21, 11, 31, 2, 22, 12, 32]);
    for k in 0..4 {
        assert_eq!(unpack_record(&packed, k, 4, 3), records[k]);
    }
}

#[test]
fn unpacking_matches_strided_reads() {
    let records: Vec<Vec<u64>> = (0..8u64).map(|k| (0..16u64).map(|j| (k * 37 + j * 11) % 256).collect()).collect();
    let packed = pack_records(&records, 8, 16);
    for idx in [0usize, 3, 5, 7] {
        let offset = respire::number_theory::reverse_bits(8, idx);
        let strided: Vec<u64> = packed.iter().copied().skip(offset).step_by(8).collect();
        assert_eq!(unpack_record(&packed, idx, 8, 16), strided);
        assert_eq!(strided, records[idx]);
    }
}

#[test]
fn byte_records_round_trip() {
    let bytes: Vec<u8> = (0..=255u8).collect();
    let coeffs = encode_record(&bytes);
    assert_eq!(coeffs[200], 200);
    assert_eq!(decode_record(&coeffs), Some(bytes));
    assert_eq!(decode_record(&vec![1, 256, 3]), None);
}

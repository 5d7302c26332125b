use respire::wire::{pack_bits, unpack_bits};

#[test]
fn packs_three_bit_values() {
    // 5 = 101, 3 = 011, 7 = 111 -> stream 101 110 111 (lowest bit first)
    let bytes = pack_bits(&vec![5, 3, 7], 3);
    assert_eq!(bytes.len(), 2);
    assert_eq!(bytes, vec![0b1101_1101, 0b0000_0001]);
    assert_eq!(unpack_bits(&bytes, 3, 3), vec![5, 3, 7]);
}

#[test]
fn response_sized_round_trip() {
    // 1024 coefficients of 21 bits take ceil(1024 * 21 / 8) bytes
    let coeffs: Vec<u64> = (0..1024u64).map(|i| (i * 2056193 / 7 + i) % 2056193).collect();
    let bytes = pack_bits(&coeffs, 21);
    assert_eq!(bytes.len(), (1024 * 21 + 7) / 8);
    assert_eq!(unpack_bits(&bytes, 21, 1024), coeffs);
}

#[test]
fn byte_aligned_widths() {
    let coeffs = vec![0x12u64, 0xff, 0x00, 0xab];
    let bytes = pack_bits(&coeffs, 8);
    assert_eq!(bytes, vec![0x12, 0xff, 0x00, 0xab]);
    assert_eq!(pack_bits(&vec![0x1234], 16), vec![0x34, 0x12]);
}

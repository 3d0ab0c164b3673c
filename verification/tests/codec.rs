use pyramid::compress;
use pyramid::uncompress;
use pyramid::uncompress::LcError;

fn roundtrip(input: &Vec<u8>) {
    let packed = compress::run(input);
    let restored = uncompress::run(&packed).expect("decoding its own output must succeed");
    assert_eq!(&restored, input);
}

#[test]
fn empty_input_stores_single_zero_byte() {
    let input: Vec<u8> = vec![];
    assert_eq!(compress::run(&input), vec![0x00]);
    roundtrip(&input);
}

#[test]
fn single_byte_is_stored_verbatim() {
    let input = vec![0x41];
    assert_eq!(compress::run(&input), vec![0x00, 0x41]);
    roundtrip(&input);
}

#[test]
fn repetitive_input_builds_one_element_dictionaries() {
    // Sixteen bytes of "ABABAB…": the even dictionary holds (41,42), the
    // odd one (42,41), and the body is eight hit tokens.
    let input: Vec<u8> = [0x41, 0x42].repeat(8);
    let (even, odd) = compress::generate_dict_pair(&input, 0);
    assert_eq!(even.len(), 1);
    assert_eq!(even.get_index(&[0x41, 0x42]), Some(0));
    assert_eq!(odd.len(), 1);
    assert_eq!(odd.get_index(&[0x42, 0x41]), Some(0));

    // Every window hits the even dictionary, so the purge strips the
    // never-consulted odd one from the wire.
    let dicts = compress::generate_dict_collection(&input);
    let layer = compress::compress_layer(&input, dicts);
    assert_eq!(
        layer,
        vec![
            0, 0, 0, 16, // chunk total length
            1, 0x41, 0x42, // even dictionary
            0, // odd dictionary, empty after the purge
            0x80, 0x80, 0x80, 0x80, 0x80, 0x80, 0x80, 0x80, // eight hits
        ]
    );
    roundtrip(&input);
}

#[test]
fn distinct_pairs_stay_uncompressed() {
    // 256 distinct bytes: no pair reaches the occurrence threshold, both
    // dictionaries purge to empty, and the pass cannot pay for itself.
    let input: Vec<u8> = (0u16..256).map(|b| b as u8).collect();
    let dicts = compress::generate_dict_collection(&input);
    let layer = compress::compress_layer(&input, dicts);
    // 4 length bytes, two empty dictionaries, a long miss descriptor
    // (length-of-length 2, big-endian 256), then the 256 raw bytes.
    assert_eq!(layer.len(), 4 + 2 + 3 + 256);
    assert_eq!(&layer[..9], &[0, 0, 1, 9, 0, 0, 2, 1, 0]);
    assert_eq!(&layer[9..], &input[..]);

    let packed = compress::run(&input);
    assert_eq!(packed[0], 0);
    assert_eq!(&packed[1..], &input[..]);
    roundtrip(&input);
}

#[test]
fn incompressible_input_is_stored_behind_zero_count() {
    let input: Vec<u8> = (0u16..256).map(|b| b as u8).rev().collect();
    let packed = compress::run(&input);
    assert_eq!(packed[0], 0);
    assert_eq!(&packed[1..], &input[..]);
}

#[test]
fn two_chunks_roundtrip() {
    // One byte past the chunk limit: the second chunk covers a single
    // byte and becomes a one-byte miss run.
    let mut input = vec![0u8; 790_001];
    input[790_000] = 0xff;
    let dicts = compress::generate_dict_collection(&input);
    let layer = compress::compress_layer(&input, dicts);
    let first_len = u32::from_be_bytes([layer[0], layer[1], layer[2], layer[3]]) as usize;
    assert!(first_len < layer.len());
    // The trailing frame: 8 total bytes, empty dictionaries, and the
    // single 0xff byte as a short miss run.
    assert_eq!(&layer[first_len..], &[0, 0, 0, 8, 0, 0, 0x41, 0xff]);
    roundtrip(&input);
}

#[test]
fn compressible_input_uses_layers() {
    let input: Vec<u8> = [0x41, 0x42].repeat(4000);
    let packed = compress::run(&input);
    assert!(packed[0] >= 1);
    assert!(packed.len() < input.len());
    roundtrip(&input);
}

#[test]
fn mixed_hits_and_long_miss_runs_roundtrip() {
    // Hit runs on both sides of a noise stretch long enough to need the
    // long miss descriptor.
    let mut input: Vec<u8> = [0x41, 0x42].repeat(100);
    let mut x: u32 = 1;
    for _ in 0..100 {
        x = x.wrapping_mul(1103515245).wrapping_add(12345);
        input.push((x >> 16) as u8);
    }
    input.extend([0x41, 0x42].repeat(100));
    roundtrip(&input);
}

#[test]
fn phase_flip_after_odd_miss_run() {
    // ABABABAB 99 ABABABAB: the miss on 99 shifts the alignment, so the
    // later pairs decode through the odd dictionary.
    let input = vec![
        0x41, 0x42, 0x41, 0x42, 0x41, 0x42, 0x41, 0x42, 0x99, 0x41, 0x42, 0x41, 0x42, 0x41, 0x42,
        0x41, 0x42,
    ];
    roundtrip(&input);
}

#[test]
fn decoder_flips_phase_on_odd_miss_run() {
    // A handcrafted chunk: a one-byte miss run, then a hit token. The
    // flip makes the hit read the odd dictionary, giving (42,41); a
    // decoder that skipped the flip would give (41,42).
    let file = vec![
        1, // one layer
        0, 0, 0, 13, // chunk total length
        1, 0x41, 0x42, // even dictionary
        1, 0x42, 0x41, // odd dictionary
        0x41, 0x99, // short miss run of one byte
        0x80, // hit on index 0
    ];
    assert_eq!(uncompress::run(&file).unwrap(), vec![0x99, 0x42, 0x41]);
}

#[test]
fn decoder_keeps_phase_on_even_miss_run() {
    let file = vec![
        1, 0, 0, 0, 14, 1, 0x41, 0x42, 1, 0x42, 0x41, 0x42, 0x99, 0x98, // two-byte miss run
        0x80, // hit stays in the even dictionary
    ];
    assert_eq!(uncompress::run(&file).unwrap(), vec![0x99, 0x98, 0x41, 0x42]);
}

#[test]
fn zero_layers_passes_payload_through() {
    let file = vec![0, 1, 2, 3];
    assert_eq!(uncompress::run(&file).unwrap(), vec![1, 2, 3]);
}

#[test]
fn empty_file_is_rejected() {
    assert_eq!(uncompress::run(&vec![]), Err(LcError::Truncated));
}

#[test]
fn short_chunk_header_is_rejected() {
    assert_eq!(uncompress::run(&vec![1, 0, 0]), Err(LcError::Truncated));
}

#[test]
fn undersized_total_length_is_rejected() {
    assert_eq!(
        uncompress::run(&vec![1, 0, 0, 0, 3, 0, 0]),
        Err(LcError::Truncated)
    );
}

#[test]
fn hit_index_outside_dictionary_is_rejected() {
    assert_eq!(
        uncompress::run(&vec![1, 0, 0, 0, 7, 0, 0, 0x80]),
        Err(LcError::BadIndex)
    );
}

#[test]
fn zero_length_descriptor_is_rejected() {
    assert_eq!(
        uncompress::run(&vec![1, 0, 0, 0, 7, 0, 0, 0x00]),
        Err(LcError::BadLength)
    );
}

#[test]
fn miss_run_past_body_end_is_rejected() {
    assert_eq!(
        uncompress::run(&vec![1, 0, 0, 0, 7, 0, 0, 0x42]),
        Err(LcError::LengthOverrun)
    );
}

use pyramid::dict_elem::DictElem;
use pyramid::dictionary::Dictionary;
use pyramid::uncompress::DictElem as DecodeDictElem;
use pyramid::uncompress::Dictionary as DecodeDictionary;
use pyramid::utility;

#[test]
fn bytes_to_rep_values() {
    assert_eq!(utility::bytes_to_rep(0), 0);
    assert_eq!(utility::bytes_to_rep(1), 1);
    assert_eq!(utility::bytes_to_rep(255), 1);
    assert_eq!(utility::bytes_to_rep(256), 2);
    assert_eq!(utility::bytes_to_rep(65535), 2);
    assert_eq!(utility::bytes_to_rep(65536), 3);
    assert_eq!(utility::bytes_to_rep(790000), 3);
}

#[test]
fn val_to_u8_vec_big_endian() {
    assert_eq!(utility::val_to_u8_vec(0x0102, 2), vec![1, 2]);
    assert_eq!(utility::val_to_u8_vec(18, 4), vec![0, 0, 0, 18]);
    assert_eq!(utility::val_to_u8_vec(0x01020304, 4), vec![1, 2, 3, 4]);
    assert_eq!(utility::val_to_u8_vec(256, 2), vec![1, 0]);
    assert_eq!(utility::val_to_u8_vec(0, 0), Vec::<u8>::new());
}

#[test]
fn u8_vec_to_u32_values() {
    assert_eq!(utility::u8_vec_to_u32(&[0, 0, 0, 18]), 18);
    assert_eq!(utility::u8_vec_to_u32(&[1, 2, 3, 4]), 0x01020304);
    assert_eq!(utility::u8_vec_to_u32(&[0xff, 0xff, 0xff, 0xff]), u32::MAX);
}

#[test]
fn u8_vec_to_u64_values() {
    assert_eq!(utility::u8_vec_to_u64(&vec![1, 0]), 256);
    assert_eq!(utility::u8_vec_to_u64(&vec![0x0c, 0x0e, 0xf1]), 790_257);
    assert_eq!(
        utility::u8_vec_to_u64(&vec![0xff, 0xff, 0xff, 0xff, 0xff, 0xff, 0xff, 0xff]),
        u64::MAX
    );
}

#[test]
fn be_pack_unpack_roundtrip() {
    for v in [0usize, 1, 63, 64, 255, 256, 65535, 790000, 790001] {
        let n = utility::bytes_to_rep(v);
        let bytes = utility::val_to_u8_vec(v, n);
        if v > 0 {
            assert_eq!(utility::u8_vec_to_u64(&bytes) as usize, v);
        } else {
            assert!(bytes.is_empty());
        }
    }
}

#[test]
fn file_is_larger_compares_sizes() {
    assert!(utility::file_is_larger(3, 2));
    assert!(!utility::file_is_larger(2, 3));
    assert!(!utility::file_is_larger(2, 2));
}

#[test]
fn u8_to_string_forms() {
    assert_eq!(utility::u8_to_string(0x41), "A");
    assert_eq!(utility::u8_to_string(200), "200");
}

#[test]
fn dict_elem_basics() {
    let mut e = DictElem::new([0x41, 0x42], 4);
    assert!(e.eq_array(&[0x41, 0x42]));
    assert!(!e.eq_array(&[0x41, 0x43]));
    e.set_occurrence(8);
    e.increment_usage();
    assert_eq!(e.to_string(), " [A, B]: 8 occasions");
}

#[test]
fn consider_rejects_rare_pairs() {
    let mut d = Dictionary::new();
    for occ in 1..4 {
        d.consider(&DictElem::new([1, 2], occ));
        assert_eq!(d.len(), 0);
    }
    d.consider(&DictElem::new([1, 2], 4));
    assert_eq!(d.len(), 1);
    assert_eq!(d.get_index(&[1, 2]), Some(0));
    assert_eq!(d.get(0), [1, 2]);
}

#[test]
fn consider_updates_matching_pair() {
    let mut d = Dictionary::new();
    d.consider(&DictElem::new([1, 2], 4));
    d.consider(&DictElem::new([1, 2], 9));
    assert_eq!(d.len(), 1);
    assert_eq!(d.get_index(&[1, 2]), Some(0));
}

#[test]
fn dictionary_caps_at_128_and_replaces_least() {
    let mut d = Dictionary::new();
    for i in 0..200u16 {
        let a = (i >> 8) as u8;
        let b = (i & 0xff) as u8;
        d.consider(&DictElem::new([a, b], 4 + i as u64));
        assert!(d.len() <= 128);
    }
    assert_eq!(d.len(), 128);
    // The first 200 candidates fill the table; later, heavier pairs
    // displace the least-occurring one.
    d.consider(&DictElem::new([9, 9], 1000));
    assert_eq!(d.len(), 128);
    assert!(d.get_index(&[9, 9]).is_some());
    // A candidate below the admission threshold is ignored.
    d.consider(&DictElem::new([8, 8], 1));
    assert_eq!(d.get_index(&[8, 8]), None);
}

#[test]
fn purge_drops_unused_and_reindexes() {
    let mut d = Dictionary::new();
    d.consider(&DictElem::new([1, 1], 4));
    d.consider(&DictElem::new([2, 2], 5));
    d.consider(&DictElem::new([3, 3], 6));
    assert_eq!(d.len(), 3);
    d.increment_usage(1);
    d.purge_unused();
    assert_eq!(d.len(), 1);
    assert_eq!(d.get(0), [2, 2]);
    assert_eq!(d.get_index(&[2, 2]), Some(0));
    assert_eq!(d.get_index(&[1, 1]), None);
    assert_eq!(d.to_vec(), vec![2, 2]);
}

#[test]
fn dictionary_to_string_mentions_elements() {
    let mut d = Dictionary::new();
    d.consider(&DictElem::new([0x41, 0x42], 4));
    let s = d.to_string();
    assert!(s.contains("Elements: 1"));
    assert!(s.contains("coverage: 790000"));
}

#[test]
fn decode_dictionary_basics() {
    let mut d = DecodeDictionary::new();
    d.push(DecodeDictElem::new([0x41, 0x42]));
    d.push(DecodeDictElem::new([0x43, 0x44]));
    assert_eq!(d.len(), 2);
    assert_eq!(d.get(0), [0x41, 0x42]);
    assert_eq!(d.get(1), [0x43, 0x44]);
    assert_eq!(d.get_dict_elem(0).to_string(), "( A, B)");
    assert!(d.to_string().contains("Elements: 2"));
}

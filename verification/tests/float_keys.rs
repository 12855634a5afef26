use radix_trie::Decomposable;
use radix_trie::Trie;

#[test]
fn float_bit_patterns_are_distinct_keys() {
    let mut trie = Trie::new(|c: &u8| (*c as usize), 256);
    let pos_zero: Vec<u8> = 0.0f32.to_bits().decompose();
    let neg_zero: Vec<u8> = (-0.0f32).to_bits().decompose();
    assert_ne!(pos_zero, neg_zero);
    trie.insert(pos_zero.clone());
    assert_eq!(trie.contains(pos_zero), true);
    assert_eq!(trie.contains(neg_zero), false);
}

#[test]
fn float_decomposition_matches_bit_pattern_encoding() {
    assert_eq!(
        2.5f32.to_bits().decompose(),
        2.5f32.to_bits().to_be_bytes().to_vec()
    );
    assert_eq!(
        1.5f64.to_bits().decompose(),
        1.5f64.to_bits().to_be_bytes().to_vec()
    );
}

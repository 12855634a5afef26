use radix_trie::Trie;

#[test]
fn test_trie_simple() {
    let mut trie = Trie::new(
        |c: &char| (c.to_lowercase().next().unwrap() as usize) - ('a' as usize), // index function
        ('z' as usize) - ('a' as usize), // alphabet size
    );

    assert_eq!(trie.contains(String::from("asd")), false);
    assert_eq!(trie.contains(String::from("dsa")), false);
    trie.insert(String::from("asd"));
    assert_eq!(trie.contains(String::from("dsa")), false);
    assert_eq!(trie.contains(String::from("asd")), true);
    trie.insert(String::from("asd"));
    assert_eq!(trie.contains(String::from("asd")), true);
    assert_eq!(trie.contains(String::from("dsa")), false);
    trie.insert(String::from("dsa"));
    assert_eq!(trie.contains(String::from("asd")), true);
    assert_eq!(trie.contains(String::from("dsa")), true);
}

#[test]
fn test_trie_simple_numeric() {
    let mut trie = Trie::new(|c: &u8| (*c as usize), u8::max_value() as usize);

    trie.insert(456 as u16);
}

fn letter_slot(c: &char) -> usize {
    (*c as usize) - ('a' as usize)
}

fn letter_trie() -> Trie<char, fn(&char) -> usize> {
    Trie::new(letter_slot as fn(&char) -> usize, 26)
}

#[test]
fn fresh_trie_reports_nothing_nonempty() {
    let trie = letter_trie();
    assert_eq!(trie.contains(String::from("a")), false);
    assert_eq!(trie.contains(String::from("abc")), false);
    // the empty sequence ends on the empty root at once, the terminal state
    assert_eq!(trie.contains(String::new()), true);
}

#[test]
fn insert_then_exact_match() {
    let mut trie = letter_trie();
    trie.insert(String::from("abc"));
    assert_eq!(trie.contains(String::from("abc")), true);
}

#[test]
fn unrelated_sequences_stay_absent() {
    let mut trie = letter_trie();
    trie.insert(String::from("abc"));
    // diverging at each position
    assert_eq!(trie.contains(String::from("xbc")), false);
    assert_eq!(trie.contains(String::from("axc")), false);
    assert_eq!(trie.contains(String::from("abx")), false);
    // shorter, longer, empty
    assert_eq!(trie.contains(String::from("ab")), false);
    assert_eq!(trie.contains(String::from("abcd")), false);
    assert_eq!(trie.contains(String::new()), false);
}

#[test]
fn duplicate_insert_changes_nothing() {
    let mut trie = letter_trie();
    trie.insert(String::from("abc"));
    trie.insert(String::from("abc"));
    assert_eq!(trie.contains(String::from("abc")), true);
    assert_eq!(trie.contains(String::from("ab")), false);
    assert_eq!(trie.contains(String::from("abcd")), false);
    assert_eq!(trie.contains(String::from("abd")), false);
}

#[test]
fn shared_prefix_keeps_both() {
    let mut trie = letter_trie();
    trie.insert(String::from("abc"));
    trie.insert(String::from("abd"));
    assert_eq!(trie.contains(String::from("abc")), true);
    assert_eq!(trie.contains(String::from("abd")), true);
    assert_eq!(trie.contains(String::from("ab")), false);
}

#[test]
fn split_below_an_existing_branch_keeps_stored_keys() {
    let mut trie = letter_trie();
    trie.insert(String::from("xya"));
    trie.insert(String::from("xyb"));
    // diverges inside the compressed run whose continuation is a branch
    trie.insert(String::from("xz"));
    assert_eq!(trie.contains(String::from("xya")), true);
    assert_eq!(trie.contains(String::from("xyb")), true);
    assert_eq!(trie.contains(String::from("xz")), true);
}

#[test]
fn extension_retains_only_the_longer_key() {
    // the compressed run is extended in place: only the maximal sequence
    // along a single-continuation run stays recognizable
    let mut trie = letter_trie();
    trie.insert(String::from("ab"));
    trie.insert(String::from("abcd"));
    assert_eq!(trie.contains(String::from("abcd")), true);
    assert_eq!(trie.contains(String::from("ab")), false);
}

#[test]
fn prefix_of_a_stored_run_is_not_recorded() {
    let mut trie = letter_trie();
    trie.insert(String::from("abcd"));
    trie.insert(String::from("ab"));
    assert_eq!(trie.contains(String::from("abcd")), true);
    assert_eq!(trie.contains(String::from("ab")), false);
}

#[test]
fn numeric_round_trip() {
    let mut trie = Trie::new(|c: &u8| (*c as usize), 256);
    trie.insert(456u16);
    assert_eq!(trie.contains(456u16), true);
    assert_eq!(trie.contains(457u16), false);
    assert_eq!(trie.contains(200u16), false);
    trie.insert(456u32);
    assert_eq!(trie.contains(456u32), true);
    // u16 and u32 encodings differ in width, so they are distinct keys
    assert_eq!(trie.contains(456u16), true);
}

use algs4::string::trie_st::TrieST;

#[test]
fn trie_st_test() {
    let mut trie_st = TrieST::new();

    trie_st.put("abc", 1);
    trie_st.put("cbd", 2);
    trie_st.put("bde", 3);
    trie_st.put("def", 4);

    assert_eq!(trie_st.get("def"), &Some(4));
}

#[test]
fn trie_st_absent_keys() {
    let mut trie_st = TrieST::new();
    assert_eq!(trie_st.get(""), &None::<i32>);
    assert_eq!(trie_st.get("a"), &None);

    trie_st.put("abc", 1);
    assert_eq!(trie_st.get("ab"), &None);
    assert_eq!(trie_st.get("abcd"), &None);
    assert_eq!(trie_st.get("abd"), &None);
    assert_eq!(trie_st.get("abc"), &Some(1));
}

#[test]
fn trie_st_overwrite_and_prefixes() {
    let mut trie_st = TrieST::new();
    trie_st.put("", 0);
    trie_st.put("a", 1);
    trie_st.put("ab", 2);
    trie_st.put("a", 3);

    assert_eq!(trie_st.get(""), &Some(0));
    assert_eq!(trie_st.get("a"), &Some(3));
    assert_eq!(trie_st.get("ab"), &Some(2));
    assert_eq!(trie_st.get("b"), &None);
}

#[test]
fn trie_st_last_character_of_the_alphabet() {
    let mut trie_st = TrieST::new();
    trie_st.put("\u{ff}\u{0}", 7);
    assert_eq!(trie_st.get("\u{ff}\u{0}"), &Some(7));
    assert_eq!(trie_st.get("\u{ff}"), &None);
}

use toktrain::persist::load_token_set;
use toktrain::tokens::{TokenSet, VocabError};

#[test]
fn hex_preset_layout() {
    let ts = TokenSet::build_with_hex_literals();
    assert_eq!(ts.ntokens(), 273);
    assert_eq!(ts.literal_cost, 3);
    assert!(ts.fallback16);
    for i in 0..256 {
        assert_eq!(ts.tokens[i].string, vec![i as u8]);
        assert!(ts.tokens[i].is_literal);
        assert!(!ts.tokens[i].is_mandatory);
        assert_eq!(ts.tokens[i].cost, 3);
    }
    assert_eq!(ts.tokens[256].string, vec![0x10]);
    for k in 0..10 {
        assert_eq!(ts.tokens[257 + k].string, vec![b'0' + k as u8]);
    }
    for k in 0..6 {
        assert_eq!(ts.tokens[267 + k].string, vec![b'a' + k as u8]);
    }
    for i in 256..273 {
        assert!(ts.tokens[i].is_mandatory);
        assert!(!ts.tokens[i].is_literal);
        assert_eq!(ts.tokens[i].cost, 1);
    }
}

#[test]
fn bin_preset_layout() {
    let ts = TokenSet::build_with_bin_literals();
    assert_eq!(ts.ntokens(), 258);
    assert_eq!(ts.literal_cost, 8);
    assert!(!ts.fallback16);
    assert_eq!(ts.tokens[256].string, vec![0x11]);
    assert_eq!(ts.tokens[257].string, vec![0x12]);
    assert!(ts.tokens[256].is_mandatory);
    assert!(ts.tokens[257].is_mandatory);
}

#[test]
fn add_token_duplicate_is_noop() {
    let mut ts = TokenSet::build_with_bin_literals();
    ts.add_token(b"ab");
    assert_eq!(ts.ntokens(), 259);
    ts.add_token(b"ab");
    assert_eq!(ts.ntokens(), 259);
    // a literal's string may be added again as a non-literal
    ts.add_token(b"x");
    assert_eq!(ts.ntokens(), 260);
    assert!(!ts.tokens[259].is_literal);
    assert_eq!(ts.tokens[259].string, b"x".to_vec());
    assert_eq!(ts.tokens[259].cost, 1);
}

#[test]
fn add_mandatory_duplicate_fails() {
    let mut ts = TokenSet::build_with_bin_literals();
    let r = ts.add_mandatory_token(&[0x11]);
    assert_eq!(r, Err(VocabError::DuplicateNonLiteral));
    assert_eq!(ts.ntokens(), 258);
}

#[test]
fn remove_token_errors() {
    let mut ts = TokenSet::build_with_bin_literals();
    ts.add_token(b"ab");
    // absent string
    assert_eq!(ts.remove_token(b"zz"), Err(VocabError::NotFound));
    // a bare literal cannot be removed
    assert_eq!(ts.remove_token(b"q"), Err(VocabError::Unremovable));
    // a mandatory token cannot be removed
    assert_eq!(ts.remove_token(&[0x11]), Err(VocabError::Unremovable));
    // an optional non-literal can
    assert_eq!(ts.remove_token(b"ab"), Ok(()));
    assert_eq!(ts.ntokens(), 258);
    assert_eq!(ts.remove_token(b"ab"), Err(VocabError::NotFound));
}

#[test]
fn generate_suffixes_links_longest() {
    let mut ts = TokenSet::build_with_bin_literals();
    ts.add_token(b"abc");
    ts.add_token(b"bc");
    ts.add_token(b"c");
    ts.generate_suffixes();
    let abc = ts.find_token(b"abc").unwrap();
    let bc = ts.find_token(b"bc").unwrap();
    let c = ts.find_token(b"c").unwrap();
    // longest proper suffix of "abc" present is "bc", then "c"
    assert_eq!(ts.tokens[abc].suffix, Some(bc));
    assert_eq!(ts.tokens[bc].suffix, Some(c));
    // a one-byte token has no proper suffix
    assert_eq!(ts.tokens[c].suffix, None);
    // literals carry no link
    assert_eq!(ts.tokens[b'a' as usize].suffix, None);
}

#[test]
fn find_token_prefers_nonliteral() {
    let mut ts = TokenSet::build_with_bin_literals();
    ts.add_token(b"x");
    let idx = ts.find_token(b"x").unwrap();
    assert!(idx >= 256);
    assert!(!ts.tokens[idx].is_literal);
}

#[test]
fn serial_list_is_sorted_and_complete() {
    let mut ts = TokenSet::build_with_hex_literals();
    ts.add_token(b"zebra");
    ts.add_token(b"ant");
    ts.add_token(b"mouse");
    let list = ts.serial_token_list();
    // all non-literals appear: 17 mandatory plus the three added
    assert_eq!(list.len(), 20);
    for w in list.windows(2) {
        assert!(w[0] < w[1]);
    }
    assert!(list.contains(&b"zebra".to_vec()));
    assert!(list.contains(&b"ant".to_vec()));
    assert!(list.contains(&b"mouse".to_vec()));
    assert!(list.contains(&vec![0x10]));
}

#[test]
fn save_load_round_trip() {
    let mut ts = TokenSet::build_with_hex_literals();
    ts.add_token(b"the");
    ts.add_token(b"he");
    ts.add_token(b"quick");
    let list = ts.serial_token_list();
    let reloaded = load_token_set(true, &list);
    // the reloaded catalog carries the same non-literal strings
    let list2 = reloaded.serial_token_list();
    assert_eq!(list, list2);
    assert_eq!(reloaded.literal_cost, ts.literal_cost);
    assert_eq!(reloaded.fallback16, ts.fallback16);
    // and reproduces the same segmentation statistics for a fixed input
    let corpus = b"the quick fox; he quacked";
    let s1 = toktrain::trainer::scan_corpus(&ts, corpus, 1 << 20);
    let s2 = toktrain::trainer::scan_corpus(&reloaded, corpus, 1 << 20);
    assert_eq!(s1.cost, s2.cost);
    assert_eq!(s1.scanned_bytes, s2.scanned_bytes);
}

#[test]
fn duplicate_copies_catalog() {
    let mut ts = TokenSet::build_with_bin_literals();
    ts.add_token(b"dup");
    let copy = ts.duplicate();
    assert_eq!(copy.ntokens(), ts.ntokens());
    for i in 0..ts.ntokens() {
        assert_eq!(copy.tokens[i].string, ts.tokens[i].string);
        assert_eq!(copy.tokens[i].cost, ts.tokens[i].cost);
        assert_eq!(copy.tokens[i].is_literal, ts.tokens[i].is_literal);
        assert_eq!(copy.tokens[i].is_mandatory, ts.tokens[i].is_mandatory);
    }
}

use toktrain::segment::Tokenizer;
use toktrain::tokens::TokenSet;

/// Minimum segmentation cost by exhaustive recursion over final tokens.
fn brute_min(tokens: &[(Vec<u8>, usize)], bytes: &[u8]) -> Option<usize> {
    if bytes.is_empty() {
        return Some(0);
    }
    let mut best: Option<usize> = None;
    for (s, cost) in tokens {
        if !s.is_empty() && bytes.ends_with(s) {
            if let Some(head) = brute_min(tokens, &bytes[..bytes.len() - s.len()]) {
                let c = head + cost;
                if best.map_or(true, |b| c < b) {
                    best = Some(c);
                }
            }
        }
    }
    best
}

fn token_list(ts: &TokenSet) -> Vec<(Vec<u8>, usize)> {
    ts.tokens.iter().map(|t| (t.string.clone(), t.cost)).collect()
}

/// Recovers the token index sequence from the finished cell array.
fn back_trace(tok: &Tokenizer, len: usize) -> Vec<usize> {
    let mut seg = Vec::new();
    let mut pos = len;
    while pos > 0 {
        let t = tok.cost_array[pos].token.unwrap();
        seg.push(t);
        pos -= tok.token_set.tokens[t].string.len();
    }
    seg.reverse();
    seg
}

#[test]
fn dp_matches_brute_force() {
    let corpora: [&[u8]; 5] = [b"abababab", b"aaaa", b"abcabc", b"xyzzy", b"a"];
    let mut ts = TokenSet::build_with_bin_literals();
    ts.add_token(b"ab");
    ts.add_token(b"abab");
    ts.add_token(b"abc");
    ts.add_token(b"bc");
    ts.add_token(b"zz");
    let toks = token_list(&ts);
    let mut tok = Tokenizer::new(ts);
    for corpus in corpora {
        let stats = tok.process_slice(corpus);
        assert_eq!(Some(stats.cost), brute_min(&toks, corpus));
    }
}

#[test]
fn dp_matches_brute_force_hex() {
    let mut ts = TokenSet::build_with_hex_literals();
    ts.add_token(b"0123");
    ts.add_token(b"23");
    ts.add_token(b"123");
    let toks = token_list(&ts);
    let mut tok = Tokenizer::new(ts);
    for corpus in [b"01230123".as_slice(), b"00112233", b"0123123"] {
        let stats = tok.process_slice(corpus);
        assert_eq!(Some(stats.cost), brute_min(&toks, corpus));
    }
}

#[test]
fn segmentation_recovers_bytes() {
    let mut ts = TokenSet::build_with_bin_literals();
    ts.add_token(b"ana");
    ts.add_token(b"na");
    ts.add_token(b"ban");
    let mut tok = Tokenizer::new(ts);
    let corpus = b"bananabandana";
    let stats = tok.process_slice(corpus);
    let seg = back_trace(&tok, corpus.len());
    let mut rebuilt = Vec::new();
    let mut total_cost = 0;
    for t in seg {
        rebuilt.extend_from_slice(&tok.token_set.tokens[t].string);
        total_cost += tok.token_set.tokens[t].cost;
    }
    assert_eq!(rebuilt, corpus.to_vec());
    assert_eq!(total_cost, stats.cost);
}

#[test]
fn all_literal_cost_is_length_times_literal_cost() {
    let ts = TokenSet::build_with_bin_literals();
    let mut tok = Tokenizer::new(ts);
    let stats = tok.process_slice(b"hello world");
    assert_eq!(stats.cost, 11 * 8);
    let ts = TokenSet::build_with_hex_literals();
    let mut tok = Tokenizer::new(ts);
    // hex digits are also cost-1 mandatory tokens, so only 'x' pays 3
    let stats = tok.process_slice(b"x0a");
    assert_eq!(stats.cost, 3 + 1 + 1);
}

#[test]
fn automaton_walk_lands_on_longest_suffix() {
    // the S-shaped walk: literals plus {"foo", "oof", "of"} fed "foof"
    let mut ts = TokenSet::build_with_bin_literals();
    ts.add_token(b"foo");
    ts.add_token(b"oof");
    ts.add_token(b"of");
    let tok = Tokenizer::new(ts);
    let mut state = 0usize;
    for &b in b"foof" {
        state = tok.suffix_states[state].next[b as usize];
    }
    assert_eq!(tok.suffix_states[state].suffix, b"oof".to_vec());
    // the longest token ending at this state is "oof"
    let tid = tok.suffix_states[state].token_id;
    assert_eq!(tok.token_set.tokens[tid].string, b"oof".to_vec());
    // and the suffix chain surfaces "of", then the literal "f"
    let t2 = tok.token_set.tokens[tid].suffix.unwrap();
    assert_eq!(tok.token_set.tokens[t2].string, b"of".to_vec());
    let t3 = tok.token_set.tokens[t2].suffix.unwrap();
    assert_eq!(tok.token_set.tokens[t3].string, b"f".to_vec());
    assert_eq!(tok.token_set.tokens[t3].suffix, None);
}

#[test]
fn walk_prefix_states() {
    let mut ts = TokenSet::build_with_bin_literals();
    ts.add_token(b"foo");
    ts.add_token(b"oof");
    ts.add_token(b"of");
    let tok = Tokenizer::new(ts);
    let mut state = 0usize;
    let expect: [&[u8]; 4] = [b"f", b"fo", b"foo", b"oof"];
    for (i, &b) in b"foof".iter().enumerate() {
        state = tok.suffix_states[state].next[b as usize];
        assert_eq!(tok.suffix_states[state].suffix, expect[i].to_vec());
    }
}

#[test]
fn stats_counts_match_trace() {
    let mut ts = TokenSet::build_with_bin_literals();
    ts.add_token(b"ab");
    let mut tok = Tokenizer::new(ts);
    let corpus = b"abab";
    let stats = tok.process_slice(corpus);
    let n = tok.token_set.ntokens();
    let ab = tok.token_set.find_token(b"ab").unwrap();
    // two "ab" tokens, each cost 1
    assert_eq!(stats.cost, 2);
    assert_eq!(stats.scanned_bytes, 4);
    assert_eq!(stats.token_count[ab], 2);
    // one adjacent (ab, ab) pair, and the final token pairs with sentinel 0
    assert_eq!(stats.pair_count[ab * n + ab], 1);
    assert_eq!(stats.pair_count[ab * n + 0], 1);
}

#[test]
fn process_slice_is_deterministic() {
    // the statistics are a pure function of the catalog contents and the
    // bytes: two independent segmenters agree in every field
    let mut ts = TokenSet::build_with_bin_literals();
    ts.add_token(b"ab");
    ts.add_token(b"bab");
    let corpus = b"abbababbab";
    let mut tok1 = Tokenizer::new(ts.duplicate());
    let mut tok2 = Tokenizer::new(ts.duplicate());
    let _ = tok2.process_slice(b"unrelated earlier work");
    let a = tok1.process_slice(corpus);
    let b = tok2.process_slice(corpus);
    assert_eq!(a.cost, b.cost);
    assert_eq!(a.scanned_bytes, b.scanned_bytes);
    assert_eq!(a.token_count, b.token_count);
    assert_eq!(a.pair_count, b.pair_count);
}

#[test]
fn tie_break_records_longest_token() {
    // at position 5 of "aaaaa" both "aa" (after an optimal 3-byte head) and
    // "aaa" (after an optimal 2-byte head) cost 2; the chain walk meets the
    // longer token first and must keep it
    let mut ts = TokenSet::build_with_bin_literals();
    ts.add_token(b"aa");
    ts.add_token(b"aaa");
    let mut tok = Tokenizer::new(ts);
    let corpus = b"aaaaa";
    let stats = tok.process_slice(corpus);
    assert_eq!(stats.cost, 2);
    let last = tok.cost_array[5].token.unwrap();
    assert_eq!(tok.token_set.tokens[last].string, b"aaa".to_vec());
    let seg = back_trace(&tok, 5);
    let strings: Vec<Vec<u8>> =
        seg.iter().map(|&t| tok.token_set.tokens[t].string.clone()).collect();
    assert_eq!(strings, vec![b"aa".to_vec(), b"aaa".to_vec()]);
}

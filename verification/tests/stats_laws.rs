use toktrain::segment::Tokenizer;
use toktrain::stats::TokenStats;
use toktrain::tokens::TokenSet;
use toktrain::trainer::scan_corpus;

fn stats_eq(a: &TokenStats, b: &TokenStats) {
    assert_eq!(a.token_count, b.token_count);
    assert_eq!(a.pair_count, b.pair_count);
    assert_eq!(a.cost, b.cost);
    assert_eq!(a.scanned_bytes, b.scanned_bytes);
}

fn scan_parts(ts: &TokenSet, parts: &[&[u8]]) -> TokenStats {
    let mut tok = Tokenizer::new(ts.duplicate());
    let mut total = TokenStats::new(ts);
    for p in parts {
        let st = tok.process_slice(p);
        total.add(&st);
    }
    total
}

#[test]
fn addition_is_commutative() {
    let ts = TokenSet::build_with_bin_literals();
    let mut tok = Tokenizer::new(ts.duplicate());
    let a = tok.process_slice(b"hello");
    let b = tok.process_slice(b"worlds");
    let mut ab = TokenStats::new(&ts);
    ab.add(&a);
    ab.add(&b);
    let mut ba = TokenStats::new(&ts);
    ba.add(&b);
    ba.add(&a);
    stats_eq(&ab, &ba);
}

#[test]
fn addition_is_associative() {
    let ts = TokenSet::build_with_bin_literals();
    let mut tok = Tokenizer::new(ts.duplicate());
    let a = tok.process_slice(b"one");
    let b = tok.process_slice(b"two");
    let c = tok.process_slice(b"three");
    let mut left = TokenStats::new(&ts);
    left.add(&a);
    left.add(&b);
    let mut lc = TokenStats::new(&ts);
    lc.add(&left);
    lc.add(&c);
    let mut right = TokenStats::new(&ts);
    right.add(&b);
    right.add(&c);
    let mut ar = TokenStats::new(&ts);
    ar.add(&a);
    ar.add(&right);
    stats_eq(&lc, &ar);
}

#[test]
fn single_chunk_scan_equals_whole_slice() {
    // a corpus shorter than one chunk: the chunked scan and one direct pass
    // produce identical statistics
    let mut ts = TokenSet::build_with_bin_literals();
    ts.add_token(b"ab");
    ts.add_token(b"ra");
    let corpus = b"abracadabra abracadabra abracadabra";
    let chunked = scan_corpus(&ts, corpus, 1 << 20);
    let mut tok = Tokenizer::new(ts.duplicate());
    let whole = tok.process_slice(corpus);
    stats_eq(&chunked, &whole);
}

#[test]
fn chunked_scan_equals_manual_partition() {
    let mut ts = TokenSet::build_with_bin_literals();
    ts.add_token(b"ab");
    let corpus = b"ababXabab ababY";
    let by_scan = scan_corpus(&ts, corpus, 4);
    let by_hand = scan_parts(&ts, &[&corpus[0..4], &corpus[4..8], &corpus[8..12], &corpus[12..15]]);
    stats_eq(&by_scan, &by_hand);
}

#[test]
fn chunk_order_does_not_change_totals() {
    let mut ts = TokenSet::build_with_bin_literals();
    ts.add_token(b"ab");
    let corpus = b"ababXabab ababY";
    let fwd = scan_parts(&ts, &[&corpus[0..4], &corpus[4..8], &corpus[8..12], &corpus[12..15]]);
    let rev = scan_parts(&ts, &[&corpus[12..15], &corpus[8..12], &corpus[4..8], &corpus[0..4]]);
    stats_eq(&fwd, &rev);
}

#[test]
fn new_stats_are_zero_and_shaped() {
    let ts = TokenSet::build_with_hex_literals();
    let st = TokenStats::new(&ts);
    assert_eq!(st.token_count.len(), 273);
    assert_eq!(st.pair_count.len(), 273 * 273);
    assert!(st.token_count.iter().all(|&c| c == 0));
    assert!(st.pair_count.iter().all(|&c| c == 0));
    assert_eq!(st.cost, 0);
    assert_eq!(st.scanned_bytes, 0);
}

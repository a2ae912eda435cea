use tokeneer::bpe::Bpe;
use tokeneer::merge::MergeState;
use tokeneer::score::{rank, total_order_key};
use tokeneer::tokeneer::Tokeneer;
use tokeneer::vocab::{as_byte_token, CollectedVocab, CompressedVocab, VocabError};
use tokeneer::Method;

fn byte_vocab() -> (Vec<String>, Vec<u32>, Vec<bool>) {
    let mut vocabs = vec!["<unk>".to_string()];
    let mut scores = vec![0.0f32.to_bits()];
    let mut is_byte = vec![false];
    for b in 0..256u32 {
        vocabs.push(format!("<0x{:02X}>", b));
        scores.push(0.0f32.to_bits());
        is_byte.push(true);
    }
    (vocabs, scores, is_byte)
}

fn build(vocabs: &[String], scores: &[u32], is_byte: &[bool], unk: u32) -> Bpe {
    let v: Vec<&str> = vocabs.iter().map(|s| s.as_str()).collect();
    Bpe::new(&v, scores, is_byte, unk).unwrap()
}

/// unk, a, b, ab, c with ranks ab=0, c=1, a=2, b=3
fn classic() -> Bpe {
    let vocabs: Vec<String> = ["<unk>", "a", "b", "ab", "c"].iter().map(|s| s.to_string()).collect();
    let scores: Vec<u32> = [-10.0f32, 2.0, 1.0, 4.0, 3.0].iter().map(|f| f.to_bits()).collect();
    build(&vocabs, &scores, &[false; 5], 0)
}

fn with_bytes(extra: &[(&str, f32)]) -> Bpe {
    let (mut vocabs, mut scores, mut is_byte) = byte_vocab();
    for (p, s) in extra {
        vocabs.push(p.to_string());
        scores.push(s.to_bits());
        is_byte.push(false);
    }
    build(&vocabs, &scores, &is_byte, 0)
}

#[test]
fn empty_input() {
    let bpe = classic();
    assert_eq!(bpe.encode(""), Vec::<u32>::new());
    let t = Tokeneer::new(classic()).unwrap();
    assert_eq!(t.decode(&[]).unwrap(), "");
    assert_eq!(t.encode(""), Vec::<u32>::new());
}

#[test]
fn pure_byte_fallback() {
    let (vocabs, scores, is_byte) = byte_vocab();
    let bpe = build(&vocabs, &scores, &is_byte, 0);
    let toks = bpe.encode("Hi");
    assert_eq!(toks, vec![1 + 0x48, 1 + 0x69]);
    let t = Tokeneer::new(bpe).unwrap();
    assert_eq!(t.decode(&toks).unwrap(), "Hi");
}

#[test]
fn classic_merge() {
    let bpe = classic();
    assert_eq!(bpe.encode("abc"), vec![3, 4]);
    assert_eq!(bpe.encode("ab"), vec![3]);
    assert_eq!(bpe.encode("ba"), vec![2, 1]);
}

#[test]
fn tie_break_by_merge_id() {
    // "xy" (4) and "yz" (5) have the same score: the smaller merge id wins
    let vocabs: Vec<String> = ["<unk>", "x", "y", "z", "xy", "yz"].iter().map(|s| s.to_string()).collect();
    let scores: Vec<u32> = [-1.0f32, 0.0, 0.0, 0.0, 5.0, 5.0].iter().map(|f| f.to_bits()).collect();
    let bpe = build(&vocabs, &scores, &[false; 6], 0);
    assert_eq!(bpe.encode("xyz"), vec![4, 3]);
    // a higher score wins over the smaller id
    let scores: Vec<u32> = [-1.0f32, 0.0, 0.0, 0.0, 5.0, 6.0].iter().map(|f| f.to_bits()).collect();
    let bpe = build(&vocabs, &scores, &[false; 6], 0);
    assert_eq!(bpe.encode("xyz"), vec![1, 5]);
}

#[test]
fn self_referential_arena() {
    let pieces: Vec<Vec<u8>> = vec![b"hello".to_vec(), b"ell".to_vec(), b"lo".to_vec()];
    let c = CompressedVocab::new(&pieces, 10);
    assert_eq!(c.vocabs, b"hello".to_vec());
    assert_eq!(c.slices, vec![(0, 5), (1, 3), (3, 2)]);
    let bpe = build(&["hello".to_string(), "ell".to_string(), "lo".to_string()], &[0, 0, 0], &[false; 3], 0);
    assert_eq!(bpe.vocabs, b"hello".to_vec());
    assert_eq!(bpe.decode(1), b"ell");
    assert_eq!(bpe.decode(2), b"lo");
}

#[test]
fn round_trip_with_byte_tokens() {
    let bpe = with_bytes(&[("h", 1.0), ("e", 1.0), ("l", 1.0), ("o", 1.0), ("he", 3.0), ("ll", 2.0), ("hell", 4.0), ("llo", 2.5), ("你", 1.0)]);
    let t = Tokeneer::new(bpe).unwrap();
    for text in ["hello", "hellohello", "oh hello!", "你好 hello", "\u{1F600}x", "lllll"] {
        let toks = t.encode(text);
        assert_eq!(t.decode(&toks).unwrap(), text);
        assert!(!toks.contains(&0));
    }
    assert_eq!(t.internal().encode("hello"), vec![257 + 6, 257 + 3]);
}

#[test]
fn determinism() {
    let bpe = with_bytes(&[("a", 1.0), ("b", 1.0), ("ab", 2.0), ("ba", 2.0), ("aba", 3.0)]);
    let text = "abababbaab";
    let first = bpe.encode(text);
    for _ in 0..5 {
        assert_eq!(bpe.encode(text), first);
    }
}

#[test]
fn rank_stability() {
    let scores: Vec<u32> = [1.0f32, 3.0, 1.0, -2.0, 3.0, f32::NAN, -0.0, 0.0].iter().map(|f| f.to_bits()).collect();
    let r = rank(&scores);
    // NaN (positive) is above every number in the total order
    assert_eq!(r, vec![2, 1, 2, 5, 1, 0, 4, 3]);
    assert_eq!(rank(&[]), Vec::<u32>::new());
}

#[test]
fn total_order_key_values() {
    assert_eq!(total_order_key(0.0f32.to_bits()), 0);
    assert_eq!(total_order_key((-0.0f32).to_bits()), -1);
    assert_eq!(total_order_key(1.0f32.to_bits()), 0x3F80_0000);
    assert_eq!(total_order_key((-1.0f32).to_bits()), 0x7FFF_FFFF - 0xBF80_0000i64);
}

#[test]
fn piece_index_excludes_unk_and_bytes() {
    let bpe = with_bytes(&[("a", 1.0), ("b", 1.0), ("ab", 2.0)]);
    for &t in bpe.sorted_pieces.iter() {
        assert_ne!(t, bpe.unk);
        assert!(!bpe.bytes.contains(&t));
    }
    assert_eq!(bpe.sorted_pieces, vec![257, 259, 258]);
}

#[test]
fn merge_count_bounded_by_length() {
    let bpe = with_bytes(&[("a", 1.0), ("aa", 2.0), ("aaaa", 3.0), ("aaaaaaaa", 4.0)]);
    let text = "aaaaaaaaa";
    let mut st: MergeState = bpe.begin_merge(text);
    let mut calls = 0;
    loop {
        calls += 1;
        if !st.merge() {
            break;
        }
    }
    assert!(calls <= text.len());
    assert_eq!(st.tokens(), vec![260, 257]);
}

#[test]
fn greedy_order_of_merges() {
    // "bc" ranks above "ab": text "abc" merges b+c first, then nothing joins a+bc
    let vocabs: Vec<String> = ["<unk>", "a", "b", "c", "ab", "bc"].iter().map(|s| s.to_string()).collect();
    let scores: Vec<u32> = [-1.0f32, 0.0, 0.0, 0.0, 1.0, 2.0].iter().map(|f| f.to_bits()).collect();
    let bpe = build(&vocabs, &scores, &[false; 6], 0);
    assert_eq!(bpe.encode("abc"), vec![1, 5]);
}

#[test]
fn unknown_bytes_become_unk() {
    let bpe = classic();
    assert_eq!(bpe.encode("axb"), vec![1, 0, 2]);
    assert_eq!(bpe.encode("é"), vec![0, 0]);
}

#[test]
fn byte_token_escape() {
    assert_eq!(as_byte_token(b"<0x41>"), Some(0x41));
    assert_eq!(as_byte_token(b"<0xff>"), Some(255));
    assert_eq!(as_byte_token(b"<0xFf>"), Some(255));
    assert_eq!(as_byte_token(b"<0x9>"), None);
    assert_eq!(as_byte_token(b"<0xG0>"), None);
    assert_eq!(as_byte_token(b"<0X41>"), None);
}

#[test]
fn collect_detects_byte_tokens() {
    let pieces: Vec<&[u8]> = vec![b"<unk>", b"<0x41>", b"hi", b"<0x41>"];
    let c = CollectedVocab::collect(&pieces, 0);
    assert_eq!(c.vocabs, vec![b"<unk>".to_vec(), b"A".to_vec(), b"hi".to_vec(), b"A".to_vec()]);
    assert_eq!(c.total_len, 5 + 1 + 2 + 1);
    assert_eq!(c.bytes[0x41], 3);
    assert_eq!(c.bytes[0x42], 0);
}

#[test]
fn collect_with_hint_rejects_bad_byte_token() {
    let pieces: Vec<&[u8]> = vec![b"<unk>", b"<0x41>", b"x"];
    let r = CollectedVocab::collect_with_hint(&pieces, &[false, true, true], 0);
    assert!(matches!(r, Err(VocabError::InvalidByteToken)));
    let r = CollectedVocab::collect_with_hint(&pieces, &[false, false, false], 0).unwrap();
    assert_eq!(r.vocabs[1], b"<0x41>".to_vec());
    assert_eq!(r.bytes[0x41], 0);
}

#[test]
fn score_arity_mismatch() {
    let r = Bpe::new(&["<unk>", "a"], &[0], &[false, false], 0);
    assert!(matches!(r, Err(VocabError::ScoreArityMismatch)));
    let r = Bpe::new(&["<unk>", "<0x4>"], &[0, 0], &[false, true], 0);
    assert!(matches!(r, Err(VocabError::InvalidByteToken)));
}

#[test]
fn inaccessible_pieces() {
    // "abc" is a token but no merge builds it: "ab"+"c" is no piece pair here
    let vocabs: Vec<String> = ["<unk>", "a", "b", "c", "abc", "ab"].iter().map(|s| s.to_string()).collect();
    let scores: Vec<u32> = [-1.0f32, 0.0, 0.0, 0.0, 2.0, 1.0].iter().map(|f| f.to_bits()).collect();
    let bpe = build(&vocabs, &scores, &[false; 6], 0);
    assert_eq!(bpe.encode("abc"), vec![4]);
    let vocabs: Vec<String> = ["<unk>", "a", "b", "c", "abc"].iter().map(|s| s.to_string()).collect();
    let bpe = build(&vocabs, &[0, 0, 0, 0, 0], &[false; 5], 0);
    assert_eq!(bpe.inaccessible(), vec![(b"abc".to_vec(), 4)]);
}

fn record(piece: &[u8], score: f32) -> Vec<u8> {
    let mut content = vec![piece.len() as u8];
    content.extend_from_slice(piece);
    content.extend_from_slice(&[0x15, 0x15]);
    content.extend_from_slice(&score.to_bits().to_le_bytes());
    let mut r = vec![0x0A, (content.len() + 2) as u8, 0x0A];
    r.extend_from_slice(&content);
    r
}

#[test]
fn tokenizer_model_records() {
    let mut model = Vec::new();
    for (p, s) in [("<unk>", 0.0f32), ("<s>", 0.0), ("</s>", 0.0)] {
        model.extend(record(p.as_bytes(), s));
    }
    for b in 0..256u32 {
        model.extend(record(format!("<0x{:02X}>", b).as_bytes(), 0.0));
    }
    for (p, s) in [("a", -1.0f32), ("b", -2.0), ("ab", 1.0)] {
        model.extend(record(p.as_bytes(), s));
    }
    let bpe = Bpe::from_tokenizer_model(&model).unwrap();
    assert_eq!(bpe.vocab_size(), 3 + 256 + 3);
    assert_eq!(bpe.unk_token(), 0);
    assert_eq!(bpe.encode("ab"), vec![261]);
    assert_eq!(bpe.encode("ba!"), vec![260, 259, 3 + 0x21]);
    assert_eq!(bpe.decode(3 + 0x21), b"!");
    // a record cut short breaks the framing
    let mut cut = model.clone();
    cut.extend_from_slice(&[0x0A, 20, 0x0A, 1]);
    assert_eq!(Bpe::from_tokenizer_model(&cut).err(), Some(tokeneer::model::ModelError::MalformedModel));
    assert_eq!(Bpe::from_tokenizer_model(&[]).err(), Some(tokeneer::model::ModelError::MalformedModel));
}

#[test]
fn walks_over_live_tokens() {
    let bpe = classic();
    let mut st = bpe.begin_merge("abcab");
    while st.merge() {}
    let mut it = st.iter();
    let mut seen = Vec::new();
    while let Some(t) = it.next() {
        seen.push(t);
    }
    assert_eq!(seen, vec![3, 4, 3]);
    assert_eq!(st.tokens(), seen);
    let mut owned = st.into_iter();
    let mut again = Vec::new();
    while let Some(t) = owned.next() {
        again.push(t);
    }
    assert_eq!(again, seen);
}

#[test]
fn method_facade() {
    let vocabs: Vec<String> = ["<unk>", "a", "b", "c", "abc"].iter().map(|s| s.to_string()).collect();
    let bpe = build(&vocabs, &[0, 0, 0, 0, 0], &[false; 5], 0);
    assert_eq!(Method::vocab_size(&bpe), 5);
    assert_eq!(Method::unk_token(&bpe), 0);
    assert_eq!(Method::internal_special(&bpe), vec![(b"abc".to_vec(), 4)]);
    assert_eq!(Method::encode(&bpe, "cab"), vec![3, 1, 2]);
    // "abc" is special in the shell, so it comes out as one token
    let t = Tokeneer::new(bpe).unwrap();
    assert_eq!(t.encode("xabcab"), vec![0, 4, 1, 2]);
}

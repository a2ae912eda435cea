use tokeneer::lpe::Lpe;
use tokeneer::tokeneer::{Tokeneer, TokeneerError};
use tokeneer::Method;

/// 0 <unk>, 1 a, 2 b, fillers, 100 <s>, 101 </s>
fn special_vocab() -> Vec<Vec<u8>> {
    let mut v: Vec<Vec<u8>> = vec![b"<unk>".to_vec(), b"a".to_vec(), b"b".to_vec()];
    for i in 3..100 {
        v.push(format!("#{i}").into_bytes());
    }
    v.push(b"<s>".to_vec());
    v.push(b"</s>".to_vec());
    v
}

fn lpe_of(pieces: &[Vec<u8>]) -> Lpe {
    let refs: Vec<&[u8]> = pieces.iter().map(|p| p.as_slice()).collect();
    Lpe::new(&refs, 0)
}

#[test]
fn special_literal_splitting() {
    let mut t = Tokeneer::new(lpe_of(&special_vocab())).unwrap();
    t.extend_special(vec![("<s>".to_string(), vec![100]), ("</s>".to_string(), vec![101])]).unwrap();
    assert_eq!(t.encode("<s>a</s>b"), vec![100, 1, 101, 2]);
    assert_eq!(t.decode(&[100, 1, 101, 2]).unwrap(), "<s>a</s>b");
}

#[test]
fn special_literal_with_metacharacters() {
    let mut t = Tokeneer::new(lpe_of(&special_vocab())).unwrap();
    t.extend_special(vec![("a.b|(x)".to_string(), vec![7, 8]), ("/*".to_string(), vec![9])]).unwrap();
    assert_eq!(t.encode("aba.b|(x)/*b"), vec![1, 2, 7, 8, 9, 2]);
}

#[test]
fn special_conflict() {
    let mut t = Tokeneer::new(lpe_of(&special_vocab())).unwrap();
    t.extend_special(vec![("<s>".to_string(), vec![100])]).unwrap();
    assert_eq!(t.extend_special(vec![("<s>".to_string(), vec![100])]), Ok(()));
    assert_eq!(
        t.extend_special(vec![("x".to_string(), vec![5]), ("<s>".to_string(), vec![101])]),
        Err(TokeneerError::SpecialConflict)
    );
    // nothing changed
    assert_eq!(t.encode("x<s>"), vec![0, 100]);
}

#[test]
fn invalid_utf8_on_decode() {
    let mut pieces: Vec<Vec<u8>> = vec![b"<unk>".to_vec()];
    for b in 0..256u32 {
        pieces.push(format!("<0x{:02x}>", b).into_bytes());
    }
    let t = Tokeneer::new(lpe_of(&pieces)).unwrap();
    assert_eq!(t.decode(&[1 + 0xE4]), Err(TokeneerError::InvalidUtf8OnDecode));
    assert_eq!(t.decode(&[1 + 0xE4, 1 + 0xBD, 1 + 0xA0]).unwrap(), "你");
    assert_eq!(t.encode("你"), vec![1 + 0xE4, 1 + 0xBD, 1 + 0xA0]);
}

#[test]
fn lpe_longest_prefix_steps() {
    let pieces: Vec<Vec<u8>> = ["<unk>", "a", "ab", "abc", "b", "c"].iter().map(|s| s.as_bytes().to_vec()).collect();
    let lpe = lpe_of(&pieces);
    assert_eq!(lpe.encode("abcab"), vec![3, 2]);
    assert_eq!(lpe.encode("cba"), vec![5, 4, 1]);
    assert_eq!(lpe.encode("abx"), vec![2, 0]);
    assert_eq!(lpe.encode(""), Vec::<u32>::new());
    assert_eq!(lpe.vocab_size(), 6);
    assert_eq!(lpe.unk_token(), 0);
    assert_eq!(Method::decode(&lpe, 3), b"abc");
}

#[test]
fn lpe_later_duplicate_wins() {
    let pieces: Vec<Vec<u8>> = ["<unk>", "ab", "ab"].iter().map(|s| s.as_bytes().to_vec()).collect();
    let lpe = lpe_of(&pieces);
    assert_eq!(lpe.encode("abab"), vec![2, 2]);
}

#[test]
fn lpe_round_trip() {
    let mut pieces: Vec<Vec<u8>> = vec![b"<unk>".to_vec()];
    for b in 0..256u32 {
        pieces.push(format!("<0x{:02X}>", b).into_bytes());
    }
    for p in ["he", "hell", "o", " ", "wor", "ld"] {
        pieces.push(p.as_bytes().to_vec());
    }
    let t = Tokeneer::new(lpe_of(&pieces)).unwrap();
    for text in ["hello world", "", "hé!", "ooo"] {
        assert_eq!(t.decode(&t.encode(text)).unwrap(), text);
    }
    assert_eq!(t.encode("hello"), vec![258, 259]);
}

#[test]
fn vocabs_txt_lines() {
    let lpe = Lpe::from_vocabs_txt(b"\"<unk>\"\n\"a\"\r\n\"<0x62>\"\n\"ab\"\n").unwrap();
    assert_eq!(lpe.vocab_size(), 4);
    assert_eq!(lpe.encode("abb"), vec![3, 2]);
    assert_eq!(lpe.token(2), b"b");
    assert!(Lpe::from_vocabs_txt(b"\"a\"\nb\n").is_none());
    assert!(Lpe::from_vocabs_txt(b"").is_none());
}

#[test]
fn leftmost_first_literal_order() {
    let mut t = Tokeneer::new(lpe_of(&special_vocab())).unwrap();
    t.extend_special(vec![("<s".to_string(), vec![7]), ("<s>".to_string(), vec![100])]).unwrap();
    // the earlier literal wins where both start
    assert_eq!(t.encode("a<s>b"), vec![1, 7, 0, 2]);
    let mut u = Tokeneer::new(lpe_of(&special_vocab())).unwrap();
    u.extend_special(vec![("<s>".to_string(), vec![100]), ("<s".to_string(), vec![7])]).unwrap();
    assert_eq!(u.encode("a<s>b"), vec![1, 100, 2]);
    assert_eq!(u.encode("a<s>b"), u.encode("a<s>b"));
}

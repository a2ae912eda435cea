//! The longest prefix encoding tokenizer: a trie of the normal pieces, and at each step
//! the longest piece that starts the rest of the text.
use crate::bpe::in_table;
use crate::utok;
use crate::vocab::{auto_flags, byte_token_of, byte_owner, effective, slice_views, total_effective, CollectedVocab, CompressedVocab};
use patricia_tree::GenericPatriciaMap;
use vstd::prelude::*;
use vstd::string::StringSliceAdditionalSpecFns;

verus! {

#[verifier::external_type_specification]
#[verifier::external_body]
#[verifier::reject_recursive_types(K)]
#[verifier::reject_recursive_types(V)]
pub struct ExGenericPatriciaMap<K, V>(GenericPatriciaMap<K, V>);

/// The entries of a trie, key bytes to token.
pub uninterp spec fn trie_entries(m: GenericPatriciaMap<Vec<u8>, u32>) -> Map<Seq<u8>, u32>;

/// Relies on patricia_tree's GenericPatriciaMap::new: an empty map.
#[verifier::external_body]
fn trie_new() -> (r: GenericPatriciaMap<Vec<u8>, u32>)
    ensures
        trie_entries(r).dom() == Set::<Seq<u8>>::empty(),
{
    GenericPatriciaMap::new()
}

/// Relies on patricia_tree's GenericPatriciaMap::insert: `key` now maps to `value`,
/// other entries stay.
#[verifier::external_body]
fn trie_insert(m: &mut GenericPatriciaMap<Vec<u8>, u32>, key: &[u8], value: u32)
    ensures
        trie_entries(*final(m)) == trie_entries(*old(m)).insert(key@, value),
{
    m.insert(key, value);
}

/// Relies on patricia_tree's GenericPatriciaMap::get_longest_common_prefix: the longest
/// key of the map that is a prefix of `key`, given by its length, and its value.
#[verifier::external_body]
fn trie_longest_prefix(m: &GenericPatriciaMap<Vec<u8>, u32>, key: &[u8]) -> (r: Option<(usize, u32)>)
    ensures
        match r {
            Some((l, v)) => l <= key.len() && trie_entries(*m).contains_key(key@.take(l as int))
                && trie_entries(*m)[key@.take(l as int)] == v
                && forall|l2: int| l < l2 <= key.len() ==> !trie_entries(*m).contains_key(#[trigger] key@.take(l2)),
            None => forall|l2: int| 0 <= l2 <= key.len() ==> !trie_entries(*m).contains_key(#[trigger] key@.take(l2)),
        },
{
    m.get_longest_common_prefix(key).map(|(k, v)| (k.len(), *v))
}

/// `l` is the length of the longest non-empty piece of `e` that starts `t`.
pub open spec fn is_longest(e: Map<Seq<u8>, u32>, t: Seq<u8>, l: int) -> bool {
    &&& 0 < l <= t.len()
    &&& e.contains_key(t.take(l))
    &&& forall|l2: int| l < l2 <= t.len() ==> !e.contains_key(#[trigger] t.take(l2))
}

/// Longest prefix encoding of `t` over the trie entries `e` and the byte table.
pub open spec fn lpe_spec(e: Map<Seq<u8>, u32>, bytes: Seq<utok>, t: Seq<u8>) -> Seq<utok>
    decreases t.len(),
{
    if t.len() == 0 {
        Seq::empty()
    } else if exists|l: int| is_longest(e, t, l) {
        let l = choose|l: int| is_longest(e, t, l);
        if 0 < l <= t.len() {
            seq![e[t.take(l)]] + lpe_spec(e, bytes, t.skip(l))
        } else {
            Seq::empty()
        }
    } else {
        seq![bytes[t[0] as int]] + lpe_spec(e, bytes, t.skip(1))
    }
}

/// Each step of the encoding takes the longest piece that starts the text and goes on
/// after exactly its length; with no such piece, it takes the first byte's token and goes
/// on after one byte.
pub proof fn lemma_lpe_step(e: Map<Seq<u8>, u32>, bytes: Seq<utok>, t: Seq<u8>, l: int)
    requires
        t.len() > 0,
    ensures
        is_longest(e, t, l) ==> lpe_spec(e, bytes, t) == seq![e[t.take(l)]] + lpe_spec(e, bytes, t.skip(l)),
        (forall|l2: int| 0 < l2 <= t.len() ==> !e.contains_key(#[trigger] t.take(l2)))
            ==> lpe_spec(e, bytes, t) == seq![bytes[t[0] as int]] + lpe_spec(e, bytes, t.skip(1)),
{
    if is_longest(e, t, l) {
        let c = choose|c: int| is_longest(e, t, c);
        if c > l {
            assert(!e.contains_key(t.take(c)));
        } else if c < l {
            assert(!e.contains_key(t.take(l)));
        }
    }
    if forall|l2: int| 0 < l2 <= t.len() ==> !e.contains_key(#[trigger] t.take(l2)) {
        assert(!exists|c: int| is_longest(e, t, c));
    }
}

/// Encoding is a function of the tokenizer and the text: two encodings of one text by
/// one tokenizer are equal.
pub proof fn lemma_lpe_deterministic(l: &Lpe, text: Seq<u8>, r1: Seq<utok>, r2: Seq<utok>)
    requires
        r1 == lpe_spec(l.entries(), l.bytes@, text),
        r2 == lpe_spec(l.entries(), l.bytes@, text),
    ensures
        r1 == r2,
{
}

/// Where every byte of the text has a byte token, no token of the encoding is `unk`.
pub proof fn lemma_lpe_no_unk(l: &Lpe, t: Seq<u8>)
    requires
        l.wf(),
        forall|i: int| 0 <= i < t.len() ==> l.bytes@[#[trigger] t[i] as int] != l.unk,
    ensures
        forall|k: int| 0 <= k < lpe_spec(l.entries(), l.bytes@, t).len()
            ==> #[trigger] lpe_spec(l.entries(), l.bytes@, t)[k] != l.unk,
    decreases t.len(),
{
    let e = l.entries();
    let r = lpe_spec(e, l.bytes@, t);
    if t.len() > 0 {
        if exists|c: int| is_longest(e, t, c) {
            let c = choose|c: int| is_longest(e, t, c);
            let rest = t.skip(c);
            assert forall|i: int| 0 <= i < rest.len() implies l.bytes@[#[trigger] rest[i] as int] != l.unk by {
                assert(rest[i] == t[c + i]);
            }
            lemma_lpe_no_unk(l, rest);
            assert(e.contains_key(t.take(c)));
            assert forall|k: int| 0 <= k < r.len() implies #[trigger] r[k] != l.unk by {
                if k > 0 {
                    assert(r[k] == lpe_spec(e, l.bytes@, rest)[k - 1]);
                }
            }
        } else {
            let rest = t.skip(1);
            assert forall|i: int| 0 <= i < rest.len() implies l.bytes@[#[trigger] rest[i] as int] != l.unk by {
                assert(rest[i] == t[1 + i]);
            }
            lemma_lpe_no_unk(l, rest);
            assert forall|k: int| 0 <= k < r.len() implies #[trigger] r[k] != l.unk by {
                if k > 0 {
                    assert(r[k] == lpe_spec(e, l.bytes@, rest)[k - 1]);
                }
            }
        }
    }
}

/// A longest prefix encoding tokenizer.
pub struct Lpe {
    /// The arena that holds every piece.
    pub vocabs: Vec<u8>,
    /// Offset and length of each token's piece in the arena.
    pub tokens: Vec<(usize, usize)>,
    /// The normal pieces, each to its token.
    pub trie: GenericPatriciaMap<Vec<u8>, u32>,
    /// For each byte, the token that stands for it, or `unk`.
    pub bytes: Vec<utok>,
    /// The unknown token.
    pub unk: utok,
}

impl Lpe {
    pub open spec fn piece(&self, t: int) -> Seq<u8> {
        self.vocabs@.subrange(self.tokens@[t].0 as int, self.tokens@[t].0 + self.tokens@[t].1)
    }

    pub open spec fn entries(&self) -> Map<Seq<u8>, u32> {
        trie_entries(self.trie)
    }

    pub open spec fn wf(&self) -> bool {
        &&& self.tokens.len() <= u32::MAX as int + 1
        &&& self.unk < self.tokens.len()
        &&& forall|t: int| 0 <= t < self.tokens.len() ==> #[trigger] self.tokens@[t].0 + self.tokens@[t].1 <= self.vocabs.len()
        &&& self.bytes.len() == 256
        &&& forall|b: int| 0 <= b < 256 ==> #[trigger] self.bytes@[b] < self.tokens.len()
        &&& forall|b: int| 0 <= b < 256 && #[trigger] self.bytes@[b] != self.unk
                ==> self.piece(self.bytes@[b] as int) == seq![b as u8]
        &&& forall|k: Seq<u8>| #[trigger] self.entries().contains_key(k) ==> {
                let t = self.entries()[k];
                &&& t < self.tokens.len()
                &&& t != self.unk
                &&& self.piece(t as int) == k
            }
    }

    /// The concatenated pieces of `toks`.
    pub open spec fn decoded(&self, toks: Seq<utok>) -> Seq<u8>
        decreases toks.len(),
    {
        if toks.len() == 0 {
            Seq::empty()
        } else {
            self.decoded(toks.drop_last()) + self.piece(toks.last() as int)
        }
    }

    /// Encodes the bytes of a text: repeatedly the longest piece that starts the rest, or,
    /// where none does, the token of its first byte.
    #[verifier::rlimit(60)]
    pub fn encode_bytes(&self, text: &[u8]) -> (r: Vec<utok>)
        requires
            self.wf(),
        ensures
            r@ == lpe_spec(self.entries(), self.bytes@, text@),
            forall|k: int| 0 <= k < r.len() ==> #[trigger] r@[k] < self.tokens.len(),
            (forall|k: int| 0 <= k < r.len() ==> #[trigger] r@[k] != self.unk) ==> self.decoded(r@) == text@,
    {
        let ghost e = self.entries();
        let n = text.len();
        let mut r: Vec<utok> = Vec::new();
        let mut i: usize = 0;
        assert(text@.skip(0) =~= text@);
        assert(text@.take(0) =~= Seq::<u8>::empty());
        while i < n
            invariant
                self.wf(),
                e == self.entries(),
                n == text.len(),
                i <= n,
                lpe_spec(e, self.bytes@, text@) == r@ + lpe_spec(e, self.bytes@, text@.skip(i as int)),
                forall|k: int| 0 <= k < r.len() ==> #[trigger] r@[k] < self.tokens.len(),
                (forall|k: int| 0 <= k < r.len() ==> #[trigger] r@[k] != self.unk) ==> self.decoded(r@) == text@.take(i as int),
            decreases n - i,
        {
            let rest = vstd::slice::slice_subrange(text, i, n);
            assert(rest@ =~= text@.skip(i as int));
            let found = trie_longest_prefix(&self.trie, rest);
            let (tok, len): (utok, usize) = match found {
                Some((l, v)) => {
                    if l > 0 {
                        (v, l)
                    } else {
                        (self.bytes[text[i] as usize], 1)
                    }
                },
                None => (self.bytes[text[i] as usize], 1),
            };
            proof {
                let l = len as int;
                lemma_lpe_step(e, self.bytes@, rest@, l);
                if found matches Some((l0, v)) && l0 > 0 {
                    assert(is_longest(e, rest@, l));
                    assert(e.contains_key(rest@.take(l)));
                    assert(self.piece(tok as int) == rest@.take(l));
                } else {
                    assert forall|l2: int| 0 < l2 <= rest@.len() implies !e.contains_key(#[trigger] rest@.take(l2)) by {
                    }
                    if tok != self.unk {
                        assert(self.piece(tok as int) =~= rest@.take(1));
                    }
                }
                assert(rest@.skip(l) =~= text@.skip(i + l));
                assert(rest@.take(l) =~= text@.subrange(i as int, i + l));
            }
            let ghost r0 = r@;
            r.push(tok);
            proof {
                assert(r@ =~= r0 + seq![tok]);
                assert(r@.drop_last() =~= r0);
                if forall|k: int| 0 <= k < r.len() ==> #[trigger] r@[k] != self.unk {
                    assert forall|k: int| 0 <= k < r0.len() implies #[trigger] r0[k] != self.unk by {
                        assert(r@[k] == r0[k]);
                    }
                    assert(r@[r0.len() as int] != self.unk);
                    assert(text@.take(i + len) =~= text@.take(i as int) + text@.subrange(i as int, i + len));
                }
            }
            i += len;
        }
        assert(text@.skip(n as int) =~= Seq::<u8>::empty());
        assert(text@.take(n as int) =~= text@);
        assert(r@ + Seq::<utok>::empty() =~= r@);
        r
    }

    /// Builds the tokenizer from its pieces (a piece reading `<0xHH>` is the byte token
    /// of that byte) and the unknown token. A piece met again replaces the earlier one in
    /// the trie.
    #[verifier::rlimit(60)]
    pub fn new(vocabs: &[&[u8]], unk: utok) -> (r: Lpe)
        requires
            vocabs.len() <= u32::MAX,
            unk < vocabs.len(),
            total_effective(slice_views(vocabs@), auto_flags(slice_views(vocabs@)), vocabs.len() as int) <= usize::MAX,
        ensures
            r.wf(),
            r.unk == unk,
            r.tokens.len() == vocabs.len(),
            forall|i: int| 0 <= i < vocabs.len() ==>
                #[trigger] r.piece(i) == effective(vocabs@[i]@, auto_flags(slice_views(vocabs@))[i]),
            forall|b: int| 0 <= b < 256 ==> #[trigger] r.bytes@[b]
                == byte_owner(slice_views(vocabs@), auto_flags(slice_views(vocabs@)), vocabs.len() as int, b as u8, unk),
            forall|t: utok| t < vocabs.len() && t != unk && !in_table(r.bytes@, t)
                ==> #[trigger] r.entries().contains_key(r.piece(t as int)),            forall|k: Seq<u8>| #[trigger] r.entries().contains_key(k) ==> {
                let t = r.entries()[k];
                &&& t < vocabs.len()
                &&& t != unk
                &&& !in_table(r.bytes@, t)
                &&& r.piece(t as int) == k
                &&& forall|u: utok| t < u < vocabs.len() && u != unk && !in_table(r.bytes@, u) ==> r.piece(u as int) != k
            },
    {
        let collected = CollectedVocab::collect(vocabs, unk);
        let comp = CompressedVocab::new(collected.vocabs.as_slice(), collected.total_len);
        let n = vocabs.len();
        let ghost ps = slice_views(vocabs@);
        let ghost fs = auto_flags(ps);
        let mut trie = trie_new();
        let mut i: usize = 0;
        while i < n
            invariant
                i <= n == vocabs.len() == comp.slices.len() == collected.vocabs.len(),
                n <= u32::MAX,
                unk < n,
                collected.bytes.len() == 256,
                forall|j: int| 0 <= j < n ==> #[trigger] comp.holds(j, collected.vocabs@[j]@),
                forall|k: Seq<u8>| #[trigger] trie_entries(trie).contains_key(k) ==> {
                    let t = trie_entries(trie)[k];
                    &&& t < n
                    &&& t != unk
                    &&& comp.holds(t as int, k)
                    &&& t < i
                    &&& !in_table(collected.bytes@, t)
                    &&& forall|u: utok| t < u < i && u != unk && !in_table(collected.bytes@, u) ==> collected.vocabs@[u as int]@ != k
                },
                forall|u: utok| u < i && u != unk && !in_table(collected.bytes@, u)
                    ==> #[trigger] trie_entries(trie).contains_key(collected.vocabs@[u as int]@),
            decreases n - i,
        {
            let t = i as utok;
            if t != unk && !crate::bpe::table_has(&collected.bytes, t) {
                let (off, len) = comp.slices[i];
                proof {
                    assert(comp.holds(i as int, collected.vocabs@[i as int]@));
                }
                let piece = vstd::slice::slice_subrange(comp.vocabs.as_slice(), off, off + len);
                let ghost before = trie_entries(trie);
                trie_insert(&mut trie, piece, t);
                proof {
                    assert forall|k: Seq<u8>| #[trigger] trie_entries(trie).contains_key(k) implies {
                        let u = trie_entries(trie)[k];
                        &&& u < n
                        &&& u != unk
                        &&& comp.holds(u as int, k)
                        &&& u < i + 1
                        &&& !in_table(collected.bytes@, u)
                        &&& forall|w: utok| u < w < i + 1 && w != unk && !in_table(collected.bytes@, w) ==> collected.vocabs@[w as int]@ != k
                    } by {
                        assert(piece@ == collected.vocabs@[i as int]@);
                        if k != piece@ {
                            assert(before.contains_key(k));
                        }
                    }
                    assert forall|u: utok| u < i + 1 && u != unk && !in_table(collected.bytes@, u)
                        implies #[trigger] trie_entries(trie).contains_key(collected.vocabs@[u as int]@) by {
                        if u < i {
                            assert(before.contains_key(collected.vocabs@[u as int]@));
                        } else {
                            assert(piece@ == collected.vocabs@[u as int]@);
                        }
                    }
                }
            }
            i += 1;
        }
        let mut tokens: Vec<(usize, usize)> = Vec::new();
        let mut i: usize = 0;
        while i < n
            invariant
                i <= n == comp.slices.len(),
                tokens@ == comp.slices@.take(i as int),
            decreases n - i,
        {
            tokens.push(comp.slices[i]);
            i += 1;
            assert(tokens@ =~= comp.slices@.take(i as int));
        }
        assert(tokens@ =~= comp.slices@);
        let r = Lpe { vocabs: comp.vocabs, tokens, trie, bytes: collected.bytes, unk };
        proof {
            assert forall|j: int| 0 <= j < n implies #[trigger] r.piece(j) == effective(vocabs@[j]@, fs[j]) by {
                assert(comp.holds(j, collected.vocabs@[j]@));
                assert(ps[j] == vocabs@[j]@);
            }
            assert forall|b: int| 0 <= b < 256 && #[trigger] r.bytes@[b] != r.unk
                implies r.piece(r.bytes@[b] as int) == seq![b as u8] by {
                crate::bpe::lemma_byte_owner(ps, fs, n as int, b as u8, unk);
                let o = r.bytes@[b] as int;
                assert(comp.holds(o, collected.vocabs@[o]@));
                assert(r.piece(o) =~= seq![b as u8]);
            }
            assert forall|t: int| 0 <= t < r.tokens.len() implies #[trigger] r.tokens@[t].0 + r.tokens@[t].1 <= r.vocabs.len() by {
                assert(comp.holds(t, collected.vocabs@[t]@));
            }
            assert forall|b: int| 0 <= b < 256 implies #[trigger] r.bytes@[b] < r.tokens.len() by {
                crate::bpe::lemma_byte_owner(ps, fs, n as int, b as u8, unk);
            }
            assert forall|t: utok| t < n && t != unk && !in_table(r.bytes@, t)
                implies #[trigger] r.entries().contains_key(r.piece(t as int)) by {
                assert(comp.holds(t as int, collected.vocabs@[t as int]@));
                assert(trie_entries(trie).contains_key(collected.vocabs@[t as int]@));
            }
            assert forall|k: Seq<u8>| #[trigger] r.entries().contains_key(k) implies {
                let t = r.entries()[k];
                &&& t < vocabs.len()
                &&& t != unk
                &&& !in_table(r.bytes@, t)
                &&& r.piece(t as int) == k
                &&& forall|u: utok| t < u < vocabs.len() && u != unk && !in_table(r.bytes@, u) ==> r.piece(u as int) != k
            } by {
                let t = r.entries()[k];
                assert(comp.holds(t as int, k));
                assert forall|u: utok| t < u < vocabs.len() && u != unk && !in_table(r.bytes@, u) implies r.piece(u as int) != k by {
                    assert(comp.holds(u as int, collected.vocabs@[u as int]@));
                }
            }
            assert forall|k: Seq<u8>| #[trigger] r.entries().contains_key(k) implies {
                let t = r.entries()[k];
                &&& t < r.tokens.len()
                &&& t != r.unk
                &&& r.piece(t as int) == k
            } by {
                let t = r.entries()[k];
                assert(comp.holds(t as int, k));
            }
        }
        r
    }
}

impl Lpe {
    /// Encodes a text into token ids.
    pub fn encode(&self, text: &str) -> (r: Vec<utok>)
        requires
            self.wf(),
        ensures
            r@ == lpe_spec(self.entries(), self.bytes@, text.spec_bytes()),
            forall|k: int| 0 <= k < r.len() ==> #[trigger] r@[k] < self.tokens.len(),
            (forall|k: int| 0 <= k < r.len() ==> #[trigger] r@[k] != self.unk) ==> self.decoded(r@) == text.spec_bytes(),
            (forall|i: int| 0 <= i < text.spec_bytes().len() ==> self.bytes@[#[trigger] text.spec_bytes()[i] as int] != self.unk)
                ==> self.decoded(r@) == text.spec_bytes(),
    {
        let r = self.encode_bytes(text.as_bytes());
        proof {
            if forall|i: int| 0 <= i < text.spec_bytes().len() ==> self.bytes@[#[trigger] text.spec_bytes()[i] as int] != self.unk {
                lemma_lpe_no_unk(self, text.spec_bytes());
            }
        }
        r
    }

    /// The piece of a token.
    pub fn token(&self, t: utok) -> (r: &[u8])
        requires
            self.wf(),
            t < self.tokens.len(),
        ensures
            r@ == self.piece(t as int),
    {
        let (off, len) = self.tokens[t as usize];
        vstd::slice::slice_subrange(self.vocabs.as_slice(), off, off + len)
    }
}

/// The lines of `t`: split at `\n`, a `\r` before it dropped, no empty last line after a
/// final `\n`.
pub open spec fn lines_of(t: Seq<u8>) -> Seq<Seq<u8>>
    decreases t.len(),
{
    if t.len() == 0 {
        Seq::empty()
    } else if exists|i: int| 0 <= i < t.len() && t[i] == 0x0A {
        let i = choose|i: int| 0 <= i < t.len() && t[i] == 0x0A && forall|j: int| 0 <= j < i ==> t[j] != 0x0A;
        if 0 <= i < t.len() {
            seq![strip_cr(t.take(i))] + lines_of(t.skip(i + 1))
        } else {
            Seq::empty()
        }
    } else {
        seq![strip_cr(t)]
    }
}

pub open spec fn strip_cr(l: Seq<u8>) -> Seq<u8> {
    if l.len() > 0 && l.last() == 0x0D { l.drop_last() } else { l }
}

/// The piece of a line `"..."`.
pub open spec fn quoted(l: Seq<u8>) -> Option<Seq<u8>> {
    if l.len() >= 2 && l[0] == 0x22 && l.last() == 0x22 { Some(l.subrange(1, l.len() - 1)) } else { None }
}

/// The first line of `txt[start..]`: where its text ends, and where the next line starts.
fn first_line(txt: &[u8], start: usize) -> (r: (usize, usize))
    requires
        start < txt.len(),
    ensures
        start <= r.0 <= txt.len(),
        start < r.1 <= txt.len(),
        lines_of(txt@.skip(start as int)) == seq![txt@.subrange(start as int, r.0 as int)] + lines_of(txt@.skip(r.1 as int)),
{
    let n = txt.len();
    let mut e: usize = start;
    while e < n && txt[e] != 0x0A
        invariant
            start <= e <= n == txt.len(),
            forall|j: int| start <= j < e ==> txt@[j] != 0x0A,
        decreases n - e,
    {
        e += 1;
    }
    let ghost rest = txt@.skip(start as int);
    let mut le = e;
    if le > start && txt[le - 1] == 0x0D {
        le -= 1;
    }
    proof {
        if e < n {
            assert(rest[e - start] == 0x0A);
            let i = choose|i: int| 0 <= i < rest.len() && rest[i] == 0x0A && forall|j: int| 0 <= j < i ==> rest[j] != 0x0A;
            assert(i == e - start) by {
                if i < e - start {
                    assert(txt@[start + i] != 0x0A);
                }
                if i > e - start {
                    assert(rest[e - start] != 0x0A);
                }
            }
            assert(strip_cr(rest.take(i)) =~= txt@.subrange(start as int, le as int));
            assert(rest.skip(i + 1) =~= txt@.skip(e + 1));
        } else {
            assert forall|i: int| 0 <= i < rest.len() implies rest[i] != 0x0A by {
                assert(txt@[start + i] != 0x0A);
            }
            assert(strip_cr(rest) =~= txt@.subrange(start as int, le as int));
            assert(txt@.skip(n as int) =~= Seq::<u8>::empty());
            assert(seq![strip_cr(rest)] =~= seq![strip_cr(rest)] + Seq::<Seq<u8>>::empty());
        }
    }
    (le, if e < n { e + 1 } else { n })
}

impl Lpe {
    /// Builds the tokenizer from a `vocabs.txt` buffer: one piece per line, written `"..."`;
    /// token 0 is `unk`. None when there is no line, a line is not quoted, or the pieces
    /// do not fit in memory.
    #[verifier::rlimit(60)]
    pub fn from_vocabs_txt(txt: &[u8]) -> (r: Option<Lpe>)
        ensures
            r matches Some(l) ==> {
                &&& l.wf()
                &&& l.unk == 0
                &&& l.tokens.len() == lines_of(txt@).len()
                &&& forall|i: int| 0 <= i < l.tokens.len() ==> #[trigger] l.piece(i)
                    == effective(quoted(lines_of(txt@)[i]).unwrap(), byte_token_of(quoted(lines_of(txt@)[i]).unwrap()).is_some())
            },
            (exists|i: int| 0 <= i < lines_of(txt@).len() && quoted(#[trigger] lines_of(txt@)[i]) is None) ==> r is None,
            lines_of(txt@).len() == 0 ==> r is None,
            ({
                let ls = lines_of(txt@);
                let ps = Seq::new(ls.len(), |i: int| quoted(ls[i]).unwrap());
                (0 < ls.len() <= u32::MAX && (forall|i: int| 0 <= i < ls.len() ==> quoted(#[trigger] ls[i]) is Some)
                    && total_effective(ps, auto_flags(ps), ps.len() as int) <= usize::MAX) ==> r is Some
            }),
    {
        let n = txt.len();
        let mut pieces: Vec<&[u8]> = Vec::new();
        let mut start: usize = 0;
        let ghost done: Seq<Seq<u8>> = Seq::empty();
        assert(txt@.skip(0) =~= txt@);
        assert(lines_of(txt@) =~= done + lines_of(txt@.skip(0)));
        while start < n
            invariant
                start <= n == txt.len(),
                lines_of(txt@) == done + lines_of(txt@.skip(start as int)),
                pieces.len() == done.len(),
                forall|i: int| 0 <= i < done.len() ==> quoted(#[trigger] done[i]) == Some(pieces@[i]@),
            decreases n - start,
        {
            let (le, next) = first_line(txt, start);
            let line = vstd::slice::slice_subrange(txt, start, le);
            if line.len() < 2 || line[0] != 0x22 || line[line.len() - 1] != 0x22 {
                proof {
                    assert(lines_of(txt@)[done.len() as int] == line@);
                }
                return None;
            }
            let piece = vstd::slice::slice_subrange(line, 1, line.len() - 1);
            pieces.push(piece);
            proof {
                let d0 = done;
                done = done.push(line@);
                assert forall|i: int| 0 <= i < done.len() implies quoted(#[trigger] done[i]) == Some(pieces@[i]@) by {
                    if i < d0.len() {
                        assert(done[i] == d0[i]);
                    }
                }
                assert(d0 + (seq![line@] + lines_of(txt@.skip(next as int))) =~= done + lines_of(txt@.skip(next as int)));
            }
            start = next;
        }
        assert(txt@.skip(start as int) =~= Seq::<u8>::empty());
        assert(done + Seq::<Seq<u8>>::empty() =~= done);
        if pieces.len() == 0 || pieces.len() > u32::MAX as usize {
            return None;
        }
        let ghost ps = slice_views(pieces@);
        proof {
            let ls = lines_of(txt@);
            assert(ls == done);
            assert forall|i: int| 0 <= i < ls.len() implies quoted(#[trigger] ls[i]) is Some by {
                assert(quoted(done[i]) == Some(pieces@[i]@));
            }
            assert(Seq::new(ls.len(), |i: int| quoted(ls[i]).unwrap()) =~= ps) by {
                assert forall|i: int| 0 <= i < ls.len() implies quoted(ls[i]).unwrap() == ps[i] by {
                    assert(quoted(done[i]) == Some(pieces@[i]@));
                }
            }
        }
        let mut flags: Vec<bool> = Vec::new();
        let mut i: usize = 0;
        while i < pieces.len()
            invariant
                i <= pieces.len(),
                ps == slice_views(pieces@),
                flags@ =~= auto_flags(ps).take(i as int),
            decreases pieces.len() - i,
        {
            flags.push(crate::vocab::as_byte_token(pieces[i]).is_some());
            i += 1;
        }
        assert(flags@ =~= auto_flags(ps));
        if !crate::model::total_fits(pieces.as_slice(), &flags) {
            return None;
        }
        let l = Lpe::new(pieces.as_slice(), 0);
        proof {
            assert forall|i: int| 0 <= i < l.tokens.len() implies #[trigger] l.piece(i)
                == effective(quoted(lines_of(txt@)[i]).unwrap(), byte_token_of(quoted(lines_of(txt@)[i]).unwrap()).is_some()) by {
                assert(quoted(done[i]) == Some(pieces@[i]@));
                assert(ps[i] == pieces@[i]@);
            }
        }
        Some(l)
    }
}

impl crate::Method for Lpe {
    open spec fn method_wf(&self) -> bool {
        self.wf()
    }

    open spec fn vocab_len(&self) -> nat {
        self.tokens.len() as nat
    }

    open spec fn piece_of(&self, t: utok) -> Seq<u8> {
        self.piece(t as int)
    }

    open spec fn unk_id(&self) -> utok {
        self.unk
    }

    open spec fn decoded_by(&self, toks: Seq<utok>) -> Seq<u8> {
        self.decoded(toks)
    }

    proof fn lemma_decoded_by(&self, toks: Seq<utok>) {
    }

    open spec fn specials(&self) -> Seq<(Seq<u8>, utok)> {
        Seq::empty()
    }

    open spec fn encoding(&self, text: Seq<u8>) -> Seq<utok> {
        lpe_spec(self.entries(), self.bytes@, text)
    }

    open spec fn encodes(&self, text: Seq<u8>, r: Seq<utok>) -> bool {
        r == lpe_spec(self.entries(), self.bytes@, text)
    }

    fn unk_token(&self) -> (r: utok) {
        self.unk
    }

    fn vocab_size(&self) -> (r: usize) {
        self.tokens.len()
    }

    fn internal_special(&self) -> (r: Vec<(Vec<u8>, utok)>) {
        let r: Vec<(Vec<u8>, utok)> = Vec::new();
        assert(Seq::new(r@.len(), |i: int| (r@[i].0@, r@[i].1)) =~= Seq::<(Seq<u8>, utok)>::empty());
        r
    }

    fn encode(&self, text: &str) -> (r: Vec<utok>) {
        Lpe::encode(self, text)
    }

    fn encode_bytes(&self, text: &[u8]) -> (r: Vec<utok>) {
        Lpe::encode_bytes(self, text)
    }

    fn decode(&self, token: utok) -> (r: &[u8]) {
        self.token(token)
    }
}

} // verus!

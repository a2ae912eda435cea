//! The byte pair encoding tokenizer: its vocabulary tables and the piece index.
use crate::lex::{compare_bytes, lemma_lex_asymmetric, lemma_lex_irreflexive, lemma_lex_total, lemma_lex_transitive, lex_lt};
use crate::score::{dense_ranks, rank};
use crate::utok;
use crate::vocab::{byte_owner, claims, effective, invalid_hint, slice_views, total_effective, CollectedVocab, CompressedVocab, VocabError};
use vstd::prelude::*;
use vstd::string::StringSliceAdditionalSpecFns;

verus! {

/// Where a token's piece lies in the arena, and its merge rank (0 merges first).
#[derive(Clone, Copy, Debug)]
pub struct TokenMeta {
    pub off: usize,
    pub len: usize,
    pub rank: u32,
}

/// The piece of token `t`, read from `arena` through `tokens`.
pub open spec fn piece_in(arena: Seq<u8>, tokens: Seq<TokenMeta>, t: int) -> Seq<u8> {
    arena.subrange(tokens[t].off as int, tokens[t].off + tokens[t].len)
}

/// Order of the piece index: by piece, then by id.
pub open spec fn key_lt_in(arena: Seq<u8>, tokens: Seq<TokenMeta>, a: utok, b: utok) -> bool {
    lex_lt(piece_in(arena, tokens, a as int), piece_in(arena, tokens, b as int))
        || (piece_in(arena, tokens, a as int) == piece_in(arena, tokens, b as int) && a < b)
}

pub open spec fn sorted_in(arena: Seq<u8>, tokens: Seq<TokenMeta>, s: Seq<utok>) -> bool {
    forall|i: int, j: int| 0 <= i < j < s.len() ==> key_lt_in(arena, tokens, #[trigger] s[i], #[trigger] s[j])
}

pub proof fn lemma_key_transitive(arena: Seq<u8>, tokens: Seq<TokenMeta>, a: utok, b: utok, c: utok)
    requires
        key_lt_in(arena, tokens, a, b),
        key_lt_in(arena, tokens, b, c),
    ensures
        key_lt_in(arena, tokens, a, c),
{
    let pa = piece_in(arena, tokens, a as int);
    let pb = piece_in(arena, tokens, b as int);
    let pc = piece_in(arena, tokens, c as int);
    if lex_lt(pa, pb) && lex_lt(pb, pc) {
        lemma_lex_transitive(pa, pb, pc);
    }
}

pub open spec fn in_table(bytes: Seq<utok>, t: utok) -> bool {
    exists|b: int| 0 <= b < 256 && bytes[b] == t
}

pub(crate) fn table_has(bytes: &Vec<utok>, t: utok) -> (r: bool)
    requires
        bytes.len() == 256,
    ensures
        r == in_table(bytes@, t),
{
    let mut b: usize = 0;
    while b < 256
        invariant
            b <= 256,
            bytes.len() == 256,
            forall|c: int| 0 <= c < b ==> bytes@[c] != t,
        decreases 256 - b,
    {
        if bytes[b] == t {
            return true;
        }
        b += 1;
    }
    false
}

/// The ids of all tokens but `unk` and the byte tokens, ordered by piece, then id.
#[verifier::rlimit(60)]
fn build_index(arena: &Vec<u8>, tokens: &Vec<TokenMeta>, bytes: &Vec<utok>, unk: utok) -> (r: Vec<utok>)
    requires
        tokens.len() <= u32::MAX as int + 1,
        forall|t: int| 0 <= t < tokens.len() ==> #[trigger] tokens@[t].off + tokens@[t].len <= arena.len(),
        bytes.len() == 256,
    ensures
        sorted_in(arena@, tokens@, r@),
        forall|k: int| 0 <= k < r.len() ==> {
            let t = #[trigger] r@[k];
            t < tokens.len() && t != unk && !in_table(bytes@, t)
        },
        forall|t: utok| t < tokens.len() && t != unk && !in_table(bytes@, t) ==>
            exists|k: int| 0 <= k < r.len() && r@[k] == t,
{
    let mut r: Vec<utok> = Vec::new();
    let n = tokens.len();
    let mut i: usize = 0;
    while i < n
        invariant
            i <= n == tokens.len(),
            n <= u32::MAX as int + 1,
            forall|t: int| 0 <= t < tokens.len() ==> #[trigger] tokens@[t].off + tokens@[t].len <= arena.len(),
            bytes.len() == 256,
            sorted_in(arena@, tokens@, r@),
            forall|k: int| 0 <= k < r.len() ==> {
                let t = #[trigger] r@[k];
                t < i && t != unk && !in_table(bytes@, t)
            },
            forall|t: utok| t < i && t != unk && !in_table(bytes@, t) ==>
                exists|k: int| 0 <= k < r.len() && r@[k] == t,
        decreases n - i,
    {
        let t = i as utok;
        if t != unk && !table_has(bytes, t) {
            let m = tokens[i];
            let pt = vstd::slice::slice_subrange(arena.as_slice(), m.off, m.off + m.len);
            let mut lo: usize = 0;
            let mut hi: usize = r.len();
            while lo < hi
                invariant
                    lo <= hi <= r.len(),
                    t == i,
                    i < tokens.len(),
                    pt@ == piece_in(arena@, tokens@, t as int),
                    forall|u: int| 0 <= u < tokens.len() ==> #[trigger] tokens@[u].off + tokens@[u].len <= arena.len(),
                    sorted_in(arena@, tokens@, r@),
                    forall|k: int| 0 <= k < r.len() ==> #[trigger] r@[k] < i,
                    forall|a: int| 0 <= a < lo ==> key_lt_in(arena@, tokens@, r@[a], t),
                    forall|a: int| hi <= a < r.len() ==> key_lt_in(arena@, tokens@, t, r@[a]),
                decreases hi - lo,
            {
                let mid = lo + (hi - lo) / 2;
                let mm = tokens[r[mid] as usize];
                let pm = vstd::slice::slice_subrange(arena.as_slice(), mm.off, mm.off + mm.len);
                let c = compare_bytes(pm, pt);
                if c <= 0 {
                    assert(key_lt_in(arena@, tokens@, r@[mid as int], t));
                    assert forall|a: int| 0 <= a < mid + 1 implies key_lt_in(arena@, tokens@, r@[a], t) by {
                        if lo <= a < mid {
                            lemma_key_transitive(arena@, tokens@, r@[a], r@[mid as int], t);
                        }
                    }
                    lo = mid + 1;
                } else {
                    assert forall|a: int| mid <= a < r.len() implies key_lt_in(arena@, tokens@, t, r@[a]) by {
                        if mid < a < hi {
                            lemma_key_transitive(arena@, tokens@, t, r@[mid as int], r@[a]);
                        }
                    }
                    hi = mid;
                }
            }
            let ghost r0 = r@;
            r.insert(lo, t);
            assert forall|x: int, y: int| 0 <= x < y < r.len() implies key_lt_in(arena@, tokens@, #[trigger] r@[x], #[trigger] r@[y]) by {
                if y < lo {
                    assert(r@[x] == r0[x] && r@[y] == r0[y]);
                } else if y == lo {
                    assert(r@[x] == r0[x]);
                } else if x < lo {
                    assert(r@[x] == r0[x] && r@[y] == r0[y - 1]);
                } else if x == lo {
                    assert(r@[y] == r0[y - 1]);
                } else {
                    assert(r@[x] == r0[x - 1] && r@[y] == r0[y - 1]);
                }
            }
            assert forall|u: utok| u < i + 1 && u != unk && !in_table(bytes@, u) implies
                exists|k: int| 0 <= k < r.len() && r@[k] == u by {
                if u < i {
                    let k = choose|k: int| 0 <= k < r0.len() && r0[k] == u;
                    if k < lo {
                        assert(r@[k] == u);
                    } else {
                        assert(r@[k + 1] == u);
                    }
                } else {
                    assert(r@[lo as int] == u);
                }
            }
            assert forall|k: int| 0 <= k < r.len() implies {
                let u = #[trigger] r@[k];
                u < i + 1 && u != unk && !in_table(bytes@, u)
            } by {
                if k < lo {
                    assert(r@[k] == r0[k]);
                } else if k > lo {
                    assert(r@[k] == r0[k - 1]);
                }
            }
        } else {
            assert forall|u: utok| u < i + 1 && u != unk && !in_table(bytes@, u) implies
                exists|k: int| 0 <= k < r.len() && r@[k] == u by {
                assert(u < i);
            }
        }
        i += 1;
    }
    r
}

/// The bytes of each string.
pub open spec fn str_views(v: Seq<&str>) -> Seq<Seq<u8>> {
    Seq::new(v.len(), |i: int| v[i].spec_bytes())
}

pub proof fn lemma_byte_owner(ps: Seq<Seq<u8>>, flags: Seq<bool>, n: int, b: u8, unk: utok)
    requires
        0 <= n <= ps.len(),
        n <= flags.len(),
        n <= u32::MAX as int + 1,
    ensures
        byte_owner(ps, flags, n, b, unk) == unk || {
            let o = byte_owner(ps, flags, n, b, unk) as int;
            0 <= o < n && claims(ps[o], flags[o], b)
        },
    decreases n,
{
    if n > 0 && !claims(ps[n - 1], flags[n - 1], b) {
        lemma_byte_owner(ps, flags, n - 1, b, unk);
    }
}

/// A byte pair encoding tokenizer.
pub struct Bpe {
    /// The arena that holds every piece.
    pub vocabs: Vec<u8>,
    /// Per token: its piece in the arena and its rank.
    pub tokens: Vec<TokenMeta>,
    /// Ids of the normal tokens, ordered by piece (then id), for lookup by piece.
    pub sorted_pieces: Vec<utok>,
    /// For each byte, the token that stands for it, or `unk`.
    pub bytes: Vec<utok>,
    /// The unknown token.
    pub unk: utok,
}

impl Bpe {
    pub open spec fn piece(&self, t: int) -> Seq<u8> {
        piece_in(self.vocabs@, self.tokens@, t)
    }

    pub open spec fn key_lt(&self, a: utok, b: utok) -> bool {
        key_lt_in(self.vocabs@, self.tokens@, a, b)
    }

    /// `t` stands for some byte in the byte table.
    pub open spec fn is_byte_id(&self, t: utok) -> bool {
        exists|b: int| 0 <= b < 256 && self.bytes@[b] == t
    }

    /// `t` is in the piece index.
    pub open spec fn in_index(&self, t: utok) -> bool {
        exists|k: int| 0 <= k < self.sorted_pieces.len() && self.sorted_pieces@[k] == t
    }

    pub open spec fn wf(&self) -> bool {
        &&& self.tokens.len() <= u32::MAX as int + 1
        &&& self.unk < self.tokens.len()
        &&& forall|t: int| 0 <= t < self.tokens.len() ==>
                #[trigger] self.tokens@[t].off + self.tokens@[t].len <= self.vocabs.len()
        &&& self.bytes.len() == 256
        &&& forall|b: int| 0 <= b < 256 ==> #[trigger] self.bytes@[b] < self.tokens.len()
        &&& forall|b: int| 0 <= b < 256 && #[trigger] self.bytes@[b] != self.unk
                ==> self.piece(self.bytes@[b] as int) == seq![b as u8]
        &&& forall|k: int| 0 <= k < self.sorted_pieces.len() ==> {
                let t = #[trigger] self.sorted_pieces@[k];
                &&& t < self.tokens.len()
                &&& t != self.unk
                &&& !self.is_byte_id(t)
            }
        &&& sorted_in(self.vocabs@, self.tokens@, self.sorted_pieces@)
    }

    /// The rank of each token.
    pub open spec fn ranks(&self) -> Seq<u32> {
        Seq::new(self.tokens@.len(), |i: int| self.tokens@[i].rank)
    }

    /// What building from pieces `ps`, byte flags `flags`, scores and `unk` yields.
    pub open spec fn built_from(&self, ps: Seq<Seq<u8>>, flags: Seq<bool>, scores: Seq<u32>, unk: utok) -> bool {
        &&& self.wf()
        &&& self.unk == unk
        &&& self.tokens.len() == ps.len()
        &&& forall|i: int| 0 <= i < ps.len() ==> #[trigger] self.piece(i) == effective(ps[i], flags[i])
        &&& dense_ranks(scores, self.ranks())
        &&& forall|b: int| 0 <= b < 256 ==> #[trigger] self.bytes@[b] == byte_owner(ps, flags, ps.len() as int, b as u8, unk)
        &&& forall|t: utok| t < ps.len() ==> (self.in_index(t) <==> t != unk && !self.is_byte_id(t))
    }

    /// Builds the tokenizer from pieces, their scores (bit patterns of `f32`, ranked by
    /// `f32::total_cmp`), byte-token flags and the unknown token.
    pub fn new(vocabs: &[&str], scores: &[u32], is_byte: &[bool], unk: utok) -> (r: Result<Bpe, VocabError>)
        requires
            vocabs.len() <= u32::MAX,
            unk < vocabs.len(),
            is_byte.len() == vocabs.len(),
            total_effective(str_views(vocabs@), is_byte@, vocabs.len() as int) <= usize::MAX,
        ensures
            invalid_hint(str_views(vocabs@), is_byte@) ==> r == Err::<Bpe, VocabError>(VocabError::InvalidByteToken),
            !invalid_hint(str_views(vocabs@), is_byte@) && scores.len() != vocabs.len()
                ==> r == Err::<Bpe, VocabError>(VocabError::ScoreArityMismatch),
            !invalid_hint(str_views(vocabs@), is_byte@) && scores.len() == vocabs.len() ==> (r matches Ok(b)
                && b.built_from(str_views(vocabs@), is_byte@, scores@, unk)),
    {
        let n = vocabs.len();
        let ghost ps = str_views(vocabs@);
        let mut list: Vec<&[u8]> = Vec::new();
        let mut i: usize = 0;
        while i < n
            invariant
                i <= n == vocabs.len(),
                ps == str_views(vocabs@),
                list.len() == i,
                forall|j: int| 0 <= j < i ==> #[trigger] list@[j]@ == ps[j],
            decreases n - i,
        {
            list.push(vocabs[i].as_bytes());
            i += 1;
        }
        assert(slice_views(list@) =~= ps);
        Self::from_pieces(list.as_slice(), scores, is_byte, unk)
    }

    /// `new` on pieces given as bytes.
    #[verifier::rlimit(60)]
    pub fn from_pieces(list: &[&[u8]], scores: &[u32], is_byte: &[bool], unk: utok) -> (r: Result<Bpe, VocabError>)
        requires
            list.len() <= u32::MAX,
            unk < list.len(),
            is_byte.len() == list.len(),
            total_effective(slice_views(list@), is_byte@, list.len() as int) <= usize::MAX,
        ensures
            invalid_hint(slice_views(list@), is_byte@) ==> r == Err::<Bpe, VocabError>(VocabError::InvalidByteToken),
            !invalid_hint(slice_views(list@), is_byte@) && scores.len() != list.len()
                ==> r == Err::<Bpe, VocabError>(VocabError::ScoreArityMismatch),
            !invalid_hint(slice_views(list@), is_byte@) && scores.len() == list.len() ==> (r matches Ok(b)
                && b.built_from(slice_views(list@), is_byte@, scores@, unk)),
    {
        let n = list.len();
        let ghost ps = slice_views(list@);
        assert(ps.take(n as int) =~= ps);
        assert(is_byte@.take(n as int) =~= is_byte@);
        let collected = match CollectedVocab::collect_with_hint(list, is_byte, unk) {
            Ok(c) => c,
            Err(e) => {
                return Err(e);
            },
        };
        if scores.len() != n {
            return Err(VocabError::ScoreArityMismatch);
        }
        let comp = CompressedVocab::new(collected.vocabs.as_slice(), collected.total_len);
        let ranks = rank(scores);
        let mut tokens: Vec<TokenMeta> = Vec::new();
        let mut i: usize = 0;
        while i < n
            invariant
                i <= n == list.len() == comp.slices.len() == ranks.len() == collected.vocabs.len(),
                tokens.len() == i,
                forall|j: int| 0 <= j < n ==> #[trigger] comp.holds(j, collected.vocabs@[j]@),
                forall|j: int| 0 <= j < i ==> #[trigger] tokens@[j] == (TokenMeta { off: comp.slices@[j].0, len: comp.slices@[j].1, rank: ranks@[j] }),
            decreases n - i,
        {
            let (off, len) = comp.slices[i];
            tokens.push(TokenMeta { off, len, rank: ranks[i] });
            i += 1;
        }
        assert forall|t: int| 0 <= t < tokens.len() implies #[trigger] tokens@[t].off + tokens@[t].len <= comp.vocabs.len() by {
            assert(comp.holds(t, collected.vocabs@[t]@));
        }
        let sorted = build_index(&comp.vocabs, &tokens, &collected.bytes, unk);
        let b = Bpe { vocabs: comp.vocabs, tokens, sorted_pieces: sorted, bytes: collected.bytes, unk };
        proof {
            assert forall|j: int| 0 <= j < n implies #[trigger] b.piece(j) == effective(ps[j], is_byte@[j]) by {
                assert(comp.holds(j, collected.vocabs@[j]@));
            }
            assert(b.ranks() =~= ranks@);
            assert forall|x: int| 0 <= x < 256 && #[trigger] b.bytes@[x] != b.unk
                implies b.piece(b.bytes@[x] as int) == seq![x as u8] by {
                assert(b.bytes@[x] == byte_owner(ps, is_byte@, n as int, x as u8, unk));
                lemma_byte_owner(ps, is_byte@, n as int, x as u8, unk);
                assert(b.piece(b.bytes@[x] as int) =~= seq![x as u8]);
            }
            assert forall|x: int| 0 <= x < 256 implies #[trigger] b.bytes@[x] < b.tokens.len() by {
                lemma_byte_owner(ps, is_byte@, n as int, x as u8, unk);
            }
            assert forall|t: utok| t < n implies (b.in_index(t) <==> t != unk && !b.is_byte_id(t)) by {
                if b.in_index(t) {
                    let k = choose|k: int| 0 <= k < b.sorted_pieces.len() && b.sorted_pieces@[k] == t;
                    assert(!in_table(b.bytes@, b.sorted_pieces@[k]));
                    assert(b.sorted_pieces@[k] != unk);
                    assert(!b.is_byte_id(t));
                }
                if t != unk && !b.is_byte_id(t) {
                    assert(!in_table(b.bytes@, t));
                    assert(t < tokens.len());
                    let k = choose|k: int| 0 <= k < b.sorted_pieces.len() && b.sorted_pieces@[k] == t;
                    assert(b.in_index(t));
                }
            }
        }
        Ok(b)
    }

    /// `t` is the smallest id in the index whose piece is `q`.
    pub open spec fn first_match(&self, t: utok, q: Seq<u8>) -> bool {
        &&& self.in_index(t)
        &&& self.piece(t as int) == q
        &&& forall|t2: utok| self.in_index(t2) && self.piece(t2 as int) == q ==> t <= t2
    }

    /// The token for piece `q`: the indexed one (the smallest id if several), else for a
    /// single byte the byte table's entry, else none.
    pub open spec fn lookup(&self, q: Seq<u8>) -> Option<utok> {
        if exists|t: utok| self.first_match(t, q) {
            Some(choose|t: utok| self.first_match(t, q))
        } else if q.len() == 1 {
            Some(self.bytes@[q[0] as int])
        } else {
            None
        }
    }

    pub proof fn lemma_first_match_unique(&self, t1: utok, t2: utok, q: Seq<u8>)
        requires
            self.first_match(t1, q),
            self.first_match(t2, q),
        ensures
            t1 == t2,
    {
    }

    /// No token of the piece index is `unk` or a token of the byte table.
    pub proof fn lemma_index_excludes_unk_and_bytes(&self, k: int)
        requires
            self.wf(),
            0 <= k < self.sorted_pieces.len(),
        ensures
            self.sorted_pieces@[k] != self.unk,
            forall|b: int| 0 <= b < 256 ==> self.bytes@[b] != self.sorted_pieces@[k],
    {
        let t = self.sorted_pieces@[k];
        assert(!self.is_byte_id(t));
    }

    proof fn lemma_index_monotone(&self, a: int, b: int)
        requires
            self.wf(),
            0 <= a < b < self.sorted_pieces.len(),
        ensures
            !lex_lt(self.piece(self.sorted_pieces@[b] as int), self.piece(self.sorted_pieces@[a] as int)),
    {
        let pa = self.piece(self.sorted_pieces@[a] as int);
        let pb = self.piece(self.sorted_pieces@[b] as int);
        assert(self.key_lt(self.sorted_pieces@[a], self.sorted_pieces@[b]));
        lemma_lex_asymmetric(pa, pb);
        lemma_lex_irreflexive(pa);
    }

    pub proof fn lemma_lookup_sound(&self, q: Seq<u8>, t: utok)
        requires
            self.wf(),
            self.lookup(q) == Some(t),
        ensures
            t < self.tokens.len(),
            t != self.unk ==> self.piece(t as int) == q,
            q.len() != 1 || self.bytes@[q[0] as int] != self.unk ==> t != self.unk,
            q.len() != 1 ==> self.in_index(t),
    {
        if exists|t2: utok| self.first_match(t2, q) {
            let k = choose|k: int| 0 <= k < self.sorted_pieces.len() && self.sorted_pieces@[k] == t;
        } else {
            if t != self.unk {
                assert(self.piece(t as int) =~= q);
            }
        }
    }

    /// The concatenated pieces of `toks`.
    pub open spec fn decoded(&self, toks: Seq<utok>) -> Seq<u8>
        decreases toks.len(),
    {
        if toks.len() == 0 {
            Seq::empty()
        } else {
            self.decoded(toks.drop_last()) + self.piece(toks.last() as int)
        }
    }

    /// The bytes of token `t`'s piece.
    pub fn token(&self, t: utok) -> (r: &[u8])
        requires
            self.wf(),
            t < self.tokens.len(),
        ensures
            r@ == self.piece(t as int),
    {
        let m = self.tokens[t as usize];
        vstd::slice::slice_subrange(self.vocabs.as_slice(), m.off, m.off + m.len)
    }

    /// The token of a piece: binary search in the index, then the byte table for one byte.
    #[verifier::rlimit(60)]
    pub fn find_piece(&self, piece: &[u8]) -> (r: Option<utok>)
        requires
            self.wf(),
        ensures
            r == self.lookup(piece@),
            r matches Some(t) ==> t < self.tokens.len(),
            piece@.len() != 1 ==> (r matches Some(t) ==> t != self.unk && self.piece(t as int) == piece@),
    {
        let s = &self.sorted_pieces;
        let ghost q = piece@;
        let mut lo: usize = 0;
        let mut hi: usize = s.len();
        while lo < hi
            invariant
                self.wf(),
                s == &self.sorted_pieces,
                q == piece@,
                lo <= hi <= s.len(),
                forall|a: int| 0 <= a < lo ==> lex_lt(self.piece(s@[a] as int), q),
                forall|a: int| hi <= a < s.len() ==> !lex_lt(self.piece(s@[a] as int), q),
            decreases hi - lo,
        {
            let mid = lo + (hi - lo) / 2;
            let tm = self.token(s[mid]);
            let c = compare_bytes(tm, piece);
            assert(tm@ == self.piece(s@[mid as int] as int));
            if c < 0 {
                assert(lex_lt(self.piece(s@[mid as int] as int), q));
                proof {
                    assert forall|a: int| 0 <= a < mid + 1 implies lex_lt(self.piece(s@[a] as int), q) by {
                        if a < mid && a >= lo {
                            self.lemma_index_monotone(a, mid as int);
                            lemma_lex_total(self.piece(s@[a] as int), self.piece(s@[mid as int] as int));
                            if lex_lt(self.piece(s@[a] as int), self.piece(s@[mid as int] as int)) {
                                lemma_lex_transitive(self.piece(s@[a] as int), self.piece(s@[mid as int] as int), q);
                            }
                        }
                    }
                }
                lo = mid + 1;
            } else {
                proof {
                    assert forall|a: int| mid <= a < s.len() implies !lex_lt(self.piece(s@[a] as int), q) by {
                        if mid < a && a < hi {
                            self.lemma_index_monotone(mid as int, a);
                            lemma_lex_total(self.piece(s@[a] as int), self.piece(s@[mid as int] as int));
                            if lex_lt(self.piece(s@[a] as int), q) && lex_lt(self.piece(s@[mid as int] as int), self.piece(s@[a] as int)) {
                                lemma_lex_transitive(self.piece(s@[mid as int] as int), self.piece(s@[a] as int), q);
                            }
                        }
                    }
                }
                hi = mid;
            }
        }
        let p = lo;
        if p < s.len() {
            let t = s[p];
            if compare_bytes(self.token(t), piece) == 0 {
                proof {
                    assert forall|t2: utok| self.in_index(t2) && self.piece(t2 as int) == q implies t <= t2 by {
                        let k = choose|k: int| 0 <= k < s.len() && s@[k] == t2;
                        lemma_lex_irreflexive(q);
                        if k > p {
                            assert(self.key_lt(s@[p as int], s@[k]));
                        }
                    }
                    assert(self.first_match(t, q));
                    let c = choose|t: utok| self.first_match(t, q);
                    self.lemma_first_match_unique(t, c, q);
                }
                return Some(t);
            }
        }
        proof {
            assert forall|t2: utok| !self.first_match(t2, q) by {
                if self.in_index(t2) && self.piece(t2 as int) == q {
                    let k = choose|k: int| 0 <= k < s.len() && s@[k] == t2;
                    lemma_lex_irreflexive(q);
                    if k > p {
                        let pp = self.piece(s@[p as int] as int);
                        self.lemma_index_monotone(p as int, k);
                        lemma_lex_total(pp, q);
                        if lex_lt(q, pp) {
                            lemma_lex_asymmetric(q, pp);
                        }
                    }
                }
            }
        }
        if piece.len() == 1 {
            Some(self.bytes[piece[0] as usize])
        } else {
            None
        }
    }
}

} // verus!

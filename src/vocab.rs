//! Vocabulary preprocessing shared by the tokenizer methods: byte-token escapes,
//! the split into normal and byte pieces, and the compressed piece arena.
use crate::utok;
use vstd::prelude::*;

verus! {

/// The value of an ASCII hex digit, either case.
pub open spec fn hex_value(c: u8) -> Option<u8> {
    if 0x30 <= c <= 0x39 {
        Some((c - 0x30) as u8)
    } else if 0x61 <= c <= 0x66 {
        Some((c - 0x61 + 10) as u8)
    } else if 0x41 <= c <= 0x46 {
        Some((c - 0x41 + 10) as u8)
    } else {
        None
    }
}

/// The byte that a piece of the form `<0xHH>` stands for.
pub open spec fn byte_token_of(p: Seq<u8>) -> Option<u8> {
    if p.len() == 6 && p[0] == 0x3C && p[1] == 0x30 && p[2] == 0x78 && p[5] == 0x3E
        && hex_value(p[3]).is_some() && hex_value(p[4]).is_some() {
        Some((hex_value(p[3]).unwrap() * 16 + hex_value(p[4]).unwrap()) as u8)
    } else {
        None
    }
}

fn hex_digit(c: u8) -> (r: Option<u8>)
    ensures
        r == hex_value(c),
{
    if 0x30 <= c && c <= 0x39 {
        Some(c - 0x30)
    } else if 0x61 <= c && c <= 0x66 {
        Some(c - 0x61 + 10)
    } else if 0x41 <= c && c <= 0x46 {
        Some(c - 0x41 + 10)
    } else {
        None
    }
}

/// Recognises a byte token `<0xHH>` (hex digits of either case) and returns its byte.
pub fn as_byte_token(piece: &[u8]) -> (r: Option<u8>)
    ensures
        r == byte_token_of(piece@),
{
    if piece.len() != 6 || piece[0] != 0x3C || piece[1] != 0x30 || piece[2] != 0x78
        || piece[5] != 0x3E {
        return None;
    }
    match (hex_digit(piece[3]), hex_digit(piece[4])) {
        (Some(a), Some(b)) => Some(a * 16 + b),
        _ => None,
    }
}

/// Whether piece `p`, marked `flag`, is taken as the byte token for `b`.
pub open spec fn claims(p: Seq<u8>, flag: bool, b: u8) -> bool {
    flag && byte_token_of(p) == Some(b)
}

/// The piece as the tokenizer stores it: one raw byte for a byte token, else verbatim.
pub open spec fn effective(p: Seq<u8>, flag: bool) -> Seq<u8> {
    if flag && byte_token_of(p).is_some() {
        seq![byte_token_of(p).unwrap()]
    } else {
        p
    }
}

/// The last of the first `n` pieces that claims byte `b`, or `unk`.
pub open spec fn byte_owner(ps: Seq<Seq<u8>>, flags: Seq<bool>, n: int, b: u8, unk: utok) -> utok
    decreases n,
{
    if n <= 0 {
        unk
    } else if claims(ps[n - 1], flags[n - 1], b) {
        (n - 1) as utok
    } else {
        byte_owner(ps, flags, n - 1, b, unk)
    }
}

/// Sum of the effective lengths of the first `n` pieces.
pub open spec fn total_effective(ps: Seq<Seq<u8>>, flags: Seq<bool>, n: int) -> nat
    decreases n,
{
    if n <= 0 {
        0
    } else {
        total_effective(ps, flags, n - 1) + effective(ps[n - 1], flags[n - 1]).len()
    }
}

/// Automatic detection: a piece is a byte token when it reads `<0xHH>`.
pub open spec fn auto_flags(ps: Seq<Seq<u8>>) -> Seq<bool> {
    Seq::new(ps.len(), |i: int| byte_token_of(ps[i]).is_some())
}

/// Some piece marked as a byte token does not read `<0xHH>`.
pub open spec fn invalid_hint(ps: Seq<Seq<u8>>, flags: Seq<bool>) -> bool {
    exists|i: int| 0 <= i < ps.len() && #[trigger] flags[i] && byte_token_of(ps[i]).is_none()
}

pub open spec fn slice_views(v: Seq<&[u8]>) -> Seq<Seq<u8>> {
    Seq::new(v.len(), |i: int| v[i]@)
}

/// Errors of vocabulary construction.
#[derive(Debug, Clone, Copy, PartialEq, Eq)]
pub enum VocabError {
    /// A piece marked as a byte token does not read `<0xHH>`.
    InvalidByteToken,
    /// The number of scores differs from the number of pieces.
    ScoreArityMismatch,
}

/// A vocabulary split into normal pieces and byte pieces.
pub struct CollectedVocab {
    /// Each token's piece, byte tokens replaced by their one raw byte.
    pub vocabs: Vec<Vec<u8>>,
    /// Sum of the lengths of `vocabs`.
    pub total_len: usize,
    /// For each byte, the token that stands for it, or `unk`.
    pub bytes: Vec<utok>,
}

impl CollectedVocab {
    /// What collecting `ps` with byte flags `flags` yields.
    pub open spec fn collects(&self, ps: Seq<Seq<u8>>, flags: Seq<bool>, unk: utok) -> bool {
        &&& self.vocabs.len() == ps.len()
        &&& forall|i: int| 0 <= i < ps.len() ==> #[trigger] self.vocabs[i]@ == effective(ps[i], flags[i])
        &&& self.total_len == total_effective(ps, flags, ps.len() as int)
        &&& self.bytes.len() == 256
        &&& forall|b: u8| #[trigger] self.bytes[b as int] == byte_owner(ps, flags, ps.len() as int, b, unk)
    }

    /// Collects the vocabulary; a piece reading `<0xHH>` is taken as the byte token of that byte.
    pub fn collect(vocabs: &[&[u8]], unk: utok) -> (r: Self)
        requires
            vocabs.len() <= u32::MAX as usize + 1,
            total_effective(slice_views(vocabs@), auto_flags(slice_views(vocabs@)), vocabs.len() as int) <= usize::MAX,
        ensures
            r.collects(slice_views(vocabs@), auto_flags(slice_views(vocabs@)), unk),
    {
        let ghost ps = slice_views(vocabs@);
        let ghost flags = auto_flags(ps);
        let mut flag_vec: Vec<bool> = Vec::new();
        let mut i: usize = 0;
        while i < vocabs.len()
            invariant
                i <= vocabs.len(),
                ps == slice_views(vocabs@),
                flags == auto_flags(ps),
                flag_vec@ =~= flags.take(i as int),
            decreases vocabs.len() - i,
        {
            flag_vec.push(as_byte_token(vocabs[i]).is_some());
            i += 1;
        }
        proof { assert(flag_vec@ =~= flags); }
        match Self::collect_flagged(vocabs, &flag_vec, unk) {
            Ok(r) => r,
            Err(_) => {
                proof { assert(false); }
                Self { vocabs: Vec::new(), total_len: 0, bytes: Vec::new() }
            }
        }
    }

    /// Collects the vocabulary, taking piece `i` as a byte token when `is_byte[i]` is set.
    /// Pieces and flags are paired up to the shorter of the two.
    pub fn collect_with_hint(vocabs: &[&[u8]], is_byte: &[bool], unk: utok) -> (r: Result<Self, VocabError>)
        requires
            vocabs.len() <= u32::MAX as usize + 1,
            total_effective(slice_views(vocabs@), is_byte@, vocabs.len() as int) <= usize::MAX,
        ensures
            ({
                let n = if vocabs.len() < is_byte.len() { vocabs.len() as int } else { is_byte.len() as int };
                let ps = slice_views(vocabs@).take(n);
                let fs = is_byte@.take(n);
                &&& (match r {
                    Ok(c) => c.collects(ps, fs, unk),
                    Err(e) => e == VocabError::InvalidByteToken,
                })
                &&& (r.is_err() <==> invalid_hint(ps, fs))
            }),
    {
        let n = if vocabs.len() < is_byte.len() { vocabs.len() } else { is_byte.len() };
        let ghost ps = slice_views(vocabs@).take(n as int);
        let ghost fs = is_byte@.take(n as int);
        let mut flags: Vec<bool> = Vec::new();
        let mut pieces: Vec<&[u8]> = Vec::new();
        let mut i: usize = 0;
        while i < n
            invariant
                i <= n,
                n <= vocabs.len(),
                n <= is_byte.len(),
                ps == slice_views(vocabs@).take(n as int),
                fs == is_byte@.take(n as int),
                flags@ =~= fs.take(i as int),
                slice_views(pieces@) =~= ps.take(i as int),
                pieces@.len() == i,
            decreases n - i,
        {
            flags.push(is_byte[i]);
            pieces.push(vocabs[i]);
            i += 1;
        }
        proof {
            assert(flags@ =~= fs);
            assert(slice_views(pieces@) =~= ps);
            lemma_total_prefix(slice_views(vocabs@), is_byte@, ps, fs, n as int);
            assert forall|j: int| 0 <= j < n implies pieces@[j]@ == ps[j] by {
                assert(slice_views(pieces@)[j] == ps[j]);
            }
        }
        let r = Self::collect_flagged(&pieces, &flags, unk);
        r
    }

    fn collect_flagged(vocabs: &[&[u8]], flags: &Vec<bool>, unk: utok) -> (r: Result<Self, VocabError>)
        requires
            vocabs.len() == flags.len(),
            vocabs.len() <= u32::MAX as usize + 1,
            total_effective(slice_views(vocabs@), flags@, vocabs.len() as int) <= usize::MAX,
        ensures
            match r {
                Ok(c) => c.collects(slice_views(vocabs@), flags@, unk),
                Err(e) => e == VocabError::InvalidByteToken,
            },
            r.is_err() <==> invalid_hint(slice_views(vocabs@), flags@),
    {
        let ghost ps = slice_views(vocabs@);
        let mut bytes: Vec<utok> = vec![unk; 256];
        let mut total_len: usize = 0;
        let mut out: Vec<Vec<u8>> = Vec::new();
        let mut i: usize = 0;
        while i < vocabs.len()
            invariant
                i <= vocabs.len(),
                vocabs.len() == flags.len(),
                vocabs.len() <= u32::MAX as usize + 1,
                ps == slice_views(vocabs@),
                total_effective(ps, flags@, vocabs.len() as int) <= usize::MAX,
                out.len() == i,
                forall|j: int| 0 <= j < i ==> #[trigger] out[j]@ == effective(ps[j], flags@[j]),
                total_len == total_effective(ps, flags@, i as int),
                bytes.len() == 256,
                forall|b: u8| #[trigger] bytes[b as int] == byte_owner(ps, flags@, i as int, b, unk),
                !invalid_hint(ps.take(i as int), flags@.take(i as int)),
            decreases vocabs.len() - i,
        {
            let piece = vocabs[i];
            proof { lemma_total_mono(ps, flags@, i as int + 1, vocabs.len() as int); }
            let eff: Vec<u8> = if flags[i] {
                match as_byte_token(piece) {
                    Some(b) => {
                        bytes.set(b as usize, i as utok);
                        vec![b]
                    }
                    None => {
                        assert(flags@[i as int] && byte_token_of(ps[i as int]).is_none());
                        return Err(VocabError::InvalidByteToken);
                    }
                }
            } else {
                vstd::slice::slice_to_vec(piece)
            };
            assert(eff@ =~= effective(ps[i as int], flags@[i as int]));
            total_len = total_len + eff.len();
            out.push(eff);
            i += 1;
            proof {
                if invalid_hint(ps.take(i as int), flags@.take(i as int)) {
                    let j = choose|j: int| 0 <= j < i && #[trigger] flags@.take(i as int)[j] && byte_token_of(ps.take(i as int)[j]).is_none();
                    if j < i - 1 {
                        assert(ps.take(i - 1)[j] == ps[j] && flags@.take(i - 1)[j] == flags@[j]);
                    }
                }
            }
            assert forall|b: u8| #[trigger] bytes[b as int] == byte_owner(ps, flags@, i as int, b, unk) by {
                if claims(ps[i - 1], flags@[i - 1], b) {
                } else {
                }
            }
        }
        proof {
            assert(ps.take(i as int) =~= ps);
            assert(flags@.take(i as int) =~= flags@);
        }
        Ok(CollectedVocab { vocabs: out, total_len, bytes })
    }
}

/// Whether `needle` occurs in `hay` starting at `i`.
pub open spec fn occurs_at(hay: Seq<u8>, needle: Seq<u8>, i: int) -> bool {
    0 <= i && i + needle.len() <= hay.len() && hay.subrange(i, i + needle.len()) == needle
}

/// Relies on memchr::memmem::find: the offset of the first occurrence of `needle`
/// in `hay`, or none when it does not occur.
#[verifier::external_body]
fn find_first(hay: &[u8], needle: &[u8]) -> (r: Option<usize>)
    ensures
        match r {
            Some(i) => occurs_at(hay@, needle@, i as int)
                && forall|j: int| 0 <= j < i ==> !occurs_at(hay@, needle@, j),
            None => forall|j: int| !occurs_at(hay@, needle@, j),
        },
{
    memchr::memmem::find(hay, needle)
}

pub open spec fn vec_views(v: Seq<Vec<u8>>) -> Seq<Seq<u8>> {
    Seq::new(v.len(), |i: int| v[i]@)
}

/// Sum of the lengths of the first `n` pieces.
pub open spec fn lens_sum(ps: Seq<Seq<u8>>, n: int) -> nat
    decreases n,
{
    if n <= 0 { 0 } else { lens_sum(ps, n - 1) + ps[n - 1].len() }
}

/// Sum of the lengths of the first `n` pieces that are longer than `l`, or of length `l`
/// and before `i`.
pub open spec fn placed_sum(ps: Seq<Seq<u8>>, l: int, i: int, n: int) -> nat
    decreases n,
{
    if n <= 0 {
        0
    } else {
        placed_sum(ps, l, i, n - 1) + if ps[n - 1].len() > l || (ps[n - 1].len() == l && n - 1 < i) {
            ps[n - 1].len()
        } else {
            0
        }
    }
}

proof fn lemma_placed_step(ps: Seq<Seq<u8>>, l: int, i: int, n: int)
    requires
        0 <= i,
    ensures
        placed_sum(ps, l, i + 1, n) == placed_sum(ps, l, i, n) + if i < n && ps[i].len() == l { ps[i].len() } else { 0 },
    decreases n,
{
    if n > 0 {
        lemma_placed_step(ps, l, i, n - 1);
    }
}

proof fn lemma_placed_next(ps: Seq<Seq<u8>>, l: int, n: int)
    requires
        0 <= n <= ps.len(),
    ensures
        placed_sum(ps, l, ps.len() as int, n) == placed_sum(ps, l - 1, 0, n),
        l == 0 ==> placed_sum(ps, l, ps.len() as int, n) == lens_sum(ps, n),
    decreases n,
{
    if n > 0 {
        lemma_placed_next(ps, l, n - 1);
    }
}

/// `v` is placed on `buf`: kept where it occurs already, else appended.
pub open spec fn place(buf: Seq<u8>, v: Seq<u8>) -> Seq<u8> {
    if exists|j: int| occurs_at(buf, v, j) { buf } else { buf + v }
}

/// Placing, in id order from `i` on, the pieces of length `l`.
#[verifier::opaque]
pub open spec fn pack_len(ps: Seq<Seq<u8>>, l: int, i: int, buf: Seq<u8>) -> Seq<u8>
    decreases ps.len() - i,
{
    if i < 0 || i >= ps.len() {
        buf
    } else {
        pack_len(ps, l, i + 1, if ps[i].len() == l { place(buf, ps[i]) } else { buf })
    }
}

/// Placing the pieces of length `l`, then those of each smaller length down to 0.
#[verifier::opaque]
pub open spec fn pack_from(ps: Seq<Seq<u8>>, l: int, buf: Seq<u8>) -> Seq<u8>
    decreases l,
{
    if l <= 0 {
        pack_len(ps, 0, 0, buf)
    } else {
        pack_from(ps, l - 1, pack_len(ps, l, 0, buf))
    }
}

/// Placing, in id order, those of the first `i` pieces that have length `l`.
#[verifier::opaque]
pub open spec fn pack_prefix(ps: Seq<Seq<u8>>, l: int, i: int, buf: Seq<u8>) -> Seq<u8>
    decreases i,
{
    if i <= 0 {
        buf
    } else {
        let prev = pack_prefix(ps, l, i - 1, buf);
        if ps[i - 1].len() == l { place(prev, ps[i - 1]) } else { prev }
    }
}

/// Placing the pieces of each length from `top` down to just above `l`.
#[verifier::opaque]
pub open spec fn pack_above(ps: Seq<Seq<u8>>, top: int, l: int, buf: Seq<u8>) -> Seq<u8>
    decreases top - l,
{
    if top <= l {
        buf
    } else {
        pack_len(ps, l + 1, 0, pack_above(ps, top, l + 1, buf))
    }
}

/// The arena as it stands when piece `i` is placed.
pub open spec fn turn_buf(ps: Seq<Seq<u8>>, top: int, i: int) -> Seq<u8> {
    let l = ps[i].len() as int;
    pack_prefix(ps, l, i, pack_above(ps, top, l, Seq::empty()))
}

/// The slot of piece `i` is the first occurrence of the piece in the arena at its turn, or,
/// where it does not occur there, the end of that arena (where it is appended).
pub open spec fn slot_first(ps: Seq<Seq<u8>>, top: int, slices: Seq<(usize, usize)>, i: int) -> bool {
    let b = turn_buf(ps, top, i);
    let v = ps[i];
    let off = slices[i].0 as int;
    if exists|j: int| occurs_at(b, v, j) {
        occurs_at(b, v, off) && forall|j: int| 0 <= j < off ==> !occurs_at(b, v, j)
    } else {
        off == b.len()
    }
}

proof fn lemma_pack_prefix_step(ps: Seq<Seq<u8>>, l: int, i: int, buf: Seq<u8>)
    requires
        0 <= i,
    ensures
        pack_prefix(ps, l, i + 1, buf) == if ps[i].len() == l { place(pack_prefix(ps, l, i, buf), ps[i]) } else { pack_prefix(ps, l, i, buf) },
        pack_prefix(ps, l, 0, buf) == buf,
{
    reveal_with_fuel(pack_prefix, 1);
}

proof fn lemma_pack_above_step(ps: Seq<Seq<u8>>, top: int, l: int, buf: Seq<u8>)
    ensures
        top <= l ==> pack_above(ps, top, l, buf) == buf,
        top > l ==> pack_above(ps, top, l, buf) == pack_len(ps, l + 1, 0, pack_above(ps, top, l + 1, buf)),
{
    reveal_with_fuel(pack_above, 1);
}

/// The largest length among the first `n` pieces.
pub open spec fn max_len(ps: Seq<Seq<u8>>, n: int) -> int
    decreases n,
{
    if n <= 0 {
        0
    } else if ps[n - 1].len() > max_len(ps, n - 1) {
        ps[n - 1].len() as int
    } else {
        max_len(ps, n - 1)
    }
}

proof fn lemma_pack_len_step(ps: Seq<Seq<u8>>, l: int, i: int, buf: Seq<u8>)
    requires
        0 <= i < ps.len(),
    ensures
        pack_len(ps, l, i, buf) == pack_len(ps, l, i + 1, if ps[i].len() == l { place(buf, ps[i]) } else { buf }),
{
    reveal_with_fuel(pack_len, 1);
}

proof fn lemma_pack_len_end(ps: Seq<Seq<u8>>, l: int, i: int, buf: Seq<u8>)
    requires
        i >= ps.len(),
    ensures
        pack_len(ps, l, i, buf) == buf,
{
    reveal_with_fuel(pack_len, 1);
}

proof fn lemma_pack_from_step(ps: Seq<Seq<u8>>, l: int, buf: Seq<u8>)
    requires
        l >= 0,
    ensures
        pack_from(ps, l, buf) == if l == 0 { pack_len(ps, 0, 0, buf) } else { pack_from(ps, l - 1, pack_len(ps, l, 0, buf)) },
{
    reveal_with_fuel(pack_from, 1);
}

/// All pieces packed into one buffer, where a piece that already occurs is not stored again.
pub struct CompressedVocab {
    /// The arena.
    pub vocabs: Vec<u8>,
    /// Offset and length of each piece in the arena.
    pub slices: Vec<(usize, usize)>,
}

impl CompressedVocab {
    /// Whether the piece at slot `i` is `p`.
    pub open spec fn holds(&self, i: int, p: Seq<u8>) -> bool {
        let (off, len) = self.slices[i];
        &&& len == p.len()
        &&& off + len <= self.vocabs.len()
        &&& self.vocabs@.subrange(off as int, off + len) == p
    }

    /// Packs the pieces, longest first; a piece found in what is packed already is reused,
    /// others are appended. `total_len` is a capacity hint.
    pub fn new(vocabs: &[Vec<u8>], total_len: usize) -> (r: Self)
        ensures
            r.slices.len() == vocabs.len(),
            forall|i: int| 0 <= i < vocabs.len() ==> #[trigger] r.holds(i, vocabs@[i]@),
            r.vocabs.len() <= lens_sum(vec_views(vocabs@), vocabs.len() as int),
            r.vocabs@ == pack_from(vec_views(vocabs@), max_len(vec_views(vocabs@), vocabs.len() as int), Seq::empty()),
            forall|i: int| 0 <= i < vocabs.len() ==>
                #[trigger] slot_first(vec_views(vocabs@), max_len(vec_views(vocabs@), vocabs.len() as int), r.slices@, i),
    {
        let ghost ps = vec_views(vocabs@);
        let n = vocabs.len();
        let mut maxlen: usize = 0;
        let mut i: usize = 0;
        while i < n
            invariant
                i <= n == vocabs.len(),
                forall|j: int| 0 <= j < i ==> vocabs@[j]@.len() <= maxlen,
                ps == vec_views(vocabs@),
                maxlen == max_len(ps, i as int),
            decreases n - i,
        {
            assert(ps[i as int] == vocabs@[i as int]@);
            if vocabs[i].len() > maxlen {
                maxlen = vocabs[i].len();
            }
            i += 1;
        }
        let mut r = CompressedVocab { vocabs: Vec::with_capacity(total_len), slices: vec![(0usize, 0usize); n] };
        let mut l: usize = maxlen;
        let mut finished = false;
        proof {
            lemma_pack_above_step(ps, maxlen as int, maxlen as int, Seq::empty());
            assert(r.vocabs@ =~= Seq::<u8>::empty());
        }
        while !finished
            invariant
                n == vocabs.len(),
                r.slices.len() == n,
                forall|j: int| 0 <= j < n ==> vocabs@[j]@.len() <= maxlen,
                l <= maxlen,
                forall|j: int| 0 <= j < n && (finished || vocabs@[j]@.len() > l) ==> #[trigger] r.holds(j, vocabs@[j]@),
                ps == vec_views(vocabs@),
                finished ==> r.vocabs.len() <= lens_sum(ps, n as int),
                finished ==> r.vocabs@ == pack_from(ps, maxlen as int, Seq::empty()),
                !finished ==> pack_from(ps, maxlen as int, Seq::empty()) == pack_from(ps, l as int, r.vocabs@),
                !finished ==> r.vocabs.len() <= placed_sum(ps, l as int, 0, n as int),
                !finished ==> r.vocabs@ == pack_above(ps, maxlen as int, l as int, Seq::empty()),
                maxlen == max_len(ps, n as int),
                forall|j: int| 0 <= j < n && (finished || vocabs@[j]@.len() > l) ==> #[trigger] slot_first(ps, maxlen as int, r.slices@, j),
            decreases l, if finished { 0int } else { 1int },
        {
            let ghost b0 = r.vocabs@;
            proof {
                lemma_pack_prefix_step(ps, l as int, 0, b0);
            }
            let mut i: usize = 0;
            while i < n
                invariant
                    i <= n == vocabs.len(),
                    r.slices.len() == n,
                    ps == vec_views(vocabs@),
                    r.vocabs.len() <= placed_sum(ps, l as int, i as int, n as int),
                    pack_len(ps, l as int, 0, b0) == pack_len(ps, l as int, i as int, r.vocabs@),
                    forall|j: int| 0 <= j < n && (vocabs@[j]@.len() > l || (vocabs@[j]@.len() == l && j < i))
                        ==> #[trigger] r.holds(j, vocabs@[j]@),
                    r.vocabs@ == pack_prefix(ps, l as int, i as int, b0),
                    b0 == pack_above(ps, maxlen as int, l as int, Seq::empty()),
                    maxlen == max_len(ps, n as int),
                    forall|j: int| 0 <= j < n && (vocabs@[j]@.len() > l || (vocabs@[j]@.len() == l && j < i))
                        ==> #[trigger] slot_first(ps, maxlen as int, r.slices@, j),
                decreases n - i,
            {
                proof {
                    lemma_pack_prefix_step(ps, l as int, i as int, b0);
                }
                let ghost slices0 = r.slices@;
                proof {
                    lemma_placed_step(ps, l as int, i as int, n as int);
                    assert(ps[i as int] == vocabs@[i as int]@);
                    lemma_pack_len_step(ps, l as int, i as int, r.vocabs@);
                }
                if vocabs[i].len() == l {
                    let v = vocabs[i].as_slice();
                    let ghost before = r.vocabs@;
                    let ghost old_r_slices = r.slices@;
                    let ghost r_before = r;
                    let off = match find_first(r.vocabs.as_slice(), v) {
                        Some(off) => {
                            assert(occurs_at(before, v@, off as int));
                            off
                        },
                        None => {
                            let off = r.vocabs.len();
                            r.vocabs.extend_from_slice(v);
                            assert(r.vocabs@.subrange(off as int, off + v@.len()) =~= v@);
                            assert(r.vocabs@ =~= before + v@);
                            assert(!(exists|j: int| occurs_at(before, v@, j)));
                            assert forall|j: int| 0 <= j < n && r.slices[j].0 + r.slices[j].1 <= before.len()
                                implies #[trigger] r.vocabs@.subrange(r.slices[j].0 as int, r.slices[j].0 + r.slices[j].1)
                                == before.subrange(r.slices[j].0 as int, r.slices[j].0 + r.slices[j].1) by {
                                assert(r.vocabs@.subrange(r.slices[j].0 as int, r.slices[j].0 + r.slices[j].1)
                                    =~= before.subrange(r.slices[j].0 as int, r.slices[j].0 + r.slices[j].1));
                            }
                            off
                        }
                    };
                    r.slices.set(i, (off, v.len()));
                    proof {
                        assert(ps[i as int] == v@);
                        assert(before == turn_buf(ps, maxlen as int, i as int));
                        assert(slot_first(ps, maxlen as int, r.slices@, i as int));
                        assert forall|j: int| 0 <= j < n && (vocabs@[j]@.len() > l || (vocabs@[j]@.len() == l && j < i + 1))
                            implies #[trigger] slot_first(ps, maxlen as int, r.slices@, j) by {
                            if j != i {
                                assert(r.slices@[j] == slices0[j]);
                                assert(slot_first(ps, maxlen as int, slices0, j));
                            }
                        }
                    }
                    assert forall|j: int| 0 <= j < n && (vocabs@[j]@.len() > l || (vocabs@[j]@.len() == l && j < i + 1))
                        implies #[trigger] r.holds(j, vocabs@[j]@) by {
                        if j != i {
                            assert(r_before.holds(j, vocabs@[j]@));
                            let (o, ln) = old_r_slices[j];
                            assert(r.slices[j] == old_r_slices[j]);
                            assert(before.subrange(o as int, o + ln) == vocabs@[j]@);
                            assert(r.vocabs@.subrange(o as int, o + ln) =~= before.subrange(o as int, o + ln));
                        }
                    }
                }
                i += 1;
            }
            proof {
                lemma_placed_next(ps, l as int, n as int);
                lemma_pack_len_end(ps, l as int, n as int, r.vocabs@);
                lemma_pack_from_step(ps, l as int, b0);
                lemma_pack_above_step(ps, maxlen as int, l as int - 1, Seq::empty());
            }
            if l == 0 {
                finished = true;
            } else {
                l -= 1;
            }
        }
        r
    }
}

proof fn lemma_total_mono(ps: Seq<Seq<u8>>, flags: Seq<bool>, i: int, n: int)
    requires
        0 <= i <= n,
    ensures
        total_effective(ps, flags, i) <= total_effective(ps, flags, n),
    decreases n - i,
{
    if i < n {
        lemma_total_mono(ps, flags, i, n - 1);
    }
}

proof fn lemma_total_prefix(ps: Seq<Seq<u8>>, flags: Seq<bool>, ps2: Seq<Seq<u8>>, fs2: Seq<bool>, n: int)
    requires
        0 <= n <= ps.len(),
        n <= flags.len(),
        ps2 == ps.take(n),
        fs2 == flags.take(n),
    ensures
        total_effective(ps2, fs2, n) <= total_effective(ps, flags, ps.len() as int),
{
    assert forall|k: int| 0 <= k <= n implies total_effective(ps2, fs2, k) == total_effective(ps, flags, k) by {
        lemma_total_eq(ps, flags, ps2, fs2, k, n);
    }
    lemma_total_mono(ps, flags, n, ps.len() as int);
}

proof fn lemma_total_eq(ps: Seq<Seq<u8>>, flags: Seq<bool>, ps2: Seq<Seq<u8>>, fs2: Seq<bool>, k: int, n: int)
    requires
        0 <= k <= n,
        n <= ps.len(),
        n <= flags.len(),
        ps2 == ps.take(n),
        fs2 == flags.take(n),
    ensures
        total_effective(ps2, fs2, k) == total_effective(ps, flags, k),
    decreases k,
{
    if k > 0 {
        lemma_total_eq(ps, flags, ps2, fs2, k - 1, n);
    }
}

} // verus!

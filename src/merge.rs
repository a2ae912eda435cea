//! The merge engine of the byte pair encoder: a mark per input byte and a queue of
//! candidate merges, of which the one of highest priority that is still valid is applied.
use crate::bpe::Bpe;
use crate::utok;
use vstd::prelude::*;
use vstd::string::StringSliceAdditionalSpecFns;

verus! {

/// The state of one input byte: the token that starts here (if this position is live),
/// the distance back to the previous live position (0 for none), and the length of the
/// span the token covers (0 for a position inside another token's span).
#[derive(Clone, Copy, Debug)]
pub struct Mark {
    pub token: utok,
    pub back_distance: usize,
    pub len: usize,
}

/// A candidate: at `pos`, the live pair `pair` can be replaced by `merge`.
#[derive(Clone, Copy, Debug, PartialEq, Eq)]
pub struct Merge {
    pub pos: usize,
    pub pair: (utok, utok),
    pub merge: utok,
    pub rank: u32,
}

/// `a` is applied before `b`: by rank, then merged token, position and pair, smallest first.
pub open spec fn prio_lt(a: Merge, b: Merge) -> bool {
    if a.rank != b.rank {
        a.rank < b.rank
    } else if a.merge != b.merge {
        a.merge < b.merge
    } else if a.pos != b.pos {
        a.pos < b.pos
    } else if a.pair.0 != b.pair.0 {
        a.pair.0 < b.pair.0
    } else {
        a.pair.1 < b.pair.1
    }
}

fn higher(a: &Merge, b: &Merge) -> (r: bool)
    ensures
        r == prio_lt(*a, *b),
{
    if a.rank != b.rank {
        a.rank < b.rank
    } else if a.merge != b.merge {
        a.merge < b.merge
    } else if a.pos != b.pos {
        a.pos < b.pos
    } else if a.pair.0 != b.pair.0 {
        a.pair.0 < b.pair.0
    } else {
        a.pair.1 < b.pair.1
    }
}

/// `k` is the first position of `q` whose candidate no other precedes.
pub open spec fn first_min(q: Seq<Merge>, k: int) -> bool {
    &&& 0 <= k < q.len()
    &&& forall|j: int| 0 <= j < q.len() ==> !prio_lt(#[trigger] q[j], q[k])
    &&& forall|j: int| 0 <= j < k ==> prio_lt(q[k], #[trigger] q[j])
}

pub proof fn lemma_first_min_unique(q: Seq<Merge>, a: int, b: int)
    requires
        first_min(q, a),
        first_min(q, b),
    ensures
        a == b,
{
    if a < b {
        assert(prio_lt(q[b], q[a]));
    } else if b < a {
        assert(prio_lt(q[a], q[b]));
    }
}

/// Index of a candidate that no other one precedes.
fn best_index(q: &Vec<Merge>) -> (k: usize)
    requires
        q.len() > 0,
    ensures
        k < q.len(),
        forall|j: int| 0 <= j < q.len() ==> !prio_lt(#[trigger] q@[j], q@[k as int]),
        first_min(q@, k as int),
{
    let mut best: usize = 0;
    let mut j: usize = 1;
    while j < q.len()
        invariant
            best < j <= q.len(),
            forall|i: int| 0 <= i < j ==> !prio_lt(#[trigger] q@[i], q@[best as int]),
            forall|i: int| 0 <= i < best ==> prio_lt(q@[best as int], #[trigger] q@[i]),
        decreases q.len() - j,
    {
        if higher(&q[j], &q[best]) {
            best = j;
        }
        j += 1;
    }
    best
}

/// The number of live marks.
pub open spec fn count_live(s: Seq<Mark>) -> nat
    decreases s.len(),
{
    if s.len() == 0 {
        0
    } else {
        count_live(s.drop_last()) + if s.last().len > 0 { 1nat } else { 0nat }
    }
}

pub proof fn lemma_count_bound(s: Seq<Mark>)
    ensures
        count_live(s) <= s.len(),
    decreases s.len(),
{
    if s.len() > 0 {
        lemma_count_bound(s.drop_last());
    }
}

/// An encoding state has at most as many live tokens as its text has bytes, and each
/// merge that `merge` applies removes one of them: an encoding applies fewer merges than
/// its text has bytes.
pub proof fn lemma_merges_bounded(st: &MergeState)
    requires
        st.wf(),
    ensures
        count_live(st.marks@) <= st.text@.len(),
        st.text@.len() > 0 ==> count_live(st.marks@) >= 1,
{
    lemma_count_bound(st.marks@);
    if st.text@.len() > 0 {
        reveal(chain_ok);
        lemma_count_positive(st.marks@, 0);
    }
}

proof fn lemma_count_positive(s: Seq<Mark>, i: int)
    requires
        0 <= i < s.len(),
        s[i].len > 0,
    ensures
        count_live(s) >= 1,
    decreases s.len(),
{
    if i < s.len() - 1 {
        lemma_count_positive(s.drop_last(), i);
    }
}

proof fn lemma_count_update(s: Seq<Mark>, i: int, m: Mark)
    requires
        0 <= i < s.len(),
    ensures
        (s[i].len > 0) == (m.len > 0) ==> count_live(s.update(i, m)) == count_live(s),
        s[i].len > 0 && m.len == 0 ==> count_live(s.update(i, m)) + 1 == count_live(s),
    decreases s.len(),
{
    let t = s.update(i, m);
    if i == s.len() - 1 {
        assert(t.drop_last() =~= s.drop_last());
    } else {
        assert(t.drop_last() =~= s.drop_last().update(i, m));
        lemma_count_update(s.drop_last(), i, m);
    }
}

pub proof fn lemma_chain_step(m: Seq<Mark>, n: int, p: int)
    requires
        chain_ok(m, n),
        0 <= p < n,
        m[p].len > 0,
    ensures
        p + m[p].len <= n,
        p + m[p].len < n ==> m[p + m[p].len].len > 0,
{
    reveal(chain_ok);
}

pub proof fn lemma_marks_facts(bpe: &Bpe, text: Seq<u8>, m: Seq<Mark>, p: int)
    requires
        marks_ok(bpe, text, m),
        0 <= p < text.len(),
    ensures
        m[p].back_distance <= p,
        m[p].token < bpe.tokens.len(),
        m[p].len > 0 && m[p].token != bpe.unk ==> bpe.piece(m[p].token as int) == text.subrange(p, p + m[p].len),
        all_bytes_known(bpe, text) && m[p].len > 0 ==> m[p].token != bpe.unk,
{
    reveal(marks_ok);
}

/// The live positions partition `0..n`: position 0 is live, each live span ends where
/// the next live one starts (or at `n`), and no live position lies inside a span.
#[verifier::opaque]
pub open spec fn chain_ok(m: Seq<Mark>, n: int) -> bool {
    &&& n > 0 ==> m[0].len > 0
    &&& forall|p: int| 0 <= p < n && #[trigger] m[p].len > 0 ==> {
            &&& p + m[p].len <= n
            &&& p + m[p].len < n ==> m[p + m[p].len].len > 0
        }
    &&& forall|p: int, q: int| 0 <= p < q < n && #[trigger] m[p].len > 0 && q < p + m[p].len
            ==> #[trigger] m[q].len == 0
}

/// Every byte of `text` has a byte token.
pub open spec fn all_bytes_known(bpe: &Bpe, text: Seq<u8>) -> bool {
    forall|i: int| 0 <= i < text.len() ==> bpe.bytes@[#[trigger] text[i] as int] != bpe.unk
}

/// The state of one encoding.
pub struct MergeState<'v, 't> {
    pub text: &'t [u8],
    pub bpe: &'v Bpe,
    pub marks: Vec<Mark>,
    pub merges: Vec<Merge>,
}

impl<'v, 't> MergeState<'v, 't> {
    pub open spec fn n(&self) -> int {
        self.text@.len() as int
    }

    pub open spec fn live(&self, p: int) -> bool {
        self.marks@[p].len > 0
    }

    /// A queued candidate is sound: its merged piece is the text at its position.
    pub open spec fn cand_ok(&self, c: Merge) -> bool {
        cand_sound(self.bpe, self.text@, c)
    }

    pub open spec fn valid_at(&self, mk: Seq<Mark>, c: Merge) -> bool {
        valid_in(self.bpe, self.text@, mk, c)
    }

    pub open spec fn applied_at(&self, m: Seq<Mark>, c: Merge) -> Seq<Mark> {
        applied_in(self.bpe, self.text@, m, c)
    }

    pub open spec fn cands_at(&self, m: Seq<Mark>, c: Merge) -> Seq<Merge> {
        cands_in(self.bpe, self.text@, m, c)
    }

    pub open spec fn valid(&self, c: Merge) -> bool {
        self.valid_at(self.marks@, c)
    }

    pub open spec fn applied_marks(&self, c: Merge) -> Seq<Mark> {
        self.applied_at(self.marks@, c)
    }

    pub open spec fn neighbour_cands(&self, c: Merge) -> Seq<Merge> {
        self.cands_at(self.marks@, c)
    }

    pub open spec fn merge_spec(&self, m: Seq<Mark>, q: Seq<Merge>) -> (bool, Seq<Mark>, Seq<Merge>) {
        merge_step(self.bpe, self.text@, m, q)
    }

    pub open spec fn wf(&self) -> bool {
        &&& self.bpe.wf()
        &&& self.marks.len() == self.n()
        &&& chain_ok(self.marks@, self.n())
        &&& marks_ok(self.bpe, self.text@, self.marks@)
        &&& forall|k: int| 0 <= k < self.merges.len() ==> self.cand_ok(#[trigger] self.merges@[k])
    }
}

/// The candidate for the pair `pair` over `text[a..b]`, if the vocabulary has that piece.
pub open spec fn cand_at(bpe: &Bpe, text: Seq<u8>, a: int, b: int, pair: (utok, utok)) -> Seq<Merge> {
    match bpe.lookup(text.subrange(a, b)) {
        Some(m) => seq![Merge { pos: a as usize, pair, merge: m, rank: bpe.tokens@[m as int].rank }],
        None => Seq::empty(),
    }
}

/// The candidate can be applied to the marks as they are.
pub open spec fn valid_in(bpe: &Bpe, text: Seq<u8>, mk: Seq<Mark>, c: Merge) -> bool {
    let start = c.pos as int;
    let mid = start + mk[start].len;
    &&& start < text.len()
    &&& mk[start].len > 0
    &&& mk[start].token == c.pair.0
    &&& mid < text.len()
    &&& mk[mid].len > 0
    &&& mk[mid].token == c.pair.1
    &&& mk[start].len + mk[mid].len == bpe.tokens@[c.merge as int].len
}

/// The marks after applying `c`: its first position takes the merged token over both
/// spans, its second position becomes inner, and the next live position (if any) now
/// lies that merged span's length after it.
pub open spec fn applied_in(bpe: &Bpe, text: Seq<u8>, m: Seq<Mark>, c: Merge) -> Seq<Mark> {
    let start = c.pos as int;
    let mid = start + m[start].len;
    let next = mid + m[mid].len;
    let span = (m[start].len + m[mid].len) as usize;
    let a = m.update(start, Mark { token: c.merge, back_distance: m[start].back_distance, len: span })
        .update(mid, Mark { token: bpe.unk, back_distance: m[mid].back_distance, len: 0 });
    if next < text.len() {
        a.update(next, Mark { token: m[next].token, back_distance: span, len: m[next].len })
    } else {
        a
    }
}

/// The candidates that applying `c` queues: merged token with its right neighbour, then
/// left neighbour with merged token, each where the vocabulary has the joined piece.
pub open spec fn cands_in(bpe: &Bpe, text: Seq<u8>, m: Seq<Mark>, c: Merge) -> Seq<Merge> {
    let start = c.pos as int;
    let mid = start + m[start].len;
    let next = mid + m[mid].len;
    let right = if next < text.len() {
        cand_at(bpe, text, start, next + m[next].len, (c.merge, m[next].token))
    } else {
        Seq::empty()
    };
    let bd = m[start].back_distance as int;
    let left = if bd > 0 {
        cand_at(bpe, text, start - bd, next, (m[start - bd].token, c.merge))
    } else {
        Seq::empty()
    };
    right + left
}

/// One `merge` on marks `m` and queue `q`: take the first candidate that no other
/// precedes; if it is valid, apply it and queue its neighbour candidates after the rest,
/// else drop it and go on. Gives whether a merge was applied, the marks and the queue.
pub open spec fn merge_step(bpe: &Bpe, text: Seq<u8>, m: Seq<Mark>, q: Seq<Merge>) -> (bool, Seq<Mark>, Seq<Merge>)
    decreases q.len(),
{
    if q.len() == 0 {
        (false, m, q)
    } else {
        let k = choose|k: int| first_min(q, k);
        if 0 <= k < q.len() {
            let c = q[k];
            let rest = q.remove(k);
            if valid_in(bpe, text, m, c) {
                (true, applied_in(bpe, text, m, c), rest + cands_in(bpe, text, m, c))
            } else {
                merge_step(bpe, text, m, rest)
            }
        } else {
            (false, m, Seq::empty())
        }
    }
}

/// The start of an encoding from position `i` on: a position before `fb_end` takes its
/// byte's token; else the character there takes its piece's token (queuing the candidate
/// with the previous character piece `last`), or, with no such piece, its bytes fall back.
#[verifier::opaque]
pub open spec fn init_loop(bpe: &Bpe, text: Seq<u8>, i: int, fb_end: int, last: Option<usize>, m: Seq<Mark>, q: Seq<Merge>) -> (Seq<Mark>, Seq<Merge>)
    decreases text.len() - i, if i < fb_end { 0int } else { 1int },
{
    if i < 0 || i >= text.len() {
        (m, q)
    } else if i < fb_end {
        init_loop(bpe, text, i + 1, fb_end, last, m.update(i, Mark { token: bpe.bytes@[text[i] as int], back_distance: 0, len: 1 }), q)
    } else {
        let w = utf8_width(text[i], text.len() - i);
        if w < 1 {
            (m, q)
        } else {
            match bpe.lookup(text.subrange(i, i + w)) {
                Some(tc) => {
                    let bd: usize = match last { Some(pos) => (i - pos) as usize, None => 0 };
                    let q2 = match last {
                        Some(pos) => q + cand_at(bpe, text, pos as int, i + w, (m[pos as int].token, tc)),
                        None => q,
                    };
                    init_loop(bpe, text, i + w, fb_end, Some(i as usize), m.update(i, Mark { token: tc, back_distance: bd, len: w as usize }), q2)
                },
                None => init_loop(bpe, text, i, i + w, None, m, q),
            }
        }
    }
}

proof fn lemma_init_loop_byte(bpe: &Bpe, text: Seq<u8>, i: int, fb: int, last: Option<usize>, m: Seq<Mark>, q: Seq<Merge>)
    requires
        0 <= i < text.len(),
        i < fb,
    ensures
        init_loop(bpe, text, i, fb, last, m, q) == init_loop(bpe, text, i + 1, fb, last,
            m.update(i, Mark { token: bpe.bytes@[text[i] as int], back_distance: 0, len: 1 }), q),
{
    reveal_with_fuel(init_loop, 1);
}

proof fn lemma_init_loop_char(bpe: &Bpe, text: Seq<u8>, i: int, fb: int, last: Option<usize>, m: Seq<Mark>, q: Seq<Merge>, w: int, tc: utok)
    requires
        0 <= i < text.len(),
        !(i < fb),
        w == utf8_width(text[i], text.len() - i),
        w >= 1,
        bpe.lookup(text.subrange(i, i + w)) == Some(tc),
    ensures
        init_loop(bpe, text, i, fb, last, m, q) == init_loop(bpe, text, i + w, fb, Some(i as usize),
            m.update(i, Mark { token: tc, back_distance: match last { Some(pos) => (i - pos) as usize, None => 0usize }, len: w as usize }),
            match last {
                Some(pos) => q + cand_at(bpe, text, pos as int, i + w, (m[pos as int].token, tc)),
                None => q,
            }),
{
    reveal_with_fuel(init_loop, 1);
}

proof fn lemma_init_loop_none(bpe: &Bpe, text: Seq<u8>, i: int, fb: int, last: Option<usize>, m: Seq<Mark>, q: Seq<Merge>, w: int)
    requires
        0 <= i < text.len(),
        !(i < fb),
        w == utf8_width(text[i], text.len() - i),
        w >= 1,
        bpe.lookup(text.subrange(i, i + w)) is None,
    ensures
        init_loop(bpe, text, i, fb, last, m, q) == init_loop(bpe, text, i, i + w, None, m, q),
{
    reveal_with_fuel(init_loop, 1);
}

proof fn lemma_init_loop_end(bpe: &Bpe, text: Seq<u8>, i: int, fb: int, last: Option<usize>, m: Seq<Mark>, q: Seq<Merge>)
    requires
        i >= text.len(),
    ensures
        init_loop(bpe, text, i, fb, last, m, q) == (m, q),
{
    reveal_with_fuel(init_loop, 1);
}

/// The marks and queue that an encoding of `text` starts from.
pub open spec fn init_state(bpe: &Bpe, text: Seq<u8>) -> (Seq<Mark>, Seq<Merge>) {
    init_loop(bpe, text, 0, 0, None, Seq::new(text.len(), |i: int| Mark { token: bpe.unk, back_distance: 0, len: 0 }), Seq::empty())
}

/// Up to `fuel` merges from marks `m` and queue `q`, stopping when none applies.
#[verifier::opaque]
pub open spec fn run_merges(bpe: &Bpe, text: Seq<u8>, m: Seq<Mark>, q: Seq<Merge>, fuel: nat) -> Seq<Mark>
    decreases fuel,
{
    if fuel == 0 {
        m
    } else {
        let (b, m2, q2) = merge_step(bpe, text, m, q);
        if b { run_merges(bpe, text, m2, q2, (fuel - 1) as nat) } else { m2 }
    }
}

proof fn lemma_run_step(bpe: &Bpe, text: Seq<u8>, m: Seq<Mark>, q: Seq<Merge>, fuel: nat)
    requires
        fuel >= 1,
    ensures
        run_merges(bpe, text, m, q, fuel) == ({
            let (b, m2, q2) = merge_step(bpe, text, m, q);
            if b { run_merges(bpe, text, m2, q2, (fuel - 1) as nat) } else { m2 }
        }),
{
    reveal_with_fuel(run_merges, 1);
}

/// The tokens of the live positions from `i` on, left to right.
pub open spec fn tokens_of(m: Seq<Mark>, i: int) -> Seq<utok>
    decreases m.len() - i,
{
    if i < 0 || i >= m.len() || m[i].len == 0 || i + m[i].len > m.len() {
        Seq::empty()
    } else {
        seq![m[i].token] + tokens_of(m, i + m[i].len)
    }
}

/// The byte pair encoding of `text`: from the start state, merges are applied until none
/// is valid (there are fewer than `text.len() + 1`), and the live tokens are read out.
pub open spec fn bpe_encoding(bpe: &Bpe, text: Seq<u8>) -> Seq<utok> {
    let (m, q) = init_state(bpe, text);
    tokens_of(run_merges(bpe, text, m, q, (text.len() + 1) as nat), 0)
}

/// Encoding is a function of the tokenizer and the text: two encodings of one text by one
/// tokenizer are equal.
pub proof fn lemma_bpe_deterministic(bpe: &Bpe, text: Seq<u8>, r1: Seq<utok>, r2: Seq<utok>)
    requires
        r1 == bpe_encoding(bpe, text),
        r2 == bpe_encoding(bpe, text),
    ensures
        r1 == r2,
{
}

/// No live mark holds `unk`.
pub open spec fn live_known(bpe: &Bpe, m: Seq<Mark>) -> bool {
    forall|p: int| 0 <= p < m.len() && #[trigger] m[p].len > 0 ==> m[p].token != bpe.unk
}

/// From position `i` on, each character of `text` (by its lead byte) is a piece whose
/// token is not `unk`, or each of its bytes has a byte token.
#[verifier::opaque]
pub open spec fn chars_known(bpe: &Bpe, text: Seq<u8>, i: int) -> bool
    decreases text.len() - i,
{
    if i < 0 || i >= text.len() {
        true
    } else {
        let w = utf8_width(text[i], text.len() - i);
        if w < 1 {
            true
        } else {
            ((bpe.lookup(text.subrange(i, i + w)) matches Some(x) && x != bpe.unk)
                || forall|q: int| i <= q < i + w ==> bpe.bytes@[#[trigger] text[q] as int] != bpe.unk)
            && chars_known(bpe, text, i + w)
        }
    }
}

proof fn lemma_chars_known_step(bpe: &Bpe, text: Seq<u8>, i: int)
    requires
        0 <= i < text.len(),
        chars_known(bpe, text, i),
    ensures
        ({
            let w = utf8_width(text[i], text.len() - i);
            &&& ((bpe.lookup(text.subrange(i, i + w)) matches Some(x) && x != bpe.unk)
                || forall|q: int| i <= q < i + w ==> bpe.bytes@[#[trigger] text[q] as int] != bpe.unk)
            &&& chars_known(bpe, text, i + w)
        }),
{
    reveal_with_fuel(chars_known, 1);
}

proof fn lemma_chars_known_end(bpe: &Bpe, text: Seq<u8>, i: int)
    requires
        i >= text.len(),
    ensures
        chars_known(bpe, text, i),
{
    reveal_with_fuel(chars_known, 1);
}

proof fn lemma_applied_known(bpe: &Bpe, text: Seq<u8>, m: Seq<Mark>, c: Merge)
    requires
        live_known(bpe, m),
        valid_in(bpe, text, m, c),
        c.merge != bpe.unk,
        m.len() == text.len(),
    ensures
        live_known(bpe, applied_in(bpe, text, m, c)),
{
    let a = applied_in(bpe, text, m, c);
    let start = c.pos as int;
    let mid = start + m[start].len;
    let next = mid + m[mid].len;
    assert forall|p: int| 0 <= p < a.len() && #[trigger] a[p].len > 0 implies a[p].token != bpe.unk by {
        if p != start && p != mid && p != next {
            assert(a[p] == m[p]);
        }
    }
}

/// While starting an encoding up to `i`: no live mark is `unk`, and what is left of the
/// text still has each character known.
#[verifier::opaque]
pub open spec fn known_inv(bpe: &Bpe, text: Seq<u8>, m: Seq<Mark>, i: int, fb: int) -> bool {
    &&& live_known(bpe, m)
    &&& (i >= fb ==> chars_known(bpe, text, i))
    &&& (i < fb ==> chars_known(bpe, text, fb) && forall|q: int| i <= q < fb ==> bpe.bytes@[#[trigger] text[q] as int] != bpe.unk)
}

proof fn lemma_known_byte(bpe: &Bpe, text: Seq<u8>, m0: Seq<Mark>, m: Seq<Mark>, i: int, fb: int)
    requires
        0 <= i < fb,
        i < text.len(),
        m0.len() == text.len(),
        known_inv(bpe, text, m0, i, fb),
        m == m0.update(i, Mark { token: bpe.bytes@[text[i] as int], back_distance: 0, len: 1 }),
    ensures
        known_inv(bpe, text, m, i + 1, fb),
{
    reveal(known_inv);
    assert forall|p: int| 0 <= p < m.len() && #[trigger] m[p].len > 0 implies m[p].token != bpe.unk by {
        if p != i {
            assert(m[p] == m0[p]);
        }
    }
}

proof fn lemma_known_char(bpe: &Bpe, text: Seq<u8>, m0: Seq<Mark>, m: Seq<Mark>, i: int, fb: int, w: int, tc: utok, bd: usize)
    requires
        bpe.wf(),
        0 <= i < text.len(),
        !(i < fb),
        m0.len() == text.len(),
        known_inv(bpe, text, m0, i, fb),
        w == utf8_width(text[i], text.len() - i),
        w >= 1,
        bpe.lookup(text.subrange(i, i + w)) == Some(tc),
        m == m0.update(i, Mark { token: tc, back_distance: bd, len: w as usize }),
    ensures
        known_inv(bpe, text, m, i + w, fb),
{
    reveal(known_inv);
    lemma_chars_known_step(bpe, text, i);
    bpe.lemma_lookup_sound(text.subrange(i, i + w), tc);
    if w == 1 {
        assert(text.subrange(i, i + w)[0] == text[i]);
    }
    assert forall|p: int| 0 <= p < m.len() && #[trigger] m[p].len > 0 implies m[p].token != bpe.unk by {
        if p != i {
            assert(m[p] == m0[p]);
        }
    }
}

proof fn lemma_known_none(bpe: &Bpe, text: Seq<u8>, m: Seq<Mark>, i: int, fb: int, w: int)
    requires
        0 <= i < text.len(),
        !(i < fb),
        known_inv(bpe, text, m, i, fb),
        w == utf8_width(text[i], text.len() - i),
        w >= 1,
        bpe.lookup(text.subrange(i, i + w)) is None,
    ensures
        known_inv(bpe, text, m, i, i + w),
{
    reveal(known_inv);
    lemma_chars_known_step(bpe, text, i);
}

/// A candidate is sound: its merged token is a normal token whose piece is the text at its position.
pub open spec fn cand_sound(bpe: &Bpe, text: Seq<u8>, c: Merge) -> bool {
    &&& c.merge < bpe.tokens.len()
    &&& c.merge != bpe.unk
    &&& bpe.in_index(c.merge)
    &&& c.rank == bpe.tokens@[c.merge as int].rank
    &&& c.pos + bpe.tokens@[c.merge as int].len <= text.len()
    &&& bpe.piece(c.merge as int) == text.subrange(c.pos as int, c.pos + bpe.tokens@[c.merge as int].len)
}

/// Facts of each mark: back distance in range, a valid token, and a live token other than
/// `unk` spells the text it covers (and is not `unk` where every byte has a byte token).
#[verifier::opaque]
pub open spec fn marks_ok(bpe: &Bpe, text: Seq<u8>, m: Seq<Mark>) -> bool {
    let n = text.len() as int;
    &&& forall|p: int| 0 <= p < n ==> (#[trigger] m[p]).back_distance <= p
    &&& forall|p: int| 0 <= p < n ==> (#[trigger] m[p]).token < bpe.tokens.len()
    &&& forall|p: int| 0 <= p < n && #[trigger] m[p].len > 0 && m[p].token != bpe.unk
            ==> bpe.piece(m[p].token as int) == text.subrange(p, p + m[p].len)
    &&& all_bytes_known(bpe, text) ==> forall|p: int| 0 <= p < n && #[trigger] m[p].len > 0
            ==> m[p].token != bpe.unk
}

/// Byte length of the UTF-8 character whose first byte is `b`, at most `rest`.
pub open spec fn utf8_width(b: u8, rest: int) -> int {
    let w = if b < 0x80 { 1int } else if b < 0xE0 { 2int } else if b < 0xF0 { 3int } else { 4int };
    if w < rest { w } else { rest }
}

/// Each live position below `upto` holds either the token of a character's piece, spanning
/// the character, or the byte table's token of its byte, spanning one byte.
#[verifier::opaque]
pub open spec fn init_marks_ok(bpe: &Bpe, text: Seq<u8>, m: Seq<Mark>, upto: int) -> bool {
    forall|p: int| 0 <= p < upto && #[trigger] m[p].len > 0 ==> {
        ||| (m[p].len == 1 && m[p].token == bpe.bytes@[text[p] as int] && m[p].back_distance == 0)
        ||| (bpe.lookup(text.subrange(p, p + m[p].len)) == Some(m[p].token) && m[p].len == utf8_width(text[p], text.len() - p))
    }
}

/// Each queued candidate joins two neighbouring live tokens (ending by `upto`) whose joined
/// text is the piece of its merged token.
#[verifier::opaque]
pub open spec fn queued_ok(bpe: &Bpe, text: Seq<u8>, m: Seq<Mark>, q: Seq<Merge>, upto: int) -> bool {
    forall|k: int| 0 <= k < q.len() ==> {
        let d = #[trigger] q[k];
        let mid = d.pos + m[d.pos as int].len;
        &&& m[d.pos as int].len > 0
        &&& d.pos < mid < upto
        &&& m[mid].len > 0
        &&& mid + m[mid].len <= upto
        &&& d.pair == (m[d.pos as int].token, m[mid].token)
        &&& bpe.lookup(text.subrange(d.pos as int, mid + m[mid].len)) == Some(d.merge)
        &&& d.rank == bpe.tokens@[d.merge as int].rank
    }
}

/// Every live position below `upto` with a back distance has its live left neighbour there,
/// and the candidate for the two is queued when their joined text is a piece.
#[verifier::opaque]
pub open spec fn pairs_queued(bpe: &Bpe, text: Seq<u8>, m: Seq<Mark>, q: Seq<Merge>, upto: int) -> bool {
    forall|p: int| 0 <= p < upto && #[trigger] m[p].len > 0 && m[p].back_distance > 0 ==> {
        let l = p - m[p].back_distance;
        &&& 0 <= l
        &&& m[l].len > 0
        &&& l + m[l].len == p
        &&& (bpe.lookup(text.subrange(l, p + m[p].len)) matches Some(mm) ==> q.contains(
            Merge { pos: l as usize, pair: (m[l].token, m[p].token), merge: mm, rank: bpe.tokens@[mm as int].rank }))
    }
}

proof fn lemma_init_byte(bpe: &Bpe, text: Seq<u8>, m0: Seq<Mark>, m: Seq<Mark>, q: Seq<Merge>, i: int)
    requires
        0 <= i < text.len() <= usize::MAX,
        m0.len() == text.len(),
        m == m0.update(i, Mark { token: bpe.bytes@[text[i] as int], back_distance: 0, len: 1 }),
        init_marks_ok(bpe, text, m0, i),
        queued_ok(bpe, text, m0, q, i),
        pairs_queued(bpe, text, m0, q, i),
    ensures
        init_marks_ok(bpe, text, m, i + 1),
        queued_ok(bpe, text, m, q, i + 1),
        pairs_queued(bpe, text, m, q, i + 1),
{
    reveal(init_marks_ok);
    reveal(queued_ok);
    reveal(pairs_queued);
    assert forall|k: int| 0 <= k < q.len() implies {
        let d = #[trigger] q[k];
        let mid = d.pos + m[d.pos as int].len;
        &&& m[d.pos as int].len > 0
        &&& d.pos < mid < i + 1
        &&& m[mid].len > 0
        &&& mid + m[mid].len <= i + 1
        &&& d.pair == (m[d.pos as int].token, m[mid].token)
        &&& bpe.lookup(text.subrange(d.pos as int, mid + m[mid].len)) == Some(d.merge)
        &&& d.rank == bpe.tokens@[d.merge as int].rank
    } by {
        let d = q[k];
        let mid = d.pos + m0[d.pos as int].len;
        assert(m[d.pos as int] == m0[d.pos as int]);
        assert(m[mid] == m0[mid]);
    }
    assert forall|p: int| 0 <= p < i + 1 && #[trigger] m[p].len > 0 && m[p].back_distance > 0 implies {
        let l = p - m[p].back_distance;
        &&& 0 <= l
        &&& m[l].len > 0
        &&& l + m[l].len == p
        &&& (bpe.lookup(text.subrange(l, p + m[p].len)) matches Some(mm) ==> q.contains(
            Merge { pos: l as usize, pair: (m[l].token, m[p].token), merge: mm, rank: bpe.tokens@[mm as int].rank }))
    } by {
        assert(p != i);
        assert(m[p] == m0[p]);
        let l = p - m0[p].back_distance;
        assert(m0[l].len > 0);
        assert(m[l] == m0[l]);
    }
    assert forall|p: int| 0 <= p < i + 1 && #[trigger] m[p].len > 0 implies {
        ||| (m[p].len == 1 && m[p].token == bpe.bytes@[text[p] as int] && m[p].back_distance == 0)
        ||| (bpe.lookup(text.subrange(p, p + m[p].len)) == Some(m[p].token) && m[p].len == utf8_width(text[p], text.len() - p))
    } by {
        if p != i {
            assert(m[p] == m0[p]);
        }
    }
}

proof fn lemma_init_char(bpe: &Bpe, text: Seq<u8>, m0: Seq<Mark>, m: Seq<Mark>, q0: Seq<Merge>, q: Seq<Merge>, i: int, w: int, tc: utok, bd: int)
    requires
        0 <= i < i + w <= text.len() <= usize::MAX,
        m0.len() == text.len(),
        forall|p: int| i <= p < text.len() ==> #[trigger] m0[p].len == 0,
        0 <= bd <= i,
        m == m0.update(i, Mark { token: tc, back_distance: bd as usize, len: w as usize }),
        bpe.lookup(text.subrange(i, i + w)) == Some(tc),
        w == utf8_width(text[i], text.len() - i),
        bd > 0 ==> m0[i - bd].len > 0 && i - bd + m0[i - bd].len == i,
        q.len() >= q0.len(),
        forall|k: int| 0 <= k < q0.len() ==> q[k] == q0[k],
        forall|k: int| q0.len() <= k < q.len() ==> #[trigger] q[k] == (Merge { pos: (i - bd) as usize, pair: (m0[i - bd].token, tc),
            merge: bpe.lookup(text.subrange(i - bd, i + w)).unwrap(), rank: bpe.tokens@[bpe.lookup(text.subrange(i - bd, i + w)).unwrap() as int].rank })
            && bd > 0 && bpe.lookup(text.subrange(i - bd, i + w)) is Some,
        bd > 0 && bpe.lookup(text.subrange(i - bd, i + w)) is Some ==> q.len() > q0.len(),
        init_marks_ok(bpe, text, m0, i),
        queued_ok(bpe, text, m0, q0, i),
        pairs_queued(bpe, text, m0, q0, i),
    ensures
        init_marks_ok(bpe, text, m, i + w),
        queued_ok(bpe, text, m, q, i + w),
        pairs_queued(bpe, text, m, q, i + w),
{
    reveal(init_marks_ok);
    reveal(queued_ok);
    reveal(pairs_queued);
    assert forall|k: int| 0 <= k < q.len() implies {
        let d = #[trigger] q[k];
        let mid = d.pos + m[d.pos as int].len;
        &&& m[d.pos as int].len > 0
        &&& d.pos < mid < i + w
        &&& m[mid].len > 0
        &&& mid + m[mid].len <= i + w
        &&& d.pair == (m[d.pos as int].token, m[mid].token)
        &&& bpe.lookup(text.subrange(d.pos as int, mid + m[mid].len)) == Some(d.merge)
        &&& d.rank == bpe.tokens@[d.merge as int].rank
    } by {
        if k < q0.len() {
            let d = q0[k];
            assert(q[k] == d);
            let mid = d.pos + m0[d.pos as int].len;
            assert(m[d.pos as int] == m0[d.pos as int]);
            assert(m[mid] == m0[mid]);
        } else {
            assert(m[i - bd] == m0[i - bd]);
        }
    }
    assert forall|p: int| 0 <= p < i + w && #[trigger] m[p].len > 0 && m[p].back_distance > 0 implies {
        let l = p - m[p].back_distance;
        &&& 0 <= l
        &&& m[l].len > 0
        &&& l + m[l].len == p
        &&& (bpe.lookup(text.subrange(l, p + m[p].len)) matches Some(mm) ==> q.contains(
            Merge { pos: l as usize, pair: (m[l].token, m[p].token), merge: mm, rank: bpe.tokens@[mm as int].rank }))
    } by {
        if p < i {
            assert(m[p] == m0[p]);
            let l = p - m0[p].back_distance;
            assert(m0[l].len > 0);
            assert(m[l] == m0[l]);
            if let Some(mm) = bpe.lookup(text.subrange(l, p + m[p].len)) {
                let d = Merge { pos: l as usize, pair: (m[l].token, m[p].token), merge: mm, rank: bpe.tokens@[mm as int].rank };
                assert(q0.contains(d));
                let k = choose|k: int| 0 <= k < q0.len() && q0[k] == d;
                assert(q[k] == d);
            }
        } else if p == i {
            assert(m[i].back_distance == bd);
            assert(m[i - bd] == m0[i - bd]);
            assert(m[i].len == w);
            if let Some(mm) = bpe.lookup(text.subrange(i - bd, i + w)) {
                let d = Merge { pos: (i - bd) as usize, pair: (m[i - bd].token, m[i].token), merge: mm, rank: bpe.tokens@[mm as int].rank };
                assert(q[q0.len() as int] == d);
                assert(q.contains(d));
            }
        } else {
            assert(m[p] == m0[p]);
        }
    }
    assert forall|p: int| 0 <= p < i + w && #[trigger] m[p].len > 0 implies {
        ||| (m[p].len == 1 && m[p].token == bpe.bytes@[text[p] as int] && m[p].back_distance == 0)
        ||| (bpe.lookup(text.subrange(p, p + m[p].len)) == Some(m[p].token) && m[p].len == utf8_width(text[p], text.len() - p))
    } by {
        if p != i {
            assert(m[p] == m0[p]);
        }
    }
}

fn char_width(b: u8, rest: usize) -> (w: usize)
    requires
        rest > 0,
    ensures
        1 <= w <= rest,
        w == utf8_width(b, rest as int),
{
    let w: usize = if b < 0x80 {
        1
    } else if b < 0xE0 {
        2
    } else if b < 0xF0 {
        3
    } else {
        4
    };
    if w < rest { w } else { rest }
}

impl Bpe {
    /// The candidate for merging the pair `pair` that spans `text[start..end]`, if the
    /// vocabulary has that piece.
    fn build_merge(&self, text: &[u8], start: usize, end: usize, pair: (utok, utok)) -> (r: Option<Merge>)
        requires
            self.wf(),
            start <= end <= text.len(),
        ensures
            match self.lookup(text@.subrange(start as int, end as int)) {
                Some(m) => r == Some(Merge { pos: start, pair, merge: m, rank: self.tokens@[m as int].rank }),
                None => r.is_none(),
            },
            r matches Some(c) ==> c.merge < self.tokens.len(),
            start + 2 <= end ==> (r matches Some(c) ==> c.merge != self.unk && self.in_index(c.merge)
                && c.pos + self.tokens@[c.merge as int].len == end
                && self.piece(c.merge as int) == text@.subrange(start as int, end as int)),
    {
        let piece = vstd::slice::slice_subrange(text, start, end);
        match self.find_piece(piece) {
            Some(m) => {
                assert(self.tokens@[m as int].off + self.tokens@[m as int].len <= self.vocabs.len());
                assert(self.piece(m as int).len() == self.tokens@[m as int].len);
                Some(Merge { pos: start, pair, merge: m, rank: self.tokens[m as usize].rank })
            },
            None => None,
        }
    }
}

proof fn lemma_chain_after_merge(m0: Seq<Mark>, m: Seq<Mark>, n: int, start: int, mid: int, next: int)
    requires
        m0.len() == n,
        m.len() == n,
        chain_ok(m0, n),
        0 <= start < mid < n,
        m0[start].len > 0,
        m0[mid].len > 0,
        mid == start + m0[start].len,
        next == mid + m0[mid].len,
        m[start].len == next - start,
        m[mid].len == 0,
        next < n ==> m[next].len == m0[next].len,
        forall|p: int| 0 <= p < n && p != start && p != mid && p != next ==> #[trigger] m[p] == m0[p],
    ensures
        chain_ok(m, n),
{
    reveal(chain_ok);
    assert forall|p: int| 0 <= p < n && #[trigger] m0[p].len > 0 && p != start implies p + m0[p].len != mid by {
        if p < start && p + m0[p].len == mid {
            assert(m0[start].len == 0);
        }
        if start < p < mid {
            assert(m0[p].len == 0);
        }
    }
    assert forall|p: int| 0 <= p < n && p != start && p != mid implies (#[trigger] m[p]).len == m0[p].len by {
        if p != next {
            assert(m[p] == m0[p]);
        }
    }
    assert forall|p: int| 0 <= p < n && #[trigger] m[p].len > 0 implies {
        &&& p + m[p].len <= n
        &&& p + m[p].len < n ==> m[p + m[p].len].len > 0
    } by {
        if p != start {
            assert(m0[p].len > 0);
            assert(m[p].len == m0[p].len);
            let q = p + m[p].len;
            if q < n {
                assert(m0[q].len > 0);
                if q != start {
                    assert(m[q].len == m0[q].len);
                }
            }
        } else {
            if next < n {
                assert(m0[next].len > 0);
            }
        }
    }
    assert forall|p: int, q: int| 0 <= p < q < n && #[trigger] m[p].len > 0 && q < p + m[p].len
        implies #[trigger] m[q].len == 0 by {
        if p == start {
            if q < mid {
                assert(m0[q].len == 0);
                assert(m[q].len == m0[q].len);
            } else if q > mid {
                assert(m0[q].len == 0);
                assert(m[q].len == m0[q].len);
            }
        } else {
            assert(m0[p].len > 0);
            assert(m[p].len == m0[p].len);
            if q != mid {
                assert(m0[q].len == 0);
                if q != start {
                    assert(m[q].len == m0[q].len);
                }
            }
        }
    }
}

proof fn lemma_marks_after_merge(bpe: &Bpe, text: Seq<u8>, m0: Seq<Mark>, m: Seq<Mark>, start: int, mid: int, next: int, c: Merge)
    requires
        bpe.wf(),
        m0.len() == text.len(),
        m.len() == text.len(),
        marks_ok(bpe, text, m0),
        cand_sound(bpe, text, c),
        c.pos == start,
        0 <= start < mid < text.len(),
        next == start + bpe.tokens@[c.merge as int].len,
        m[start].token == c.merge,
        m[start].back_distance == m0[start].back_distance,
        m[start].len == next - start,
        m[mid].len == 0,
        m[mid].token == bpe.unk,
        m[mid].back_distance == m0[mid].back_distance,
        next < text.len() ==> m[next].len == m0[next].len && m[next].token == m0[next].token && m[next].back_distance <= next,
        forall|p: int| 0 <= p < text.len() && p != start && p != mid && p != next ==> #[trigger] m[p] == m0[p],
    ensures
        marks_ok(bpe, text, m),
{
    reveal(marks_ok);
    let n = text.len() as int;
    assert forall|p: int| 0 <= p < n implies (#[trigger] m[p]).back_distance <= p by {
        if p != start && p != mid && p != next {
            assert(m[p] == m0[p]);
        }
        assert(m0[p].back_distance <= p);
    }
    assert forall|p: int| 0 <= p < n implies (#[trigger] m[p]).token < bpe.tokens.len() by {
        if p != start && p != mid && p != next {
            assert(m[p] == m0[p]);
        }
        assert(m0[p].token < bpe.tokens.len());
    }
    assert forall|p: int| 0 <= p < n && #[trigger] m[p].len > 0 && m[p].token != bpe.unk
        implies bpe.piece(m[p].token as int) == text.subrange(p, p + m[p].len) by {
        if p != start && p != mid && p != next {
            assert(m[p] == m0[p]);
        }
        if p != start {
            assert(m0[p].len > 0);
        }
    }
    if all_bytes_known(bpe, text) {
        assert forall|p: int| 0 <= p < n && #[trigger] m[p].len > 0 implies m[p].token != bpe.unk by {
            if p != start && p != mid && p != next {
                assert(m[p] == m0[p]);
            }
            if p != start {
                assert(m0[p].len > 0);
            }
        }
    }
}

impl<'v, 't> MergeState<'v, 't> {
    fn is_valid(&self, c: &Merge) -> (r: bool)
        requires
            self.wf(),
            self.cand_ok(*c),
        ensures
            r == self.valid(*c),
    {
        let n = self.text.len();
        let start = c.pos;
        if start >= n {
            return false;
        }
        let m1 = self.marks[start];
        if m1.len == 0 || m1.token != c.pair.0 {
            return false;
        }
        proof {
            lemma_chain_step(self.marks@, n as int, start as int);
        }
        let mid = start + m1.len;
        if mid >= n {
            return false;
        }
        let m2 = self.marks[mid];
        if m2.len == 0 || m2.token != c.pair.1 {
            return false;
        }
        proof {
            lemma_chain_step(self.marks@, n as int, mid as int);
        }
        m1.len + m2.len == self.bpe.tokens[c.merge as usize].len
    }

    /// Replaces the valid pair of `c` by its merged token and queues the candidates that
    /// the new token forms with its right and left neighbours.
    #[verifier::rlimit(60)]
    #[verifier::spinoff_prover]
    fn apply(&mut self, c: Merge)
        requires
            old(self).wf(),
            old(self).cand_ok(c),
            old(self).valid(c),
        ensures
            final(self).wf(),
            final(self).text == old(self).text,
            final(self).bpe == old(self).bpe,
            count_live(final(self).marks@) + 1 == count_live(old(self).marks@),
            final(self).marks@[c.pos as int].token == c.merge,
            final(self).marks@ == old(self).applied_marks(c),
            final(self).merges@ == old(self).merges@ + old(self).neighbour_cands(c),
    {
        let ghost s0 = *self;
        let ghost m0 = self.marks@;
        let n = self.text.len();
        let start = c.pos;
        let m1 = self.marks[start];
        let l1 = m1.len;
        let mid = start + l1;
        let m2 = self.marks[mid];
        let l2 = m2.len;
        let next = mid + l2;
        proof {
            lemma_chain_step(m0, n as int, mid as int);
            lemma_marks_facts(self.bpe, self.text@, m0, start as int);
            lemma_count_update(m0, start as int, Mark { token: c.merge, back_distance: m1.back_distance, len: (l1 + l2) as usize });
        }
        self.marks.set(start, Mark { token: c.merge, back_distance: m1.back_distance, len: l1 + l2 });
        let ghost m1s = self.marks@;
        proof {
            lemma_count_update(m1s, mid as int, Mark { token: self.bpe.unk, back_distance: m2.back_distance, len: 0 });
        }
        self.marks.set(mid, Mark { token: self.bpe.unk, back_distance: m2.back_distance, len: 0 });
        let ghost m2s = self.marks@;
        if next < n {
            let m3 = self.marks[next];
            proof {
                lemma_count_update(m2s, next as int, Mark { token: m3.token, back_distance: (l1 + l2) as usize, len: m3.len });
            }
            self.marks.set(next, Mark { token: m3.token, back_distance: l1 + l2, len: m3.len });
        }
        let ghost m = self.marks@;
        proof {
            lemma_chain_after_merge(m0, m, n as int, start as int, mid as int, next as int);
            assert(m0[start as int].len + m0[mid as int].len == self.bpe.tokens@[c.merge as int].len);
            lemma_marks_after_merge(self.bpe, self.text@, m0, m, start as int, mid as int, next as int, c);
            assert(m =~= s0.applied_marks(c));
        }
        let ghost q0 = self.merges@;
        let ghost cands = s0.neighbour_cands(c);
        if next < n {
            proof {
                lemma_chain_step(m, n as int, next as int);
            }
            let t3 = self.marks[next].token;
            let next_end = next + self.marks[next].len;
            if let Some(d) = self.bpe.build_merge(self.text, start, next_end, (c.merge, t3)) {
                self.merges.push(d);
            }
        }
        let ghost q1 = self.merges@;
        let l0 = self.marks[start].back_distance;
        proof {
            lemma_marks_facts(self.bpe, self.text@, m0, start as int);
        }
        if l0 > 0 {
            let left = start - l0;
            let t0 = self.marks[left].token;
            assert(t0 == m0[left as int].token);
            if let Some(d) = self.bpe.build_merge(self.text, left, next, (t0, c.merge)) {
                self.merges.push(d);
            }
        }
        proof {
            let right = if (next as int) < n as int {
                cand_at(self.bpe, self.text@, start as int, next + m0[next as int].len, (c.merge, m0[next as int].token))
            } else {
                Seq::empty()
            };
            assert(q1 =~= q0 + right);
            assert(self.merges@ =~= q0 + cands);
        }
    }

    /// Applies the valid candidate of highest priority, dropping the stale ones before it.
    /// Returns whether a merge was applied.
    #[verifier::rlimit(60)]
    #[verifier::spinoff_prover]
    pub fn merge(&mut self) -> (r: bool)
        requires
            old(self).wf(),
        ensures
            final(self).wf(),
            final(self).text == old(self).text,
            final(self).bpe == old(self).bpe,
            r ==> count_live(final(self).marks@) + 1 == count_live(old(self).marks@),
            r ==> exists|c: Merge| #[trigger] old(self).merges@.contains(c) && old(self).valid(c)
                && (forall|d: Merge| old(self).merges@.contains(d) && old(self).valid(d) ==> !prio_lt(d, c))
                && final(self).marks@[c.pos as int].token == c.merge
                && final(self).marks@ == old(self).applied_marks(c)
                && exists|rem: Seq<Merge>| {
                    &&& #[trigger] (rem + old(self).neighbour_cands(c)) == final(self).merges@
                    &&& forall|d: Merge| rem.contains(d) ==> old(self).merges@.contains(d)
                    &&& forall|d: Merge| old(self).merges@.contains(d) && d != c && !prio_lt(d, c) ==> rem.contains(d)
                },
            !r ==> final(self).marks@ == old(self).marks@,
            !r ==> final(self).merges.len() == 0,
            live_known(old(self).bpe, old(self).marks@) ==> live_known(final(self).bpe, final(self).marks@),
            (r, final(self).marks@, final(self).merges@) == old(self).merge_spec(old(self).marks@, old(self).merges@),
            !r ==> forall|d: Merge| old(self).merges@.contains(d) ==> !old(self).valid(d),
    {
        while self.merges.len() > 0
            invariant
                self.wf(),
                self.text == old(self).text,
                self.bpe == old(self).bpe,
                self.marks@ == old(self).marks@,
                forall|d: Merge| old(self).merges@.contains(d) && old(self).valid(d) ==> self.merges@.contains(d),
                forall|d: Merge| self.merges@.contains(d) ==> old(self).merges@.contains(d),
                forall|d: Merge| old(self).merges@.contains(d) ==> self.merges@.contains(d)
                    || forall|x: Merge| self.merges@.contains(x) ==> !prio_lt(x, d),
                old(self).merge_spec(self.marks@, self.merges@) == old(self).merge_spec(old(self).marks@, old(self).merges@),
            decreases self.merges.len(),
        {
            let k = best_index(&self.merges);
            let ghost q = self.merges@;
            let c = self.merges.remove(k);
            proof {
                let kk = choose|kk: int| first_min(q, kk);
                lemma_first_min_unique(q, k as int, kk);
                assert(self.merges@ == q.remove(k as int));
                assert(self.valid(c) == old(self).valid_at(self.marks@, c));
            }
            proof {
                assert(q[k as int] == c);
                assert(self.cand_ok(q[k as int]));
                assert(q.contains(c));
                assert forall|j: int| 0 <= j < self.merges.len() implies self.cand_ok(#[trigger] self.merges@[j]) by {
                    if j < k {
                        assert(self.merges@[j] == q[j]);
                    } else {
                        assert(self.merges@[j] == q[j + 1]);
                    }
                }
                assert forall|x: Merge| self.merges@.contains(x) implies q.contains(x) by {
                    let j = choose|j: int| 0 <= j < self.merges.len() && self.merges@[j] == x;
                    if j < k {
                        assert(q[j] == x);
                    } else {
                        assert(q[j + 1] == x);
                    }
                }
                assert forall|d: Merge| old(self).merges@.contains(d) implies self.merges@.contains(d)
                    || forall|x: Merge| self.merges@.contains(x) ==> !prio_lt(x, d) by {
                    if !self.merges@.contains(d) {
                        if q.contains(d) {
                            let j = choose|j: int| 0 <= j < q.len() && q[j] == d;
                            if j != k {
                                if j < k {
                                    assert(self.merges@[j] == d);
                                } else {
                                    assert(self.merges@[j - 1] == d);
                                }
                            }
                            assert forall|x: Merge| self.merges@.contains(x) implies !prio_lt(x, d) by {
                                assert(q.contains(x));
                                let i = choose|i: int| 0 <= i < q.len() && q[i] == x;
                                assert(!prio_lt(q[i], q[k as int]));
                            }
                        } else {
                            assert forall|x: Merge| self.merges@.contains(x) implies !prio_lt(x, d) by {
                                assert(q.contains(x));
                            }
                        }
                    }
                }
            }
            if self.is_valid(&c) {
                proof {
                    assert forall|d: Merge| old(self).merges@.contains(d) && old(self).valid(d) implies !prio_lt(d, c) by {
                        let j = choose|j: int| 0 <= j < q.len() && q[j] == d;
                        assert(!prio_lt(q[j], q[k as int]));
                    }
                }
                let ghost rem = self.merges@;
                proof {
                    assert forall|d: Merge| old(self).merges@.contains(d) && d != c && !prio_lt(d, c)
                        implies rem.contains(d) by {
                        if !rem.contains(d) {
                            assert(!prio_lt(c, d)) by {
                                if !q.contains(d) {
                                    assert(q.contains(c));
                                } else {
                                    let j = choose|j: int| 0 <= j < q.len() && q[j] == d;
                                    if j < k {
                                        assert(rem[j] == d);
                                    } else if j > k {
                                        assert(rem[j - 1] == d);
                                    }
                                }
                            }
                        }
                    }
                }
                let ghost pre = *self;
                assert(pre.applied_marks(c) == old(self).applied_at(self.marks@, c));
                assert(pre.neighbour_cands(c) == old(self).cands_at(self.marks@, c));
                proof {
                    if live_known(old(self).bpe, old(self).marks@) {
                        lemma_applied_known(self.bpe, self.text@, self.marks@, c);
                    }
                }
                self.apply(c);
                assert(old(self).merges@.contains(c) && old(self).valid(c));
                assert((rem + old(self).neighbour_cands(c)) == self.merges@);
                return true;
            }
            proof {
                assert forall|d: Merge| old(self).merges@.contains(d) && old(self).valid(d) implies self.merges@.contains(d) by {
                    let j = choose|j: int| 0 <= j < q.len() && q[j] == d;
                    assert(j != k);
                    if j < k {
                        assert(self.merges@[j] == d);
                    } else {
                        assert(self.merges@[j - 1] == d);
                    }
                }
            }
        }
        false
    }
}

impl<'v, 't> MergeState<'v, 't> {
    /// The tokens of the live positions, left to right.
    #[verifier::rlimit(60)]
    #[verifier::spinoff_prover]
    pub fn tokens(&self) -> (r: Vec<utok>)
        requires
            self.wf(),
        ensures
            forall|k: int| 0 <= k < r.len() ==> #[trigger] r@[k] < self.bpe.tokens.len(),
            (forall|k: int| 0 <= k < r.len() ==> #[trigger] r@[k] != self.bpe.unk) ==> self.bpe.decoded(r@) == self.text@,
            all_bytes_known(self.bpe, self.text@) ==> forall|k: int| 0 <= k < r.len() ==> #[trigger] r@[k] != self.bpe.unk,
            live_known(self.bpe, self.marks@) ==> forall|k: int| 0 <= k < r.len() ==> #[trigger] r@[k] != self.bpe.unk,
            r.len() <= self.text.len(),
            r.len() == 0 <==> self.text.len() == 0,
            r@ == tokens_of(self.marks@, 0),
    {
        let n = self.text.len();
        let mut r: Vec<utok> = Vec::new();
        let mut i: usize = 0;
        proof {
            reveal(chain_ok);
            assert(self.text@.take(0) =~= Seq::<u8>::empty());
        }
        while i < n
            invariant
                self.wf(),
                n == self.text.len(),
                i <= n,
                i < n ==> self.marks@[i as int].len > 0,
                r.len() <= i,
                r.len() == 0 <==> i == 0,
                forall|k: int| 0 <= k < r.len() ==> #[trigger] r@[k] < self.bpe.tokens.len(),
                (forall|k: int| 0 <= k < r.len() ==> #[trigger] r@[k] != self.bpe.unk) ==> self.bpe.decoded(r@) == self.text@.take(i as int),
                all_bytes_known(self.bpe, self.text@) ==> forall|k: int| 0 <= k < r.len() ==> #[trigger] r@[k] != self.bpe.unk,
                live_known(self.bpe, self.marks@) ==> forall|k: int| 0 <= k < r.len() ==> #[trigger] r@[k] != self.bpe.unk,
                tokens_of(self.marks@, 0) == r@ + tokens_of(self.marks@, i as int),
            decreases n - i,
        {
            let mk = self.marks[i];
            proof {
                lemma_chain_step(self.marks@, n as int, i as int);
                lemma_marks_facts(self.bpe, self.text@, self.marks@, i as int);
            }
            let ghost r0 = r@;
            r.push(mk.token);
            proof {
                assert(r@.drop_last() =~= r0);
                if forall|k: int| 0 <= k < r.len() ==> #[trigger] r@[k] != self.bpe.unk {
                    assert forall|k: int| 0 <= k < r0.len() implies #[trigger] r0[k] != self.bpe.unk by {
                        assert(r@[k] == r0[k]);
                    }
                    assert(r@[r0.len() as int] != self.bpe.unk);
                    assert(self.text@.take(i + mk.len) =~= self.text@.take(i as int) + self.text@.subrange(i as int, i + mk.len));
                }
                if all_bytes_known(self.bpe, self.text@) || live_known(self.bpe, self.marks@) {
                    assert forall|k: int| 0 <= k < r.len() implies #[trigger] r@[k] != self.bpe.unk by {
                        if k < r0.len() {
                            assert(r@[k] == r0[k]);
                        }
                    }
                }
            }
            assert(r@ + tokens_of(self.marks@, i + mk.len) =~= r0 + tokens_of(self.marks@, i as int));
            i = i + mk.len;
        }
        proof {
            assert(self.text@.take(n as int) =~= self.text@);
            assert(r@ + tokens_of(self.marks@, i as int) =~= r@);
        }
        r
    }
}

impl Bpe {
    /// Starts an encoding of `text`: each character whose bytes are a piece becomes a live
    /// token, other characters fall back to their bytes' tokens, and a candidate is queued
    /// for each pair of neighbouring character pieces whose concatenation is a piece.
    pub fn begin_merge<'v, 't>(&'v self, text: &'t str) -> (st: MergeState<'v, 't>)
        requires
            self.wf(),
        ensures
            st.wf(),
            st.bpe == self,
            st.text@ == text.spec_bytes(),
            init_marks_ok(self, text.spec_bytes(), st.marks@, text.spec_bytes().len() as int),
            queued_ok(self, text.spec_bytes(), st.marks@, st.merges@, text.spec_bytes().len() as int),
            pairs_queued(self, text.spec_bytes(), st.marks@, st.merges@, text.spec_bytes().len() as int),
            (st.marks@, st.merges@) == init_state(self, text.spec_bytes()),
    {
        self.begin_merge_bytes(text.as_bytes())
    }

    /// `begin_merge` on the bytes of a text.
    #[verifier::rlimit(100)]
    #[verifier::spinoff_prover]
    pub fn begin_merge_bytes<'v, 't>(&'v self, bytes: &'t [u8]) -> (st: MergeState<'v, 't>)
        requires
            self.wf(),
        ensures
            st.wf(),
            st.bpe == self,
            st.text@ == bytes@,
            init_marks_ok(self, bytes@, st.marks@, bytes@.len() as int),
            queued_ok(self, bytes@, st.marks@, st.merges@, bytes@.len() as int),
            pairs_queued(self, bytes@, st.marks@, st.merges@, bytes@.len() as int),
            (st.marks@, st.merges@) == init_state(self, bytes@),
            chars_known(self, bytes@, 0) ==> live_known(self, st.marks@),
    {
        let n = bytes.len();
        let unk_mark = Mark { token: self.unk, back_distance: 0, len: 0 };
        let mut marks: Vec<Mark> = vec![unk_mark; n];
        let mut merges: Vec<Merge> = Vec::new();
        let mut last: Option<usize> = None;
        let mut fb_end: usize = 0;
        let mut i: usize = 0;
        assert(marks@ =~= Seq::new(bytes@.len(), |i: int| Mark { token: self.unk, back_distance: 0, len: 0 }));
        proof {
            reveal(known_inv);
        }
        proof {
            reveal(chain_ok);
            reveal(marks_ok);
            reveal(init_marks_ok);
            reveal(queued_ok);
            reveal(pairs_queued);
        }
        while i < n
            invariant
                self.wf(),
                n == bytes@.len(),
                i <= n,
                fb_end <= n,
                i < fb_end ==> last.is_none(),
                marks.len() == n,
                forall|p: int| i <= p < n ==> #[trigger] marks@[p] == unk_mark,
                unk_mark == (Mark { token: self.unk, back_distance: 0, len: 0 }),
                chain_ok(marks@, i as int),
                marks_ok(self, bytes@, marks@),
                last matches Some(pos) ==> pos < i && marks@[pos as int].len > 0 && pos + marks@[pos as int].len == i,
                forall|k: int| 0 <= k < merges.len() ==> cand_sound(self, bytes@, #[trigger] merges@[k]),
                init_marks_ok(self, bytes@, marks@, i as int),
                queued_ok(self, bytes@, marks@, merges@, i as int),
                pairs_queued(self, bytes@, marks@, merges@, i as int),
                init_state(self, bytes@) == init_loop(self, bytes@, i as int, fb_end as int, last, marks@, merges@),
                chars_known(self, bytes@, 0) ==> known_inv(self, bytes@, marks@, i as int, fb_end as int),
            decreases n - i, if i < fb_end { 0int } else { 1int },
        {
            let ghost m0 = marks@;
            let ghost q0 = merges@;
            let ghost i0 = i as int;
            let ghost fb0 = fb_end as int;
            let ghost last0 = last;
            proof {
                reveal(chain_ok);
                reveal(marks_ok);
            }
            if i < fb_end {
                let b = bytes[i];
                let mk = Mark { token: self.bytes[b as usize], back_distance: 0, len: 1 };
                marks.set(i, mk);
                proof {
                    if chars_known(self, bytes@, 0) {
                        lemma_known_byte(self, bytes@, m0, marks@, i as int, fb_end as int);
                    }
                    lemma_init_loop_byte(self, bytes@, i0, fb0, last0, m0, q0);
                    lemma_init_byte(self, bytes@, m0, marks@, merges@, i as int);
                    assert(bytes@[i as int] == b);
                    if mk.token != self.unk {
                        assert(self.piece(mk.token as int) == seq![b]);
                        assert(bytes@.subrange(i as int, i + 1) =~= seq![b]);
                    }
                    assert forall|p: int| 0 <= p < n && #[trigger] marks@[p].len > 0 && marks@[p].token != self.unk
                        implies self.piece(marks@[p].token as int) == bytes@.subrange(p, p + marks@[p].len) by {
                        if p != i {
                            assert(marks@[p] == m0[p]);
                        }
                    }
                }
                i += 1;
            } else {
                let w = char_width(bytes[i], n - i);
                let piece = vstd::slice::slice_subrange(bytes, i, i + w);
                match self.find_piece(piece) {
                    Some(tc) => {
                        let bd: usize = match last {
                            Some(pos) => i - pos,
                            None => 0,
                        };
                        marks.set(i, Mark { token: tc, back_distance: bd, len: w });
                        proof {
                            self.lemma_lookup_sound(piece@, tc);
                            if w == 1 {
                                assert(bytes@[i as int] == piece@[0]);
                            }
                            assert forall|p: int| 0 <= p < n && #[trigger] marks@[p].len > 0 && marks@[p].token != self.unk
                                implies self.piece(marks@[p].token as int) == bytes@.subrange(p, p + marks@[p].len) by {
                                if p != i {
                                    assert(marks@[p] == m0[p]);
                                }
                            }
                        }
                        if let Some(pos) = last {
                            let t0 = marks[pos].token;
                            if let Some(c) = self.build_merge(bytes, pos, i + w, (t0, tc)) {
                                merges.push(c);
                            }
                        }
                        proof {
                            assert(piece@ == bytes@.subrange(i as int, i + w));
                            assert forall|p: int| i <= p < n implies #[trigger] m0[p].len == 0 by {
                                assert(m0[p] == unk_mark);
                            }
                            assert(marks@ == m0.update(i as int, Mark { token: tc, back_distance: bd, len: w }));
                            lemma_init_char(self, bytes@, m0, marks@, q0, merges@, i as int, w as int, tc, bd as int);
                            let q2 = match last0 {
                                Some(pos) => q0 + cand_at(self, bytes@, pos as int, i + w, (m0[pos as int].token, tc)),
                                None => q0,
                            };
                            assert(merges@ =~= q2);
                            lemma_init_loop_char(self, bytes@, i0, fb0, last0, m0, q0, w as int, tc);
                            if chars_known(self, bytes@, 0) {
                                lemma_known_char(self, bytes@, m0, marks@, i as int, fb_end as int, w as int, tc, bd);
                            }
                        }
                        last = Some(i);
                        i += w;
                    },
                    None => {
                        fb_end = i + w;
                        last = None;
                        proof {
                            assert(piece@ == bytes@.subrange(i as int, i + w));
                            lemma_init_loop_none(self, bytes@, i0, fb0, last0, m0, q0, w as int);
                            if chars_known(self, bytes@, 0) {
                                lemma_known_none(self, bytes@, marks@, i as int, fb0, w as int);
                            }
                        }
                    },
                }
            }
        }
        proof {
            lemma_init_loop_end(self, bytes@, i as int, fb_end as int, last, marks@, merges@);
            if chars_known(self, bytes@, 0) {
                reveal(known_inv);
            }
        }
        MergeState { text: bytes, bpe: self, marks, merges }
    }
}

/// `pos` is the end of `marks` or a live position of a partition.
pub open spec fn walk_ok(marks: Seq<Mark>, pos: int) -> bool {
    &&& chain_ok(marks, marks.len() as int)
    &&& 0 <= pos <= marks.len()
    &&& pos < marks.len() ==> marks[pos].len > 0
}

/// A walk over the live tokens of borrowed marks.
pub struct Iter<'a> {
    pub marks: &'a [Mark],
    pub pos: usize,
}

/// A walk over the live tokens of owned marks.
pub struct IntoIter {
    pub marks: Vec<Mark>,
    pub i: usize,
}

impl<'a> Iter<'a> {
    /// The token at the current live position, moving past its span; none at the end.
    pub fn next(&mut self) -> (r: Option<utok>)
        requires
            walk_ok(old(self).marks@, old(self).pos as int),
        ensures
            final(self).marks == old(self).marks,
            walk_ok(final(self).marks@, final(self).pos as int),
            old(self).pos == old(self).marks.len() ==> r.is_none() && final(self).pos == old(self).pos,
            old(self).pos < old(self).marks.len() ==> r == Some(old(self).marks@[old(self).pos as int].token)
                && final(self).pos == old(self).pos + old(self).marks@[old(self).pos as int].len,
    {
        if self.pos >= self.marks.len() {
            return None;
        }
        let m = self.marks[self.pos];
        proof {
            lemma_chain_step(self.marks@, self.marks.len() as int, self.pos as int);
        }
        self.pos = self.pos + m.len;
        Some(m.token)
    }
}

impl IntoIter {
    /// The token at the current live position, moving past its span; none at the end.
    pub fn next(&mut self) -> (r: Option<utok>)
        requires
            walk_ok(old(self).marks@, old(self).i as int),
        ensures
            final(self).marks@ == old(self).marks@,
            walk_ok(final(self).marks@, final(self).i as int),
            old(self).i == old(self).marks.len() ==> r.is_none() && final(self).i == old(self).i,
            old(self).i < old(self).marks.len() ==> r == Some(old(self).marks@[old(self).i as int].token)
                && final(self).i == old(self).i + old(self).marks@[old(self).i as int].len,
    {
        if self.i >= self.marks.len() {
            return None;
        }
        let m = self.marks[self.i];
        proof {
            lemma_chain_step(self.marks@, self.marks.len() as int, self.i as int);
        }
        self.i = self.i + m.len;
        Some(m.token)
    }
}

impl<'v, 't> MergeState<'v, 't> {
    /// A walk over the live tokens, from the start.
    pub fn iter(&self) -> (r: Iter<'_>)
        requires
            self.wf(),
        ensures
            r.marks@ == self.marks@,
            r.pos == 0,
            walk_ok(r.marks@, 0),
    {
        proof {
            reveal(chain_ok);
        }
        Iter { marks: self.marks.as_slice(), pos: 0 }
    }

    /// A walk over the live tokens that takes the marks along.
    pub fn into_iter(self) -> (r: IntoIter)
        requires
            self.wf(),
        ensures
            r.marks@ == self.marks@,
            r.i == 0,
            walk_ok(r.marks@, 0),
    {
        proof {
            reveal(chain_ok);
        }
        IntoIter { marks: self.marks, i: 0 }
    }
}

impl Bpe {
    /// Encodes the bytes of a text: starts the merge and applies merges until none is valid.
    #[verifier::spinoff_prover]
    pub fn encode_bytes(&self, text: &[u8]) -> (r: Vec<utok>)
        requires
            self.wf(),
        ensures
            forall|k: int| 0 <= k < r.len() ==> #[trigger] r@[k] < self.tokens.len(),
            (forall|k: int| 0 <= k < r.len() ==> #[trigger] r@[k] != self.unk) ==> self.decoded(r@) == text@,
            all_bytes_known(self, text@) ==> forall|k: int| 0 <= k < r.len() ==> #[trigger] r@[k] != self.unk,
            r.len() <= text.len(),
            r.len() == 0 <==> text.len() == 0,
            r@ == bpe_encoding(self, text@),
            chars_known(self, text@, 0) ==> forall|k: int| 0 <= k < r.len() ==> #[trigger] r@[k] != self.unk,
            chars_known(self, text@, 0) ==> self.decoded(r@) == text@,
    {
        let mut st = self.begin_merge_bytes(text);
        let ghost big: nat = (text@.len() + 1) as nat;
        let ghost res = run_merges(self, text@, st.marks@, st.merges@, big);
        let ghost c0 = count_live(st.marks@);
        let ghost mut it: nat = 0;
        proof {
            lemma_count_bound(st.marks@);
        }
        let mut go = true;
        while go
            invariant
                st.wf(),
                st.bpe == self,
                st.text@ == text@,
                c0 <= text@.len(),
                big == (text@.len() + 1) as nat,
                it + count_live(st.marks@) <= c0,
                go ==> it < big && run_merges(self, text@, st.marks@, st.merges@, (big - it) as nat) == res,
                chars_known(self, text@, 0) ==> live_known(self, st.marks@),
                !go ==> st.marks@ == res,
            decreases count_live(st.marks@) + if go { 1int } else { 0int },
        {
            let ghost m0 = st.marks@;
            let ghost q0 = st.merges@;
            proof {
                lemma_run_step(self, text@, m0, q0, (big - it) as nat);
            }
            go = st.merge();
            proof {
                let ghost f = (big - it) as nat;
                assert(merge_step(self, text@, m0, q0) == (go, st.marks@, st.merges@));
                if go {
                    assert(run_merges(self, text@, m0, q0, f) == run_merges(self, text@, st.marks@, st.merges@, (f - 1) as nat));
                    assert(count_live(st.marks@) + 1 == count_live(m0));
                    it = it + 1;
                    assert(it + count_live(st.marks@) <= c0);
                    assert(it < big);
                    assert((f - 1) as nat == (big - it) as nat);
                    assert(run_merges(self, text@, st.marks@, st.merges@, (big - it) as nat) == res);
                } else {
                    assert(run_merges(self, text@, m0, q0, f) == st.marks@);
                }
            }
        }
        st.tokens()
    }

    /// Encodes a text into token ids. Decoding them gives the text back when none is `unk`,
    /// and none is `unk` when every byte of the text has a byte token.
    pub fn encode(&self, text: &str) -> (r: Vec<utok>)
        requires
            self.wf(),
        ensures
            forall|k: int| 0 <= k < r.len() ==> #[trigger] r@[k] < self.tokens.len(),
            (forall|k: int| 0 <= k < r.len() ==> #[trigger] r@[k] != self.unk) ==> self.decoded(r@) == text.spec_bytes(),
            all_bytes_known(self, text.spec_bytes()) ==> forall|k: int| 0 <= k < r.len() ==> #[trigger] r@[k] != self.unk,
            r.len() <= text.spec_bytes().len(),
            r.len() == 0 <==> text.spec_bytes().len() == 0,
            r@ == bpe_encoding(self, text.spec_bytes()),
            chars_known(self, text.spec_bytes(), 0) ==> self.decoded(r@) == text.spec_bytes(),
    {
        self.encode_bytes(text.as_bytes())
    }
}

impl Bpe {
    /// The unknown token.
    pub fn unk_token(&self) -> (r: utok)
        ensures
            r == self.unk,
    {
        self.unk
    }

    /// The number of tokens.
    pub fn vocab_size(&self) -> (r: usize)
        ensures
            r == self.tokens.len(),
    {
        self.tokens.len()
    }

    /// The piece of a token.
    pub fn decode(&self, token: utok) -> (r: &[u8])
        requires
            self.wf(),
            token < self.tokens.len(),
        ensures
            r@ == self.piece(token as int),
    {
        self.token(token)
    }

    /// The first `k` indexed tokens, in index order, whose own piece does not encode to one
    /// token, each with its piece.
    pub open spec fn inaccessible_spec(&self, k: int) -> Seq<(Seq<u8>, utok)>
        decreases k,
    {
        if k <= 0 {
            Seq::empty()
        } else {
            let t = self.sorted_pieces@[k - 1];
            self.inaccessible_spec(k - 1) + if bpe_encoding(self, self.piece(t as int)).len() > 1 {
                seq![(self.piece(t as int), t)]
            } else {
                Seq::empty()
            }
        }
    }

    /// The indexed tokens, in index order, whose own piece does not encode to one token.
    pub fn inaccessible(&self) -> (r: Vec<(Vec<u8>, utok)>)
        requires
            self.wf(),
        ensures
            forall|k: int| 0 <= k < r.len() ==> {
                let (p, t) = #[trigger] r@[k];
                &&& self.in_index(t)
                &&& p@ == self.piece(t as int)
                &&& bpe_encoding(self, self.piece(t as int)).len() > 1
            },
            forall|j: int| 0 <= j < self.sorted_pieces.len()
                && bpe_encoding(self, self.piece(#[trigger] self.sorted_pieces@[j] as int)).len() > 1
                ==> exists|k: int| 0 <= k < r.len() && r@[k].1 == self.sorted_pieces@[j],
            Seq::new(r@.len(), |i: int| (r@[i].0@, r@[i].1)) == self.inaccessible_spec(self.sorted_pieces.len() as int),
    {
        let mut r: Vec<(Vec<u8>, utok)> = Vec::new();
        let mut k: usize = 0;
        while k < self.sorted_pieces.len()
            invariant
                self.wf(),
                k <= self.sorted_pieces.len(),
                forall|j: int| 0 <= j < r.len() ==> {
                    let (p, t) = #[trigger] r@[j];
                    &&& self.in_index(t)
                    &&& p@ == self.piece(t as int)
                    &&& bpe_encoding(self, self.piece(t as int)).len() > 1
                },
                forall|j: int| 0 <= j < k
                    && bpe_encoding(self, self.piece(#[trigger] self.sorted_pieces@[j] as int)).len() > 1
                    ==> exists|x: int| 0 <= x < r.len() && r@[x].1 == self.sorted_pieces@[j],
                Seq::new(r@.len(), |i: int| (r@[i].0@, r@[i].1)) == self.inaccessible_spec(k as int),
            decreases self.sorted_pieces.len() - k,
        {
            let t = self.sorted_pieces[k];
            let p = self.token(t);
            let toks = self.encode_bytes(p);
            let ghost r0 = r@;
            if toks.len() > 1 {
                assert(self.sorted_pieces@[k as int] == t);
                r.push((vstd::slice::slice_to_vec(p), t));
            }
            assert(Seq::new(r@.len(), |i: int| (r@[i].0@, r@[i].1)) =~= self.inaccessible_spec(k + 1)) by {
                assert(Seq::new(r0.len(), |i: int| (r0[i].0@, r0[i].1)) == self.inaccessible_spec(k as int));
                if toks.len() > 1 {
                    assert forall|x: int| 0 <= x < r0.len() implies r@[x] == r0[x] by {}
                }
            }
            assert forall|j: int| 0 <= j < k + 1
                && bpe_encoding(self, self.piece(#[trigger] self.sorted_pieces@[j] as int)).len() > 1
                implies exists|x: int| 0 <= x < r.len() && r@[x].1 == self.sorted_pieces@[j] by {
                if j < k {
                    let x = choose|x: int| 0 <= x < r0.len() && r0[x].1 == self.sorted_pieces@[j];
                    assert(r@[x] == r0[x]);
                } else {
                    assert(r@[r0.len() as int].1 == t);
                }
            }
            k += 1;
        }
        r
    }
}

impl crate::Method for Bpe {
    open spec fn method_wf(&self) -> bool {
        self.wf()
    }

    open spec fn vocab_len(&self) -> nat {
        self.tokens.len() as nat
    }

    open spec fn piece_of(&self, t: utok) -> Seq<u8> {
        self.piece(t as int)
    }

    open spec fn unk_id(&self) -> utok {
        self.unk
    }

    open spec fn decoded_by(&self, toks: Seq<utok>) -> Seq<u8> {
        self.decoded(toks)
    }

    proof fn lemma_decoded_by(&self, toks: Seq<utok>) {
    }

    open spec fn encoding(&self, text: Seq<u8>) -> Seq<utok> {
        bpe_encoding(self, text)
    }

    open spec fn specials(&self) -> Seq<(Seq<u8>, utok)> {
        self.inaccessible_spec(self.sorted_pieces.len() as int)
    }

    open spec fn encodes(&self, text: Seq<u8>, r: Seq<utok>) -> bool {
        &&& r == bpe_encoding(self, text)
        &&& (forall|k: int| 0 <= k < r.len() ==> #[trigger] r[k] != self.unk) ==> self.decoded(r) == text
        &&& all_bytes_known(self, text) ==> forall|k: int| 0 <= k < r.len() ==> #[trigger] r[k] != self.unk
        &&& r.len() <= text.len()
        &&& r.len() == 0 <==> text.len() == 0
    }

    fn unk_token(&self) -> (r: utok) {
        self.unk
    }

    fn vocab_size(&self) -> (r: usize) {
        self.tokens.len()
    }

    fn internal_special(&self) -> (r: Vec<(Vec<u8>, utok)>) {
        let r = self.inaccessible();
        assert(self.specials() == self.inaccessible_spec(self.sorted_pieces.len() as int));
        assert forall|k: int| 0 <= k < r.len() implies #[trigger] r@[k].1 < self.tokens.len() by {
            let t = r@[k].1;
            assert(self.in_index(t));
            let j = choose|j: int| 0 <= j < self.sorted_pieces.len() && self.sorted_pieces@[j] == t;
        }
        r
    }

    fn encode(&self, text: &str) -> (r: Vec<utok>) {
        Bpe::encode(self, text)
    }

    fn encode_bytes(&self, text: &[u8]) -> (r: Vec<utok>) {
        Bpe::encode_bytes(self, text)
    }

    fn decode(&self, token: utok) -> (r: &[u8]) {
        self.token(token)
    }
}

} // verus!

//! The shell around a tokenization method: special literals are found first, and the
//! method encodes the text between them.
use crate::lex::compare_bytes;
use crate::utok;
use crate::Method;
use crate::special::{compile, find_matches, leftmost_first, regex_compiles, SpecialRegex};
use vstd::prelude::*;
use vstd::string::StringSliceAdditionalSpecFns;
use vstd::utf8::{decode_utf8, encode_utf8, valid_utf8};

verus! {

/// Relies on String::from_utf8: the string when the bytes are valid UTF-8.
#[verifier::external_body]
fn string_from_utf8(v: Vec<u8>) -> (r: Option<String>)
    ensures
        r.is_some() <==> valid_utf8(v@),
        r matches Some(s) ==> s@ == decode_utf8(v@),
{
    String::from_utf8(v).ok()
}

/// A byte that a regular expression takes as an operator.
pub open spec fn is_meta(b: u8) -> bool {
    b == 0x2A || b == 0x2E || b == 0x3F || b == 0x2B || b == 0x5E || b == 0x24 || b == 0x7C
        || b == 0x2F || b == 0x5C || b == 0x28 || b == 0x29 || b == 0x5B || b == 0x5D
        || b == 0x7B || b == 0x7D
}

/// A literal with each operator byte preceded by a backslash.
pub open spec fn escaped(k: Seq<u8>) -> Seq<u8>
    decreases k.len(),
{
    if k.len() == 0 {
        Seq::empty()
    } else {
        escaped(k.drop_last()) + if is_meta(k.last()) { seq![0x5Cu8, k.last()] } else { seq![k.last()] }
    }
}

/// The alternation of the escaped literals, separated by `|`.
pub open spec fn pattern_of(keys: Seq<Seq<u8>>) -> Seq<u8>
    decreases keys.len(),
{
    if keys.len() == 0 {
        Seq::empty()
    } else if keys.len() == 1 {
        escaped(keys[0])
    } else {
        pattern_of(keys.drop_last()) + seq![0x7Cu8] + escaped(keys.last())
    }
}

/// The concatenated texts of the segments.
pub open spec fn seg_text(segs: Seq<(Seq<u8>, Seq<utok>)>) -> Seq<u8>
    decreases segs.len(),
{
    if segs.len() == 0 {
        Seq::empty()
    } else {
        seg_text(segs.drop_last()) + segs.last().0
    }
}

/// The concatenated tokens of the segments.
pub open spec fn seg_tokens(segs: Seq<(Seq<u8>, Seq<utok>)>) -> Seq<utok>
    decreases segs.len(),
{
    if segs.len() == 0 {
        Seq::empty()
    } else {
        seg_tokens(segs.drop_last()) + segs.last().1
    }
}

/// The special table as values.
pub open spec fn sp_view(s: Seq<(Vec<u8>, Vec<utok>)>) -> Seq<(Seq<u8>, Seq<utok>)> {
    Seq::new(s.len(), |i: int| (s[i].0@, s[i].1@))
}

pub open spec fn sp_keys(sp: Seq<(Seq<u8>, Seq<utok>)>) -> Seq<Seq<u8>> {
    Seq::new(sp.len(), |i: int| sp[i].0)
}

/// No literal occurs twice.
pub open spec fn sp_distinct(sp: Seq<(Seq<u8>, Seq<utok>)>) -> bool {
    forall|i: int, j: int| 0 <= i < j < sp.len() ==> sp[i].0 != sp[j].0
}

/// Where literal `k` stands in the table.
pub open spec fn find_key(sp: Seq<(Seq<u8>, Seq<utok>)>, k: Seq<u8>) -> Option<int> {
    if exists|j: int| 0 <= j < sp.len() && sp[j].0 == k {
        Some(choose|j: int| 0 <= j < sp.len() && sp[j].0 == k)
    } else {
        None
    }
}

/// The table made from a method's internal special pieces: each becomes a one-token
/// literal, in order of first appearance, and a piece given again keeps its last token.
pub open spec fn special_from(inner: Seq<(Seq<u8>, utok)>) -> Seq<(Seq<u8>, Seq<utok>)>
    decreases inner.len(),
{
    if inner.len() == 0 {
        Seq::empty()
    } else {
        let prev = special_from(inner.drop_last());
        let (k, v) = inner.last();
        match find_key(prev, k) {
            Some(j) => prev.update(j, (k, seq![v])),
            None => prev.push((k, seq![v])),
        }
    }
}

/// The table after adding `pats` in order: a new literal is appended, a known one must
/// come with the same tokens; none on a conflict.
pub open spec fn extended(sp: Seq<(Seq<u8>, Seq<utok>)>, pats: Seq<(Seq<u8>, Seq<utok>)>) -> Option<Seq<(Seq<u8>, Seq<utok>)>>
    decreases pats.len(),
{
    if pats.len() == 0 {
        Some(sp)
    } else {
        match extended(sp, pats.drop_last()) {
            None => None,
            Some(prev) => {
                let (k, v) = pats.last();
                match find_key(prev, k) {
                    Some(j) => if prev[j].1 == v { Some(prev) } else { None },
                    None => Some(prev.push((k, v))),
                }
            },
        }
    }
}

/// A table can have its pattern: it is empty, or the alternation of its literals compiles.
pub open spec fn compiles_for(sp: Seq<(Seq<u8>, Seq<utok>)>) -> bool {
    sp.len() == 0 || regex_compiles(pattern_of(sp_keys(sp)))
}

proof fn lemma_extended_none(sp: Seq<(Seq<u8>, Seq<utok>)>, pats: Seq<(Seq<u8>, Seq<utok>)>, i: int)
    requires
        0 <= i <= pats.len(),
        extended(sp, pats.take(i)) is None,
    ensures
        extended(sp, pats) is None,
    decreases pats.len() - i,
{
    if i < pats.len() {
        assert(pats.take(i + 1).drop_last() =~= pats.take(i));
        lemma_extended_none(sp, pats, i + 1);
    } else {
        assert(pats.take(i) =~= pats);
    }
}

/// Where the text after the first `k` matches starts.
pub open spec fn seg_end(ms: Seq<(usize, usize)>, k: int) -> int {
    if k <= 0 || k > ms.len() { 0 } else { ms[k - 1].1 as int }
}

/// Errors of the shell.
#[derive(Debug, Clone, Copy, PartialEq, Eq)]
pub enum TokeneerError {
    /// A special literal is given again with another token sequence.
    SpecialConflict,
    /// The alternation of the special literals does not compile.
    InvalidRegex,
    /// The decoded bytes are not UTF-8.
    InvalidUtf8OnDecode,
}

fn is_meta_byte(b: u8) -> (r: bool)
    ensures
        r == is_meta(b),
{
    b == 0x2A || b == 0x2E || b == 0x3F || b == 0x2B || b == 0x5E || b == 0x24 || b == 0x7C
        || b == 0x2F || b == 0x5C || b == 0x28 || b == 0x29 || b == 0x5B || b == 0x5D
        || b == 0x7B || b == 0x7D
}

/// The pattern that matches any of the special literals.
pub fn build_pattern(special: &Vec<(Vec<u8>, Vec<utok>)>) -> (r: Vec<u8>)
    ensures
        r@ == pattern_of(Seq::new(special@.len(), |i: int| special@[i].0@)),
{
    let ghost keys = Seq::new(special@.len(), |i: int| special@[i].0@);
    let mut r: Vec<u8> = Vec::new();
    let mut i: usize = 0;
    while i < special.len()
        invariant
            i <= special.len(),
            keys == Seq::new(special@.len(), |i: int| special@[i].0@),
            r@ == pattern_of(keys.take(i as int)),
        decreases special.len() - i,
    {
        let ghost r0 = r@;
        if i > 0 {
            r.push(0x7C);
        }
        let k = &special[i].0;
        let ghost r1 = r@;
        let mut j: usize = 0;
        while j < k.len()
            invariant
                j <= k.len(),
                r@ == r1 + escaped(k@.take(j as int)),
            decreases k.len() - j,
        {
            assert(k@.take(j + 1).drop_last() =~= k@.take(j as int));
            if is_meta_byte(k[j]) {
                r.push(0x5C);
            }
            r.push(k[j]);
            j += 1;
            assert(r@ =~= r1 + escaped(k@.take(j as int)));
        }
        assert(k@.take(j as int) =~= k@);
        assert(keys.take(i + 1).drop_last() =~= keys.take(i as int));
        assert(keys.take(i + 1)[0] == keys[0]);
        assert(keys.take(i + 1).last() == keys[i as int]);
        if i == 0 {
            assert(r1 =~= Seq::<u8>::empty());
            assert(r@ =~= escaped(keys[0]));
        }
        i += 1;
    }
    assert(keys.take(i as int) =~= keys);
    r
}

/// A tokenization method with special literals in front of it.
pub struct Tokeneer<M> {
    pub method: M,
    /// Each special literal and the tokens it stands for; the literals are distinct.
    pub special: Vec<(Vec<u8>, Vec<utok>)>,
    /// The alternation of the literals; none when there are no literals.
    pub special_regex: Option<SpecialRegex>,
}

/// Two token sequences are equal.
fn same_tokens(a: &Vec<utok>, b: &Vec<utok>) -> (r: bool)
    ensures
        r == (a@ == b@),
{
    if a.len() != b.len() {
        return false;
    }
    let mut i: usize = 0;
    while i < a.len()
        invariant
            i <= a.len() == b.len(),
            forall|j: int| 0 <= j < i ==> a@[j] == b@[j],
        decreases a.len() - i,
    {
        if a[i] != b[i] {
            return false;
        }
        i += 1;
    }
    assert(a@ =~= b@);
    true
}

fn push_all(dst: &mut Vec<utok>, src: &Vec<utok>)
    ensures
        final(dst)@ == old(dst)@ + src@,
{
    let mut i: usize = 0;
    while i < src.len()
        invariant
            i <= src.len(),
            dst@ == old(dst)@ + src@.take(i as int),
        decreases src.len() - i,
    {
        dst.push(src[i]);
        i += 1;
        assert(dst@ =~= old(dst)@ + src@.take(i as int));
    }
    assert(src@.take(i as int) =~= src@);
}

impl<M: Method> Tokeneer<M> {
    pub open spec fn keys_distinct(&self) -> bool {
        forall|i: int, j: int| 0 <= i < j < self.special.len() ==> self.special@[i].0@ != self.special@[j].0@
    }

    pub open spec fn wf(&self) -> bool {
        &&& self.method.method_wf()
        &&& self.keys_distinct()
        &&& (self.special.len() > 0 <==> self.special_regex.is_some())
        &&& (self.special_regex matches Some(sr) ==> sr.keys() == sp_keys(sp_view(self.special@)))
    }

    /// `t` is a token of the method or one that a special literal stands for.
    pub open spec fn token_ok(&self, t: utok) -> bool {
        t < self.method.vocab_len()
            || exists|i: int, j: int| 0 <= i < self.special.len() && 0 <= j < self.special@[i].1.len()
                && self.special@[i].1@[j] == t
    }

    /// The concatenated pieces of `toks`.
    pub open spec fn decoded(&self, toks: Seq<utok>) -> Seq<u8>
        decreases toks.len(),
    {
        if toks.len() == 0 {
            Seq::empty()
        } else {
            self.decoded(toks.drop_last()) + self.method.piece_of(toks.last())
        }
    }

    proof fn lemma_push_segment(&self, segs: Seq<(Seq<u8>, Seq<utok>)>, seg: (Seq<u8>, Seq<utok>), text: Seq<u8>, a: int, b: int)
        requires
            0 <= a <= b <= text.len(),
            seg_text(segs) == text.take(a),
            seg.0 == text.subrange(a, b),
            forall|i: int| 0 <= i < segs.len() ==> self.segment_ok(#[trigger] segs[i]),
            self.segment_ok(seg),
        ensures
            seg_text(segs.push(seg)) == text.take(b),
            seg_tokens(segs.push(seg)) == seg_tokens(segs) + seg.1,
            forall|i: int| 0 <= i < segs.len() + 1 ==> self.segment_ok(#[trigger] segs.push(seg)[i]),
    {
        assert(segs.push(seg).drop_last() =~= segs);
        assert(text.take(b) =~= text.take(a) + text.subrange(a, b));
        assert forall|i: int| 0 <= i < segs.len() + 1 implies self.segment_ok(#[trigger] segs.push(seg)[i]) by {
            if i < segs.len() {
                assert(segs.push(seg)[i] == segs[i]);
            }
        }
    }

    /// The position of the literal `k` among the special ones.
    fn find_special(&self, k: &[u8]) -> (r: Option<usize>)
        ensures
            match r {
                Some(i) => i < self.special.len() && self.special@[i as int].0@ == k@,
                None => forall|i: int| 0 <= i < self.special.len() ==> self.special@[i].0@ != k@,
            },
    {
        let mut i: usize = 0;
        while i < self.special.len()
            invariant
                i <= self.special.len(),
                forall|j: int| 0 <= j < i ==> self.special@[j].0@ != k@,
            decreases self.special.len() - i,
        {
            if compare_bytes(self.special[i].0.as_slice(), k) == 0 {
                return Some(i);
            }
            i += 1;
        }
        None
    }

    fn compile_special(special: &Vec<(Vec<u8>, Vec<utok>)>) -> (r: Result<Option<SpecialRegex>, TokeneerError>)
        ensures
            r is Ok <==> compiles_for(sp_view(special@)),
            r matches Ok(re) ==> (special.len() > 0 <==> re.is_some()),
            r matches Ok(re) ==> (re matches Some(sr) ==> sr.keys() == sp_keys(sp_view(special@))),
            r matches Err(e) ==> e == TokeneerError::InvalidRegex,
    {
        if special.len() == 0 {
            return Ok(None);
        }
        let pattern = build_pattern(special);
        let mut keys: Vec<Vec<u8>> = Vec::new();
        let mut i: usize = 0;
        while i < special.len()
            invariant
                i <= special.len(),
                keys.len() == i,
                forall|j: int| 0 <= j < i ==> #[trigger] keys@[j]@ == special@[j].0@,
            decreases special.len() - i,
        {
            keys.push(vstd::slice::slice_to_vec(special[i].0.as_slice()));
            i += 1;
        }
        assert(Seq::new(special@.len(), |i: int| special@[i].0@) =~= sp_keys(sp_view(special@)));
        assert(Seq::new(keys@.len(), |i: int| keys@[i]@) =~= sp_keys(sp_view(special@)));
        match compile(pattern.as_slice(), keys) {
            Some(re) => Ok(Some(re)),
            None => Err(TokeneerError::InvalidRegex),
        }
    }

    /// Wraps a method; the pieces it reports as internally special become special literals
    /// (a piece reported twice keeps its last token), as `with_special` states for the
    /// pieces that `internal_special` returned.
    pub fn new(method: M) -> (r: Result<Self, TokeneerError>)
        requires
            method.method_wf(),
        ensures
            r is Ok <==> compiles_for(special_from(method.specials())),
            r matches Ok(t) ==> t.wf() && t.method == method && sp_view(t.special@) == special_from(method.specials()),
            r matches Err(e) ==> e == TokeneerError::InvalidRegex,
    {
        let inner = method.internal_special();
        assert(Seq::new(inner@.len(), |i: int| (inner@[i].0@, inner@[i].1)) == method.specials());
        Self::with_special(method, &inner)
    }

    /// Wraps a method with the given internal special pieces as one-token literals.
    pub fn with_special(method: M, inner: &Vec<(Vec<u8>, utok)>) -> (r: Result<Self, TokeneerError>)
        requires
            method.method_wf(),
        ensures
            ({
                let sp = special_from(Seq::new(inner@.len(), |i: int| (inner@[i].0@, inner@[i].1)));
                &&& (r is Ok <==> compiles_for(sp))
                &&& (r matches Ok(t) ==> t.wf() && t.method == method && sp_view(t.special@) == sp)
                &&& (r matches Err(e) ==> e == TokeneerError::InvalidRegex)
            }),
    {
        let ghost iv = Seq::new(inner@.len(), |i: int| (inner@[i].0@, inner@[i].1));
        let mut t = Tokeneer { method, special: Vec::new(), special_regex: None };
        let mut i: usize = 0;
        assert(sp_view(t.special@) =~= special_from(iv.take(0)));
        while i < inner.len()
            invariant
                i <= inner.len(),
                iv == Seq::new(inner@.len(), |i: int| (inner@[i].0@, inner@[i].1)),
                t.method == method,
                t.method.method_wf(),
                t.keys_distinct(),
                sp_view(t.special@) == special_from(iv.take(i as int)),
            decreases inner.len() - i,
        {
            let (k, v) = (&inner[i].0, inner[i].1);
            let ghost prev = sp_view(t.special@);
            assert(iv.take(i + 1).drop_last() =~= iv.take(i as int));
            assert(iv.take(i + 1).last() == (k@, v));
            match t.find_special(k.as_slice()) {
                Some(j) => {
                    let ghost s0 = t.special@;
                    proof {
                        assert(prev[j as int].0 == k@);
                        let c = choose|c: int| 0 <= c < prev.len() && prev[c].0 == k@;
                        if c != j {
                            if c < j {
                                assert(s0[c].0@ != s0[j as int].0@);
                            } else {
                                assert(s0[j as int].0@ != s0[c].0@);
                            }
                        }
                    }
                    let kc = vstd::slice::slice_to_vec(k.as_slice());
                    let mut one: Vec<utok> = Vec::new();
                    one.push(v);
                    assert(one@ =~= seq![v]);
                    t.special.set(j, (kc, one));
                    assert(sp_view(t.special@) =~= prev.update(j as int, (k@, seq![v])));
                    assert forall|a: int, b: int| 0 <= a < b < t.special.len() implies t.special@[a].0@ != t.special@[b].0@ by {
                        assert(t.special@[a].0@ == s0[a].0@);
                        assert(t.special@[b].0@ == s0[b].0@);
                    }
                },
                None => {
                    let ghost s0 = t.special@;
                    let kc = vstd::slice::slice_to_vec(k.as_slice());
                    let mut one: Vec<utok> = Vec::new();
                    one.push(v);
                    assert(one@ =~= seq![v]);
                    t.special.push((kc, one));
                    proof {
                        if exists|c: int| 0 <= c < prev.len() && prev[c].0 == k@ {
                            let c = choose|c: int| 0 <= c < prev.len() && prev[c].0 == k@;
                            assert(s0[c].0@ != k@);
                        }
                    }
                    assert(sp_view(t.special@) =~= prev.push((k@, seq![v])));
                    assert forall|a: int, b: int| 0 <= a < b < t.special.len() implies t.special@[a].0@ != t.special@[b].0@ by {
                        if b < s0.len() {
                            assert(t.special@[a] == s0[a]);
                            assert(t.special@[b] == s0[b]);
                        } else {
                            assert(t.special@[a] == s0[a]);
                        }
                    }
                },
            }
            i += 1;
        }
        assert(iv.take(i as int) =~= iv);
        match Self::compile_special(&t.special) {
            Ok(re) => {
                t.special_regex = re;
                Ok(t)
            },
            Err(e) => Err(e),
        }
    }

    /// The tokens of a matched literal: its special tokens (the method's encoding if it is
    /// not special).
    pub open spec fn lit_tokens(&self, lit: Seq<u8>) -> Seq<utok> {
        match find_key(sp_view(self.special@), lit) {
            Some(j) => sp_view(self.special@)[j].1,
            None => self.method.encoding(lit),
        }
    }

    /// The tokens up to the end of the `k`-th match: for each match, the method's encoding
    /// of the text before it, then the match's tokens.
    pub open spec fn shell_prefix(&self, text: Seq<u8>, ms: Seq<(usize, usize)>, k: int) -> Seq<utok>
        decreases k,
    {
        if k <= 0 || k > ms.len() {
            Seq::empty()
        } else {
            self.shell_prefix(text, ms, k - 1)
                + self.method.encoding(text.subrange(seg_end(ms, k - 1), ms[k - 1].0 as int))
                + self.lit_tokens(text.subrange(ms[k - 1].0 as int, ms[k - 1].1 as int))
        }
    }

    /// No special literal is empty.
    pub open spec fn keys_nonempty(&self) -> bool {
        forall|i: int| 0 <= i < self.special.len() ==> #[trigger] self.special@[i].0@.len() > 0
    }

    /// The shell's encoding: with no special literal, the method's; else the text is cut at
    /// the leftmost-first, non-overlapping occurrences of the literals, each replaced by its
    /// tokens, and the method encodes the text between them.
    pub open spec fn shell_result(&self, text: Seq<u8>) -> Seq<utok> {
        if self.special.len() == 0 {
            self.method.encoding(text)
        } else {
            let ms = leftmost_first(sp_keys(sp_view(self.special@)), text, 0);
            self.shell_prefix(text, ms, ms.len() as int)
                + self.method.encoding(text.subrange(seg_end(ms, ms.len() as int), text.len() as int))
        }
    }

    /// A segment: the method's encoding of its text, or a special literal and its tokens.
    pub open spec fn segment_ok(&self, seg: (Seq<u8>, Seq<utok>)) -> bool {
        (self.method.encodes(seg.0, seg.1)
            && ((forall|k: int| 0 <= k < seg.1.len() ==> #[trigger] seg.1[k] != self.method.unk_id())
                ==> self.method.decoded_by(seg.1) == seg.0))
            || Self::maps(self.special@, seg.0, seg.1)
    }

    proof fn lemma_decoded_same(&self, toks: Seq<utok>)
        ensures
            self.decoded(toks) == self.method.decoded_by(toks),
        decreases toks.len(),
    {
        self.method.lemma_decoded_by(toks);
        if toks.len() > 0 {
            self.lemma_decoded_same(toks.drop_last());
        }
    }

    proof fn lemma_decoded_concat(&self, a: Seq<utok>, b: Seq<utok>)
        ensures
            self.decoded(a + b) == self.decoded(a) + self.decoded(b),
        decreases b.len(),
    {
        if b.len() == 0 {
            assert(a + b =~= a);
            assert(self.decoded(a) + Seq::<u8>::empty() =~= self.decoded(a));
        } else {
            assert((a + b).drop_last() =~= a + b.drop_last());
            assert((a + b).last() == b.last());
            self.lemma_decoded_concat(a, b.drop_last());
            assert(self.decoded(a) + self.decoded(b.drop_last()) + self.method.piece_of(b.last())
                =~= self.decoded(a) + (self.decoded(b.drop_last()) + self.method.piece_of(b.last())));
        }
    }

    proof fn lemma_segments_round_trip(&self, segs: Seq<(Seq<u8>, Seq<utok>)>)
        requires
            forall|i: int| 0 <= i < segs.len() ==> self.segment_ok(#[trigger] segs[i]),
            forall|k: int| 0 <= k < seg_tokens(segs).len() ==> #[trigger] seg_tokens(segs)[k] != self.method.unk_id(),
            forall|j: int| 0 <= j < self.special.len() ==> self.decoded(#[trigger] self.special@[j].1@) == self.special@[j].0@,
        ensures
            self.decoded(seg_tokens(segs)) == seg_text(segs),
        decreases segs.len(),
    {
        if segs.len() > 0 {
            let init = segs.drop_last();
            let last = segs.last();
            assert forall|i: int| 0 <= i < init.len() implies self.segment_ok(#[trigger] init[i]) by {
                assert(init[i] == segs[i]);
            }
            assert forall|k: int| 0 <= k < last.1.len() implies #[trigger] last.1[k] != self.method.unk_id() by {
                assert(seg_tokens(segs)[seg_tokens(init).len() + k] == last.1[k]);
            }
            assert forall|k: int| 0 <= k < seg_tokens(init).len() implies #[trigger] seg_tokens(init)[k] != self.method.unk_id() by {
                assert(seg_tokens(segs)[k] == seg_tokens(init)[k]);
            }
            self.lemma_segments_round_trip(init);
            self.lemma_decoded_concat(seg_tokens(init), last.1);
            assert(segs[segs.len() - 1] == last);
            if Self::maps(self.special@, last.0, last.1) {
                let j = choose|j: int| 0 <= j < self.special.len() && self.special@[j].0@ == last.0 && self.special@[j].1@ == last.1;
                assert(self.decoded(self.special@[j].1@) == self.special@[j].0@);
            } else {
                self.lemma_decoded_same(last.1);
            }
        }
    }

    /// Round trip of the shell on a string: when no token of the encoding of `text` is `unk`
    /// and every special literal's tokens decode to the literal, the decoded bytes are UTF-8
    /// and `decode` gives `text` back.
    pub proof fn lemma_shell_string_round_trip(&self, text: &str, r: Seq<utok>)
        requires
            self.shell_encodes(text.spec_bytes(), r),
            forall|k: int| 0 <= k < r.len() ==> #[trigger] r[k] != self.method.unk_id(),
            forall|j: int| 0 <= j < self.special.len() ==> self.decoded(#[trigger] self.special@[j].1@) == self.special@[j].0@,
        ensures
            valid_utf8(self.decoded(r)),
            decode_utf8(self.decoded(r)) == text@,
    {
        self.lemma_shell_round_trip(text.spec_bytes(), r);
        vstd::utf8::encode_utf8_valid_utf8(text@);
        vstd::utf8::encode_utf8_decode_utf8(text@);
    }

    /// Round trip of the shell: when no token of an encoding is `unk` and every special
    /// literal's tokens decode to the literal, decoding the encoding gives the text back.
    pub proof fn lemma_shell_round_trip(&self, text: Seq<u8>, r: Seq<utok>)
        requires
            self.shell_encodes(text, r),
            forall|k: int| 0 <= k < r.len() ==> #[trigger] r[k] != self.method.unk_id(),
            forall|j: int| 0 <= j < self.special.len() ==> self.decoded(#[trigger] self.special@[j].1@) == self.special@[j].0@,
        ensures
            self.decoded(r) == text,
    {
        let segs = choose|segs: Seq<(Seq<u8>, Seq<utok>)>| #[trigger] seg_text(segs) == text && seg_tokens(segs) == r
            && forall|i: int| 0 <= i < segs.len() ==> self.segment_ok(#[trigger] segs[i]);
        self.lemma_segments_round_trip(segs);
    }

    /// `r` is the text cut into segments, each encoded or replaced.
    pub open spec fn shell_encodes(&self, text: Seq<u8>, r: Seq<utok>) -> bool {
        exists|segs: Seq<(Seq<u8>, Seq<utok>)>| #[trigger] seg_text(segs) == text && seg_tokens(segs) == r
            && forall|i: int| 0 <= i < segs.len() ==> self.segment_ok(#[trigger] segs[i])
    }

    /// Encodes a text: each special literal becomes its tokens, and the method encodes the
    /// text between them. Without special literals this is the method's encoding.
    #[verifier::rlimit(60)]
    pub fn encode(&self, text: &str) -> (r: Vec<utok>)
        requires
            self.wf(),
        ensures
            forall|k: int| 0 <= k < r.len() ==> self.token_ok(#[trigger] r@[k]),
            self.shell_encodes(text.spec_bytes(), r@),
            self.special.len() == 0 ==> self.method.encodes(text.spec_bytes(), r@),
            self.keys_nonempty() ==> r@ == self.shell_result(text.spec_bytes()),
    {
        let bytes = text.as_bytes();
        let n = bytes.len();
        let mut ans: Vec<utok> = Vec::new();
        let mut start: usize = 0;
        let ghost mut segs: Seq<(Seq<u8>, Seq<utok>)> = Seq::empty();
        assert(bytes@.take(0) =~= seg_text(segs));
        assert(ans@ =~= seg_tokens(segs));
        let ghost mut msv: Seq<(usize, usize)> = Seq::empty();
        if let Some(re) = &self.special_regex {
            let ms = find_matches(re, bytes);
            proof {
                msv = ms@;
                if self.keys_nonempty() {
                    assert forall|i: int| 0 <= i < re.keys().len() implies #[trigger] re.keys()[i].len() > 0 by {
                        assert(re.keys()[i] == self.special@[i].0@);
                    }
                }
            }
            let mut k: usize = 0;
            while k < ms.len()
                invariant
                    self.wf(),
                    n == bytes.len(),
                    start <= n,
                    k <= ms.len(),
                    k > 0 ==> start == ms@[k - 1].1,
                    k == 0 ==> start == 0,
                    forall|x: int| 0 <= x < ms.len() ==> #[trigger] ms@[x].0 <= ms@[x].1 <= n,
                    forall|x: int| 0 < x < ms.len() ==> ms@[x - 1].1 <= #[trigger] ms@[x].0,
                    forall|x: int| 0 <= x < ans.len() ==> self.token_ok(#[trigger] ans@[x]),
                    seg_text(segs) == bytes@.take(start as int),
                    seg_tokens(segs) == ans@,
                    forall|i: int| 0 <= i < segs.len() ==> self.segment_ok(#[trigger] segs[i]),
                    msv == ms@,
                    ans@ == self.shell_prefix(bytes@, msv, k as int),
                    start == seg_end(msv, k as int),
                decreases ms.len() - k,
            {
                let (s, e) = ms[k];
                assert(start <= s) by {
                    if k > 0 {
                        assert(ms@[k - 1].1 <= ms@[k as int].0);
                    }
                }
                let gap_text = vstd::slice::slice_subrange(bytes, start, s);
                let gap = self.method.encode_bytes(gap_text);
                let ghost g0 = ans@;
                push_all(&mut ans, &gap);
                proof {
                    self.lemma_push_segment(segs, (gap_text@, gap@), bytes@, start as int, s as int);
                    segs = segs.push((gap_text@, gap@));
                }
                assert forall|x: int| 0 <= x < ans.len() implies self.token_ok(#[trigger] ans@[x]) by {
                    if x < g0.len() {
                        assert(ans@[x] == g0[x]);
                    } else {
                        assert(ans@[x] == gap@[x - g0.len()]);
                    }
                }
                let lit = vstd::slice::slice_subrange(bytes, s, e);
                let ghost before_lit = ans@;
                match self.find_special(lit) {
                    Some(i) => {
                        let v = &self.special[i].1;
                        let ghost a0 = ans@;
                        push_all(&mut ans, v);
                        proof {
                            let sp = sp_view(self.special@);
                            assert(sp[i as int].0 == lit@);
                            let c = choose|c: int| 0 <= c < sp.len() && sp[c].0 == lit@;
                            if c != i {
                                if c < i {
                                    assert(self.special@[c].0@ != self.special@[i as int].0@);
                                } else {
                                    assert(self.special@[i as int].0@ != self.special@[c].0@);
                                }
                            }
                            assert(self.lit_tokens(lit@) == v@);
                            assert(Self::maps(self.special@, lit@, v@));
                            self.lemma_push_segment(segs, (lit@, v@), bytes@, s as int, e as int);
                            segs = segs.push((lit@, v@));
                        }
                        assert forall|x: int| 0 <= x < ans.len() implies self.token_ok(#[trigger] ans@[x]) by {
                            if x < a0.len() {
                                assert(ans@[x] == a0[x]);
                            } else {
                                assert(self.special@[i as int].1@[x - a0.len()] == ans@[x]);
                            }
                        }
                    },
                    None => {
                        let toks = self.method.encode_bytes(lit);
                        let ghost a0 = ans@;
                        push_all(&mut ans, &toks);
                        proof {
                            let sp = sp_view(self.special@);
                            if exists|c: int| 0 <= c < sp.len() && sp[c].0 == lit@ {
                                let c = choose|c: int| 0 <= c < sp.len() && sp[c].0 == lit@;
                                assert(self.special@[c].0@ != lit@);
                            }
                            assert(self.lit_tokens(lit@) == toks@);
                            self.lemma_push_segment(segs, (lit@, toks@), bytes@, s as int, e as int);
                            segs = segs.push((lit@, toks@));
                        }
                        assert forall|x: int| 0 <= x < ans.len() implies self.token_ok(#[trigger] ans@[x]) by {
                            if x < a0.len() {
                                assert(ans@[x] == a0[x]);
                            } else {
                                assert(ans@[x] == toks@[x - a0.len()]);
                            }
                        }
                    },
                }
                proof {
                    assert(gap_text@ == bytes@.subrange(seg_end(msv, k as int), msv[k as int].0 as int));
                    assert(lit@ == bytes@.subrange(msv[k as int].0 as int, msv[k as int].1 as int));
                    assert(ans@ =~= self.shell_prefix(bytes@, msv, k as int) + gap@ + self.lit_tokens(lit@));
                }
                start = e;
                k += 1;
            }
        }
        assert(ans@ == self.shell_prefix(bytes@, msv, msv.len() as int) && start == seg_end(msv, msv.len() as int));
        let tail_text = vstd::slice::slice_subrange(bytes, start, n);
        let tail = self.method.encode_bytes(tail_text);
        let ghost a0 = ans@;
        push_all(&mut ans, &tail);
        proof {
            self.lemma_push_segment(segs, (tail_text@, tail@), bytes@, start as int, n as int);
            segs = segs.push((tail_text@, tail@));
            assert(bytes@.take(n as int) =~= bytes@);
            if self.special.len() == 0 {
                assert(start == 0);
                assert(tail_text@ =~= bytes@);
                assert(a0 =~= Seq::<utok>::empty());
                assert(ans@ =~= tail@);
            }
            assert(ans@ =~= self.shell_prefix(bytes@, msv, msv.len() as int) + tail@);
        }
        assert forall|x: int| 0 <= x < ans.len() implies self.token_ok(#[trigger] ans@[x]) by {
            if x < a0.len() {
                assert(ans@[x] == a0[x]);
            } else {
                assert(ans@[x] == tail@[x - a0.len()]);
            }
        }
        ans
    }

    /// The concatenated pieces of method tokens.
    pub fn decode_bytes(&self, tokens: &[utok]) -> (r: Vec<u8>)
        requires
            self.wf(),
            forall|k: int| 0 <= k < tokens.len() ==> #[trigger] tokens@[k] < self.method.vocab_len(),
        ensures
            r@ == self.decoded(tokens@),
    {
        let mut r: Vec<u8> = Vec::new();
        let mut i: usize = 0;
        while i < tokens.len()
            invariant
                self.wf(),
                i <= tokens.len(),
                forall|k: int| 0 <= k < tokens.len() ==> #[trigger] tokens@[k] < self.method.vocab_len(),
                r@ == self.decoded(tokens@.take(i as int)),
            decreases tokens.len() - i,
        {
            let p = self.method.decode(tokens[i]);
            let ghost r0 = r@;
            let mut j: usize = 0;
            while j < p.len()
                invariant
                    j <= p.len(),
                    r@ == r0 + p@.take(j as int),
                decreases p.len() - j,
            {
                r.push(p[j]);
                j += 1;
                assert(r@ =~= r0 + p@.take(j as int));
            }
            assert(p@.take(j as int) =~= p@);
            assert(tokens@.take(i + 1).drop_last() =~= tokens@.take(i as int));
            i += 1;
        }
        assert(tokens@.take(i as int) =~= tokens@);
        r
    }

    /// Decodes method tokens into text; fails when the bytes are not UTF-8.
    pub fn decode(&self, tokens: &[utok]) -> (r: Result<String, TokeneerError>)
        requires
            self.wf(),
            forall|k: int| 0 <= k < tokens.len() ==> #[trigger] tokens@[k] < self.method.vocab_len(),
        ensures
            r.is_ok() <==> valid_utf8(self.decoded(tokens@)),
            r matches Ok(s) ==> s@ == decode_utf8(self.decoded(tokens@)),
            r matches Err(e) ==> e == TokeneerError::InvalidUtf8OnDecode,
    {
        let b = self.decode_bytes(tokens);
        match string_from_utf8(b) {
            Some(s) => Ok(s),
            None => Err(TokeneerError::InvalidUtf8OnDecode),
        }
    }

    /// `special` maps literal `k` to `v`.
    pub open spec fn maps(special: Seq<(Vec<u8>, Vec<utok>)>, k: Seq<u8>, v: Seq<utok>) -> bool {
        exists|j: int| 0 <= j < special.len() && special[j].0@ == k && special[j].1@ == v
    }

    /// Adds special literals in order. A literal that is special already, or given earlier,
    /// must come with the same tokens, else the result is `SpecialConflict`; when the new
    /// alternation does not compile it is `InvalidRegex`. On an error nothing changes.
    #[verifier::rlimit(60)]
    pub fn extend_special(&mut self, patterns: Vec<(String, Vec<utok>)>) -> (r: Result<(), TokeneerError>)
        requires
            old(self).wf(),
        ensures
            ({
                let pats = Seq::new(patterns@.len(), |i: int| (encode_utf8(patterns@[i].0@), patterns@[i].1@));
                let ext = extended(sp_view(old(self).special@), pats);
                &&& ext is None ==> r == Err::<(), TokeneerError>(TokeneerError::SpecialConflict)
                &&& (ext is Some && !compiles_for(ext.unwrap())) ==> r == Err::<(), TokeneerError>(TokeneerError::InvalidRegex)
                &&& (ext is Some && compiles_for(ext.unwrap())) ==> r is Ok && sp_view(final(self).special@) == ext.unwrap()
                    && final(self).wf() && final(self).method == old(self).method
            }),
            r is Err ==> *final(self) == *old(self),
    {
        let ghost pats = Seq::new(patterns@.len(), |i: int| (encode_utf8(patterns@[i].0@), patterns@[i].1@));
        let ghost sp0 = sp_view(self.special@);
        let mut next: Vec<(Vec<u8>, Vec<utok>)> = Vec::new();
        let mut i: usize = 0;
        while i < self.special.len()
            invariant
                i <= self.special.len(),
                next.len() == i,
                sp_view(next@) == sp_view(self.special@).take(i as int),
            decreases self.special.len() - i,
        {
            let kc = vstd::slice::slice_to_vec(self.special[i].0.as_slice());
            let vc = vstd::slice::slice_to_vec(self.special[i].1.as_slice());
            let ghost n0 = next@;
            next.push((kc, vc));
            assert forall|x: int| 0 <= x < i + 1 implies sp_view(next@)[x] == sp_view(self.special@).take(i + 1)[x] by {
                if x < i {
                    assert(next@[x] == n0[x]);
                    assert(sp_view(n0)[x] == sp_view(self.special@).take(i as int)[x]);
                }
            }
            i += 1;
            assert(sp_view(next@) =~= sp_view(self.special@).take(i as int));
        }
        assert(sp_view(self.special@).take(i as int) =~= sp0);
        assert(pats.take(0) =~= Seq::<(Seq<u8>, Seq<utok>)>::empty());
        assert(sp_distinct(sp0)) by {
            assert forall|a: int, b: int| 0 <= a < b < sp0.len() implies sp0[a].0 != sp0[b].0 by {
                assert(self.special@[a].0@ != self.special@[b].0@);
            }
        }
        let mut i: usize = 0;
        while i < patterns.len()
            invariant
                i <= patterns.len(),
                old(self).wf(),
                *self == *old(self),
                sp0 == sp_view(self.special@),
                pats == Seq::new(patterns@.len(), |i: int| (encode_utf8(patterns@[i].0@), patterns@[i].1@)),
                extended(sp0, pats.take(i as int)) == Some(sp_view(next@)),
                sp_distinct(sp_view(next@)),
            decreases patterns.len() - i,
        {
            let key = patterns[i].0.as_str().as_bytes();
            let value = &patterns[i].1;
            let ghost prev = sp_view(next@);
            assert(pats.take(i + 1).drop_last() =~= pats.take(i as int));
            assert(pats.take(i + 1).last() == (key@, value@));
            let mut found: Option<usize> = None;
            let mut j: usize = 0;
            while j < next.len()
                invariant
                    j <= next.len(),
                    found matches Some(f) ==> f < next.len() && next@[f as int].0@ == key@,
                    found.is_none() ==> forall|y: int| 0 <= y < j ==> next@[y].0@ != key@,
                decreases next.len() - j,
            {
                if found.is_none() && compare_bytes(next[j].0.as_slice(), key) == 0 {
                    found = Some(j);
                }
                j += 1;
            }
            match found {
                Some(f) => {
                    proof {
                        assert(prev[f as int].0 == key@);
                        let c = choose|c: int| 0 <= c < prev.len() && prev[c].0 == key@;
                        assert(c == f);
                    }
                    if !same_tokens(&next[f].1, value) {
                        proof {
                            lemma_extended_none(sp0, pats, i + 1);
                        }
                        return Err(TokeneerError::SpecialConflict);
                    }
                },
                None => {
                    let kc = vstd::slice::slice_to_vec(key);
                    let vc = vstd::slice::slice_to_vec(value.as_slice());
                    let ghost n0 = next@;
                    next.push((kc, vc));
                    assert forall|x: int| 0 <= x < n0.len() implies sp_view(next@)[x] == prev[x] by {
                        assert(next@[x] == n0[x]);
                    }
                    assert(sp_view(next@) =~= prev.push((key@, value@)));
                    proof {
                        if exists|c: int| 0 <= c < prev.len() && prev[c].0 == key@ {
                            let c = choose|c: int| 0 <= c < prev.len() && prev[c].0 == key@;
                            assert(n0[c].0@ != key@);
                        }
                        assert forall|a: int, b: int| 0 <= a < b < next.len() implies sp_view(next@)[a].0 != sp_view(next@)[b].0 by {
                            if b == n0.len() {
                                assert(n0[a].0@ != key@);
                            }
                        }
                    }
                },
            }
            i += 1;
        }
        assert(pats.take(i as int) =~= pats);
        let re = match Self::compile_special(&next) {
            Ok(re) => re,
            Err(e) => {
                return Err(e);
            },
        };
        self.special = next;
        self.special_regex = re;
        assert forall|a: int, b: int| 0 <= a < b < self.special.len() implies self.special@[a].0@ != self.special@[b].0@ by {
            assert(sp_view(self.special@)[a].0 != sp_view(self.special@)[b].0);
        }
        Ok(())
    }

    /// The method.
    pub fn internal(&self) -> (r: &M)
        ensures
            r == &self.method,
    {
        &self.method
    }
}

} // verus!

//! Reading a `tokenizer.model` buffer. Each record is `0x0A`, a one-byte length `L`,
//! `0x0A`, and `L - 2` content bytes, and the next record follows at once; the content is a one-byte piece length, the piece,
//! two separator bytes and the score as four little-endian bytes (an `f32` bit pattern).
//! Records are read while the framing matches; token 0 is `unk`, records 3 to 258 are the
//! byte tokens.
use crate::bpe::Bpe;
use crate::vocab::{effective, slice_views, total_effective, VocabError};
use vstd::prelude::*;

verus! {

/// The little-endian value of four bytes.
pub open spec fn le_u32(b: Seq<u8>) -> u32 {
    (b[0] as int + b[1] as int * 0x100 + b[2] as int * 0x1_0000 + b[3] as int * 0x100_0000) as u32
}

/// Piece and score of a record's content, if it is long enough.
pub open spec fn content_record(c: Seq<u8>) -> Option<(Seq<u8>, u32)> {
    if c.len() >= 1 && 1 + c[0] + 6 <= c.len() {
        let pl = c[0] as int;
        Some((c.subrange(1, 1 + pl), le_u32(c.subrange(pl + 3, pl + 7))))
    } else {
        None
    }
}

/// The records from offset `off` on; none when a record's framing starts but breaks.
pub open spec fn records_from(m: Seq<u8>, off: int) -> Option<Seq<(Seq<u8>, u32)>>
    decreases m.len() - off,
{
    if 0 <= off && off + 3 <= m.len() && m[off] == 0x0A && m[off + 2] == 0x0A {
        let tl = m[off + 1] as int;
        if tl < 2 || off + 1 + tl > m.len() {
            None
        } else {
            match content_record(m.subrange(off + 3, off + 1 + tl)) {
                None => None,
                Some(rec) => match records_from(m, off + 1 + tl) {
                    None => None,
                    Some(rest) => Some(seq![rec] + rest),
                },
            }
        }
    } else {
        Some(Seq::empty())
    }
}

/// The byte-token flags of a model with `n` records.
pub open spec fn model_flags(n: int) -> Seq<bool> {
    Seq::new(n as nat, |i: int| 3 <= i <= 258)
}

pub open spec fn rec_pieces(recs: Seq<(Seq<u8>, u32)>) -> Seq<Seq<u8>> {
    Seq::new(recs.len(), |i: int| recs[i].0)
}

pub open spec fn rec_scores(recs: Seq<(Seq<u8>, u32)>) -> Seq<u32> {
    Seq::new(recs.len(), |i: int| recs[i].1)
}

fn read_content<'a>(c: &'a [u8]) -> (r: Option<(&'a [u8], u32)>)
    ensures
        match content_record(c@) {
            Some((p, s)) => r matches Some((rp, rs)) && rp@ == p && rs == s,
            None => r.is_none(),
        },
{
    if c.len() < 1 {
        return None;
    }
    let pl = c[0] as usize;
    if c.len() < pl + 7 {
        return None;
    }
    let piece = vstd::slice::slice_subrange(c, 1, 1 + pl);
    let b = vstd::slice::slice_subrange(c, pl + 3, pl + 7);
    let s = (b[0] as u32) + (b[1] as u32) * 0x100 + (b[2] as u32) * 0x1_0000 + (b[3] as u32) * 0x100_0000;
    Some((piece, s))
}

/// The records of a model buffer, or none when the framing breaks mid-stream.
#[verifier::rlimit(60)]
pub fn read_records<'a>(model: &'a [u8]) -> (r: Option<(Vec<&'a [u8]>, Vec<u32>)>)
    ensures
        match records_from(model@, 0) {
            Some(recs) => r matches Some((ps, ss)) && slice_views(ps@) == rec_pieces(recs) && ss@ == rec_scores(recs),
            None => r.is_none(),
        },
{
    let n = model.len();
    let mut pieces: Vec<&[u8]> = Vec::new();
    let mut scores: Vec<u32> = Vec::new();
    let mut off: usize = 0;
    let ghost acc: Seq<(Seq<u8>, u32)> = Seq::empty();
    while n - off >= 3 && model[off] == 0x0A && model[off + 2] == 0x0A
        invariant
            n == model@.len(),
            off <= n,
            slice_views(pieces@) == rec_pieces(acc),
            scores@ == rec_scores(acc),
            records_from(model@, 0) == (match records_from(model@, off as int) {
                Some(rest) => Some(acc + rest),
                None => None::<Seq<(Seq<u8>, u32)>>,
            }),
        decreases n - off,
    {
        let tl = model[off + 1] as usize;
        if tl < 2 || tl + 1 > n - off {
            return None;
        }
        let content = vstd::slice::slice_subrange(model, off + 3, off + 1 + tl);
        match read_content(content) {
            None => {
                return None;
            },
            Some((p, s)) => {
                let ghost rec = (p@, s);
                let ghost pv0 = pieces@;
                pieces.push(p);
                scores.push(s);
                proof {
                    assert(pieces@[pv0.len() as int] == p);
                    let rest = records_from(model@, off + 1 + tl);
                    if let Some(rs) = rest {
                        assert(acc + (seq![rec] + rs) =~= (acc.push(rec)) + rs);
                    }
                    let acc0 = acc;
                    assert(slice_views(pv0).len() == pv0.len());
                    assert(rec_pieces(acc0).len() == acc0.len());
                    assert(pv0.len() == acc0.len());
                    acc = acc.push(rec);
                    assert(acc[pv0.len() as int] == rec);
                    assert forall|i: int| 0 <= i < pieces@.len() implies slice_views(pieces@)[i] == rec_pieces(acc)[i] by {
                        if i < pv0.len() {
                            assert(slice_views(pv0)[i] == rec_pieces(acc0)[i]);
                            assert(pieces@[i] == pv0[i]);
                        }
                    }
                    assert(slice_views(pieces@) =~= rec_pieces(acc));
                    assert(scores@ =~= rec_scores(acc));
                }
                off = off + 1 + tl;
            },
        }
    }
    assert(acc + Seq::<(Seq<u8>, u32)>::empty() =~= acc);
    Some((pieces, scores))
}

/// Sum of effective lengths, checked against overflow.
pub(crate) fn total_fits(list: &[&[u8]], flags: &Vec<bool>) -> (r: bool)
    requires
        list.len() == flags.len(),
    ensures
        r == (total_effective(slice_views(list@), flags@, list.len() as int) <= usize::MAX),
{
    let ghost ps = slice_views(list@);
    let mut total: usize = 0;
    let mut i: usize = 0;
    while i < list.len()
        invariant
            i <= list.len() == flags.len(),
            ps == slice_views(list@),
            total == total_effective(ps, flags@, i as int),
        decreases list.len() - i,
    {
        proof {
            lemma_total_grows(ps, flags@, i as int + 1, list.len() as int);
        }
        let len: usize = if flags[i] && crate::vocab::as_byte_token(list[i]).is_some() { 1 } else { list[i].len() };
        assert(len == effective(ps[i as int], flags@[i as int]).len());
        if total > usize::MAX - len {
            return false;
        }
        total = total + len;
        i += 1;
    }
    true
}

proof fn lemma_total_grows(ps: Seq<Seq<u8>>, flags: Seq<bool>, i: int, n: int)
    requires
        0 <= i <= n,
    ensures
        total_effective(ps, flags, i) <= total_effective(ps, flags, n),
    decreases n - i,
{
    if i < n {
        lemma_total_grows(ps, flags, i, n - 1);
    }
}

/// Errors of reading a model buffer.
#[derive(Debug, Clone, Copy, PartialEq, Eq)]
pub enum ModelError {
    /// The framing breaks mid-stream, or there is no record.
    MalformedModel,
    /// The vocabulary is refused.
    Vocab(VocabError),
}

impl Bpe {
    /// Builds the tokenizer from a `tokenizer.model` buffer.
    pub fn from_tokenizer_model(model: &[u8]) -> (r: Result<Bpe, ModelError>)
        ensures
            match records_from(model@, 0) {
                None => r == Err::<Bpe, ModelError>(ModelError::MalformedModel),
                Some(recs) => {
                    &&& recs.len() == 0 ==> r == Err::<Bpe, ModelError>(ModelError::MalformedModel)
                    &&& (r matches Ok(b) ==> b.built_from(rec_pieces(recs), model_flags(recs.len() as int), rec_scores(recs), 0))
                    &&& (r matches Err(ModelError::Vocab(e)) ==> e == VocabError::InvalidByteToken)
                    &&& (recs.len() > 0 && recs.len() <= u32::MAX
                        && total_effective(rec_pieces(recs), model_flags(recs.len() as int), recs.len() as int) <= usize::MAX
                        ==> (r is Ok <==> !crate::vocab::invalid_hint(rec_pieces(recs), model_flags(recs.len() as int))))
                },
            },
    {
        let (pieces, scores) = match read_records(model) {
            Some(x) => x,
            None => {
                return Err(ModelError::MalformedModel);
            },
        };
        let n = pieces.len();
        proof {
            let recs = records_from(model@, 0).unwrap();
            assert(slice_views(pieces@).len() == rec_pieces(recs).len());
            assert(scores@.len() == rec_scores(recs).len());
        }
        if n == 0 || n > u32::MAX as usize {
            return Err(ModelError::MalformedModel);
        }
        let mut flags: Vec<bool> = Vec::new();
        let mut i: usize = 0;
        while i < n
            invariant
                i <= n,
                flags@ =~= model_flags(n as int).take(i as int),
            decreases n - i,
        {
            flags.push(3 <= i && i <= 258);
            i += 1;
        }
        assert(flags@ =~= model_flags(n as int));
        if !total_fits(pieces.as_slice(), &flags) {
            return Err(ModelError::MalformedModel);
        }
        match Bpe::from_pieces(pieces.as_slice(), scores.as_slice(), flags.as_slice(), 0) {
            Ok(b) => Ok(b),
            Err(e) => Err(ModelError::Vocab(e)),
        }
    }
}

} // verus!

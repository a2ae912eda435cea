//! Subword tokenizers: byte pair encoding (BPE) and longest prefix encoding (LPE),
//! with a shell that recognises special literals before the method runs.
use vstd::prelude::*;
use vstd::string::StringSliceAdditionalSpecFns;

pub mod bpe;
pub mod lex;
pub mod lpe;
pub mod merge;
pub mod model;
pub mod tokeneer;
pub mod score;
pub mod special;
pub mod vocab;

pub use bpe::Bpe;
pub use lpe::Lpe;
pub use tokeneer::Tokeneer;

verus! {

/// A token id.
#[allow(non_camel_case_types)]
pub type utok = u32;

/// What a tokenization method offers to the shell around it.
pub trait Method {
    /// The method's tables are consistent.
    spec fn method_wf(&self) -> bool;

    /// The number of tokens.
    spec fn vocab_len(&self) -> nat;

    /// The bytes that token `t` stands for.
    spec fn piece_of(&self, t: utok) -> Seq<u8>;

    /// The unknown token.
    spec fn unk_id(&self) -> utok;

    /// The concatenated pieces of `toks`.
    spec fn decoded_by(&self, toks: Seq<utok>) -> Seq<u8>;

    /// `decoded_by` appends one token's piece at a time.
    proof fn lemma_decoded_by(&self, toks: Seq<utok>)
        ensures
            toks.len() == 0 ==> self.decoded_by(toks) == Seq::<u8>::empty(),
            toks.len() > 0 ==> self.decoded_by(toks) == self.decoded_by(toks.drop_last()) + self.piece_of(toks.last());

    /// The pieces, with their tokens, that `internal_special` reports.
    spec fn specials(&self) -> Seq<(Seq<u8>, utok)>;

    /// The tokens the method makes of `text`.
    spec fn encoding(&self, text: Seq<u8>) -> Seq<utok>;

    /// `r` is what the method makes of `text`.
    spec fn encodes(&self, text: Seq<u8>, r: Seq<utok>) -> bool;

    fn unk_token(&self) -> (r: utok)
        requires
            self.method_wf(),
        ensures
            r < self.vocab_len(),
            r == self.unk_id();

    fn vocab_size(&self) -> (r: usize)
        requires
            self.method_wf(),
        ensures
            r == self.vocab_len();

    /// Pieces that are tokens of the vocabulary but that encoding their own text does not
    /// yield as one token.
    fn internal_special(&self) -> (r: Vec<(Vec<u8>, utok)>)
        requires
            self.method_wf(),
        ensures
            forall|k: int| 0 <= k < r.len() ==> #[trigger] r@[k].1 < self.vocab_len(),
            Seq::new(r@.len(), |i: int| (r@[i].0@, r@[i].1)) == self.specials();

    fn encode(&self, text: &str) -> (r: Vec<utok>)
        requires
            self.method_wf(),
        ensures
            forall|k: int| 0 <= k < r.len() ==> #[trigger] r@[k] < self.vocab_len(),
            self.encodes(text.spec_bytes(), r@),
            r@ == self.encoding(text.spec_bytes()),
            (forall|k: int| 0 <= k < r.len() ==> #[trigger] r@[k] != self.unk_id())
                ==> self.decoded_by(r@) == text.spec_bytes();

    fn encode_bytes(&self, text: &[u8]) -> (r: Vec<utok>)
        requires
            self.method_wf(),
        ensures
            forall|k: int| 0 <= k < r.len() ==> #[trigger] r@[k] < self.vocab_len(),
            self.encodes(text@, r@),
            r@ == self.encoding(text@),
            (forall|k: int| 0 <= k < r.len() ==> #[trigger] r@[k] != self.unk_id())
                ==> self.decoded_by(r@) == text@;

    fn decode(&self, token: utok) -> (r: &[u8])
        requires
            self.method_wf(),
            token < self.vocab_len(),
        ensures
            r@ == self.piece_of(token);
}

} // verus!

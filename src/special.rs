//! A compiled alternation of special literals, kept together with the literals it was
//! compiled from, and what a search with it finds.
use crate::tokeneer::pattern_of;
use crate::vocab::occurs_at;
use regex::bytes::Regex;
use vstd::prelude::*;

verus! {

#[verifier::external_type_specification]
#[verifier::external_body]
pub struct ExRegex(Regex);

/// Whether a pattern compiles: it is UTF-8 and a valid regular expression within the
/// crate's limits. This depends on the pattern alone.
pub uninterp spec fn regex_compiles(pattern: Seq<u8>) -> bool;

/// The alternation of some literals, compiled, and those literals. Only `compile` makes one.
pub struct SpecialRegex {
    re: Regex,
    keys: Vec<Vec<u8>>,
}

impl SpecialRegex {
    /// The literals the regex was compiled from, in alternation order.
    pub closed spec fn keys(&self) -> Seq<Seq<u8>> {
        Seq::new(self.keys@.len(), |i: int| self.keys@[i]@)
    }
}

/// The first literal, from index `j` on, that occurs in `text` at `s`.
pub open spec fn first_key(keys: Seq<Seq<u8>>, text: Seq<u8>, s: int, j: int) -> Option<int>
    decreases keys.len() - j,
{
    if j < 0 || j >= keys.len() {
        None
    } else if occurs_at(text, keys[j], s) {
        Some(j)
    } else {
        first_key(keys, text, s, j + 1)
    }
}

/// The leftmost-first, non-overlapping occurrences of the literals in `text` from `from`
/// on: the first position where some literal occurs, the first such literal in order, then
/// on from its end.
pub open spec fn leftmost_first(keys: Seq<Seq<u8>>, text: Seq<u8>, from: int) -> Seq<(usize, usize)>
    decreases text.len() - from,
{
    if from < 0 || from >= text.len() {
        Seq::empty()
    } else {
        match first_key(keys, text, from, 0) {
            Some(j) => if 0 <= j < keys.len() && keys[j].len() > 0 && from + keys[j].len() <= text.len() {
                seq![(from as usize, (from + keys[j].len()) as usize)] + leftmost_first(keys, text, from + keys[j].len())
            } else {
                leftmost_first(keys, text, from + 1)
            },
            None => leftmost_first(keys, text, from + 1),
        }
    }
}

/// Relies on regex::bytes::Regex::new: compiles the pattern, which is the escaped
/// alternation of `keys`; none when the pattern is not UTF-8 or not a valid regular
/// expression.
#[verifier::external_body]
pub fn compile(pattern: &[u8], keys: Vec<Vec<u8>>) -> (r: Option<SpecialRegex>)
    requires
        pattern@ == pattern_of(Seq::new(keys@.len(), |i: int| keys@[i]@)),
    ensures
        r.is_some() == regex_compiles(pattern@),
        r matches Some(sr) ==> sr.keys() == Seq::new(keys@.len(), |i: int| keys@[i]@),
{
    match std::str::from_utf8(pattern) {
        Ok(p) => Regex::new(p).ok().map(|re| SpecialRegex { re, keys }),
        Err(_) => None,
    }
}

/// Relies on regex::bytes::Regex::find_iter: the non-overlapping matches in `text`, left
/// to right, each as its start and end offsets. The regex is an alternation of escaped
/// literals and searches leftmost-first; with no empty literal, the matches are the
/// leftmost-first occurrences of the literals.
#[verifier::external_body]
pub fn find_matches(sr: &SpecialRegex, text: &[u8]) -> (r: Vec<(usize, usize)>)
    ensures
        forall|k: int| 0 <= k < r.len() ==> #[trigger] r@[k].0 <= r@[k].1 <= text.len(),
        forall|k: int| 0 < k < r.len() ==> r@[k - 1].1 <= #[trigger] r@[k].0,
        (forall|i: int| 0 <= i < sr.keys().len() ==> #[trigger] sr.keys()[i].len() > 0)
            ==> r@ == leftmost_first(sr.keys(), text@, 0),
{
    sr.re.find_iter(text).map(|m| (m.start(), m.end())).collect()
}

} // verus!

use vstd::prelude::*;

verus! {

/// The word tokens of a text: the maximal runs of word characters, in
/// document order. There is no closed form for this here; the trusted
/// tokenizer below is its only source.
pub uninterp spec fn tokens_of(s: Seq<char>) -> Seq<Seq<char>>;

/// How often a token occurs in a token sequence.
pub open spec fn token_count(tokens: Seq<Seq<char>>, t: Seq<char>) -> nat
    decreases tokens.len(),
{
    if tokens.len() == 0 {
        0
    } else {
        token_count(tokens.drop_last(), t) + if tokens.last() == t {
            1nat
        } else {
            0nat
        }
    }
}

/// Relies on regex::Regex::new and Regex::find_iter with the pattern (\w+):
/// the successive non-overlapping matches of the text, in order. Each match
/// is a nonempty run of word characters, so there are at most as many
/// matches as characters, and the matches depend on the text alone.
#[verifier::external_body]
pub(crate) fn tokenize(s: &str) -> (r: Vec<String>)
    ensures
        r@.len() == tokens_of(s@).len(),
        forall|i: int| 0 <= i < r@.len() ==> #[trigger] r@[i]@ == tokens_of(s@)[i],
        r@.len() <= s@.len(),
        s@.len() == 0 ==> r@.len() == 0,
{
    let re = regex::Regex::new(r"(\w+)").unwrap();
    re.find_iter(s).map(|m| m.as_str().to_string()).collect()
}

} // verus!

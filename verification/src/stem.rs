use vstd::prelude::*;
use vstd::string::StringExecFns;

verus! {

/// The Unicode lowercase mapping of a text, as `str::to_lowercase` computes
/// it. The result is a function of the characters alone.
pub uninterp spec fn lower_of(s: Seq<char>) -> Seq<char>;

/// The English snowball stem of a word, as rust_stemmers computes it for
/// `Algorithm::English`. The result is a function of the characters alone.
pub uninterp spec fn stem_of(s: Seq<char>) -> Seq<char>;

/// The stemming algorithms this library recognizes.
#[derive(Clone, Copy, Debug, PartialEq, Eq, Structural)]
pub enum StemAlgorithm {
    English,
}

/// A configuration that names no supported stemming algorithm is rejected
/// before any document is processed.
#[derive(Clone, Copy, Debug, PartialEq, Eq, Structural)]
pub enum IndexError {
    UnsupportedAlgorithm,
}

/// Relies on `str::to_lowercase`: returns the lowercase mapping of the text.
#[verifier::external_body]
pub(crate) fn lowercase(s: &str) -> (r: String)
    ensures
        r@ == lower_of(s@),
{
    s.to_lowercase()
}

/// Relies on `rust_stemmers::Stemmer::create(Algorithm::English)` and
/// `rust_stemmers::Stemmer::stem`: the snowball English stem of the word,
/// converted from the returned `Cow` to an owned `String`.
#[verifier::external_body]
fn stem_english(word: &str) -> (r: String)
    ensures
        r@ == stem_of(word@),
{
    let stemmer = rust_stemmers::Stemmer::create(rust_stemmers::Algorithm::English);
    stemmer.stem(word).into_owned()
}

/// Stem one word with the configured algorithm.
pub fn stem_term(alg: StemAlgorithm, word: &str) -> (r: String)
    ensures
        r@ == stem_of(word@),
{
    match alg {
        StemAlgorithm::English => stem_english(word),
    }
}

/// Normalize a query term exactly as indexed tokens are normalized:
/// lowercase the whole text, then stem it as a single word.
pub fn normalize_term(alg: StemAlgorithm, term: &str) -> (r: String)
    ensures
        r@ == stem_of(lower_of(term@)),
{
    let low = lowercase(term);
    stem_term(alg, low.as_str())
}

/// Select a stemming algorithm by name; an unrecognized name is rejected
/// up front, before any document is processed.
pub fn algorithm_from_name(name: &str) -> (r: Result<StemAlgorithm, IndexError>)
    ensures
        name@ == "english"@ ==> r == Ok::<StemAlgorithm, IndexError>(StemAlgorithm::English),
        name@ != "english"@ ==> r == Err::<StemAlgorithm, IndexError>(
            IndexError::UnsupportedAlgorithm,
        ),
{
    let q = String::from_str(name);
    let e = String::from_str("english");
    if q == e {
        Ok(StemAlgorithm::English)
    } else {
        Err(IndexError::UnsupportedAlgorithm)
    }
}

} // verus!

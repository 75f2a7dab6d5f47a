use vstd::prelude::*;
use vstd::multiset::Multiset;
use crate::order::{lex_lt, lemma_lex_lt_asym, lemma_lex_lt_total, lemma_lex_lt_trans, str_lt};
use crate::stem::{lower_of, stem_of, stem_term, StemAlgorithm};
use crate::tokenize::{split_tokens, tokens_of};

verus! {

broadcast use {vstd::seq_lib::group_to_multiset_ensures, vstd::multiset::group_multiset_axioms};

/// One occurrence of a normalized term in one document.
#[derive(Debug)]
pub struct IntermediatePair {
    pub term: String,
    pub doc_id: u32,
}

impl PartialEq for IntermediatePair {
    fn eq(&self, other: &Self) -> (r: bool) {
        self.term == other.term && self.doc_id == other.doc_id
    }
}

impl vstd::std_specs::cmp::PartialEqSpecImpl for IntermediatePair {
    open spec fn obeys_eq_spec() -> bool {
        true
    }

    open spec fn eq_spec(&self, other: &Self) -> bool {
        self.term@ == other.term@ && self.doc_id == other.doc_id
    }
}

/// The total order on pairs: by term first, then by document identifier.
pub open spec fn pair_le(a: IntermediatePair, b: IntermediatePair) -> bool {
    lex_lt(a.term@, b.term@) || (a.term@ == b.term@ && a.doc_id <= b.doc_id)
}

/// Adjacent pairs stand in the order: term strictly ascending, or the same
/// term with document identifiers in ascending order.
pub open spec fn pairs_sorted(s: Seq<IntermediatePair>) -> bool {
    forall|i: int| 0 <= i < s.len() - 1 ==> #[trigger] pair_le(s[i], s[i + 1])
}

/// The pair order is total.
pub proof fn lemma_pair_le_total(a: IntermediatePair, b: IntermediatePair)
    ensures
        pair_le(a, b) || pair_le(b, a),
{
    lemma_lex_lt_total(a.term@, b.term@);
}

/// The pair order is transitive.
pub proof fn lemma_pair_le_trans(a: IntermediatePair, b: IntermediatePair, c: IntermediatePair)
    ensures
        pair_le(a, b) && pair_le(b, c) ==> pair_le(a, c),
{
    if pair_le(a, b) && pair_le(b, c) {
        if lex_lt(a.term@, b.term@) && lex_lt(b.term@, c.term@) {
            lemma_lex_lt_trans(a.term@, b.term@, c.term@);
        }
    }
}

/// A sorted sequence is ordered between any two positions, not only
/// adjacent ones.
pub proof fn lemma_sorted_pairwise(s: Seq<IntermediatePair>, i: int, j: int)
    requires
        pairs_sorted(s),
        0 <= i <= j < s.len(),
    ensures
        pair_le(s[i], s[j]),
    decreases j - i,
{
    if i == j {
        assert(s[i].term@ == s[j].term@);
    } else {
        lemma_sorted_pairwise(s, i, j - 1);
        assert(pair_le(s[j - 1], s[j - 1 + 1]));
        lemma_pair_le_trans(s[i], s[j - 1], s[j]);
    }
}

/// Decide the pair order.
pub fn pair_le_exec(a: &IntermediatePair, b: &IntermediatePair) -> (r: bool)
    ensures
        r == pair_le(*a, *b),
{
    if str_lt(a.term.as_str(), b.term.as_str()) {
        true
    } else if str_lt(b.term.as_str(), a.term.as_str()) {
        proof {
            lemma_lex_lt_asym(b.term@, a.term@);
        }
        false
    } else {
        proof {
            lemma_lex_lt_total(a.term@, b.term@);
        }
        a.doc_id <= b.doc_id
    }
}

/// Turn one document's raw text into tagged stem pairs: lowercase the text,
/// extract its maximal alphabetic runs, stem each run, and tag each stem
/// with the document identifier, in left-to-right order of appearance.
pub fn tokenize_document(doc_id: u32, text: &str, alg: StemAlgorithm) -> (r: Vec<
    IntermediatePair,
>)
    ensures
        r@.len() == tokens_of(lower_of(text@)).len(),
        forall|k: int|
            0 <= k < r@.len() ==> (#[trigger] r@[k]).term@ == stem_of(
                tokens_of(lower_of(text@))[k],
            ) && r@[k].doc_id == doc_id,
{
    let low = crate::stem::lowercase(text);
    let toks = split_tokens(low.as_str());
    let mut out: Vec<IntermediatePair> = Vec::new();
    let mut i: usize = 0;
    while i < toks.len()
        invariant
            i <= toks@.len(),
            toks@.len() == tokens_of(lower_of(text@)).len(),
            forall|k: int| 0 <= k < toks@.len() ==> toks@[k]@ == tokens_of(lower_of(text@))[k],
            out@.len() == i,
            forall|k: int|
                0 <= k < i ==> (#[trigger] out@[k]).term@ == stem_of(
                    tokens_of(lower_of(text@))[k],
                ) && out@[k].doc_id == doc_id,
        decreases toks@.len() - i,
    {
        let stemmed = stem_term(alg, toks[i].as_str());
        out.push(IntermediatePair { term: stemmed, doc_id });
        i = i + 1;
    }
    out
}

/// Order a collection of tagged stem pairs by term, then by document
/// identifier. Every input pair appears in the output exactly once;
/// duplicates are kept, since removing them is the index builder's job.
pub fn sort_pairs(pairs: Vec<IntermediatePair>) -> (r: Vec<IntermediatePair>)
    ensures
        pairs_sorted(r@),
        r@.to_multiset() == pairs@.to_multiset(),
{
    let mut rest = pairs;
    let mut out: Vec<IntermediatePair> = Vec::new();
    let ghost all = rest@.to_multiset();
    while rest.len() > 0
        invariant
            pairs_sorted(out@),
            out@.to_multiset().add(rest@.to_multiset()) == all,
        decreases rest@.len(),
    {
        let ghost prev_rest = rest@;
        let ghost prev_out = out@;
        let x = rest.pop().unwrap();
        proof {
            assert(rest@ =~= prev_rest.remove(prev_rest.len() - 1));
            assert(prev_rest.to_multiset().count(x) > 0) by {
                assert(prev_rest[prev_rest.len() - 1] == x);
                assert(prev_rest.contains(x));
            }
        }
        let mut j: usize = 0;
        loop
            invariant
                j <= out.len(),
                forall|k: int| 0 <= k < j ==> pair_le(#[trigger] out@[k], x),
            ensures
                j <= out.len(),
                forall|k: int| 0 <= k < j ==> pair_le(#[trigger] out@[k], x),
                j == out@.len() || pair_le(x, out@[j as int]),
            decreases out@.len() - j,
        {
            if j == out.len() {
                break ;
            }
            if !pair_le_exec(&out[j], &x) {
                proof {
                    lemma_pair_le_total(out@[j as int], x);
                }
                break ;
            }
            j = j + 1;
        }
        let ghost jj = j as int;
        out.insert(j, x);
        proof {
            assert forall|i: int| 0 <= i < out@.len() - 1 implies #[trigger] pair_le(
                out@[i],
                out@[i + 1],
            ) by {
                if i + 1 < jj {
                    assert(out@[i] == prev_out[i]);
                    assert(out@[i + 1] == prev_out[i + 1]);
                    assert(pair_le(prev_out[i], prev_out[i + 1]));
                } else if i + 1 == jj {
                    assert(out@[i] == prev_out[i]);
                    assert(out@[i + 1] == x);
                } else if i == jj {
                    assert(out@[i] == x);
                    assert(out@[i + 1] == prev_out[i]);
                } else {
                    assert(out@[i] == prev_out[i - 1]);
                    assert(out@[i + 1] == prev_out[i]);
                    assert(pair_le(prev_out[i - 1], prev_out[i - 1 + 1]));
                }
            }
            assert(out@.to_multiset().add(rest@.to_multiset()) =~= all);
        }
    }
    proof {
        assert(rest@.to_multiset() =~= Multiset::<IntermediatePair>::empty());
        assert(out@.to_multiset().add(Multiset::<IntermediatePair>::empty()) =~= out@.to_multiset());
    }
    out
}

} // verus!

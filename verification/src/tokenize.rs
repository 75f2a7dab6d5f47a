use vstd::prelude::*;
use vstd::string::StrSliceExecFns;

verus! {

/// A character that can appear inside a token: an ASCII letter.
/// Everything else (digits, punctuation, whitespace) only separates tokens.
pub open spec fn is_alpha(c: char) -> bool {
    (97 <= c as u32 && c as u32 <= 122) || (65 <= c as u32 && c as u32 <= 90)
}

/// Length of the maximal alphabetic prefix of `s`.
pub open spec fn run_len(s: Seq<char>) -> int
    decreases s.len(),
{
    if s.len() == 0 || !is_alpha(s[0]) {
        0
    } else {
        1 + run_len(s.drop_first())
    }
}

pub proof fn lemma_run_len_bounds(s: Seq<char>)
    ensures
        0 <= run_len(s) <= s.len(),
    decreases s.len(),
{
    if s.len() == 0 || !is_alpha(s[0]) {
    } else {
        lemma_run_len_bounds(s.drop_first());
    }
}

/// The tokens of a text: its maximal runs of ASCII letters, in order of
/// appearance. Every token is non-empty by construction.
pub open spec fn tokens_of(s: Seq<char>) -> Seq<Seq<char>>
    decreases s.len(),
    via tokens_of_decreases
{
    if s.len() == 0 {
        Seq::empty()
    } else if !is_alpha(s[0]) {
        tokens_of(s.drop_first())
    } else {
        seq![s.take(run_len(s))] + tokens_of(s.skip(run_len(s)))
    }
}

#[via_fn]
proof fn tokens_of_decreases(s: Seq<char>) {
    lemma_run_len_bounds(s);
    if s.len() > 0 && is_alpha(s[0]) {
        lemma_run_len_bounds(s.drop_first());
    }
}

/// A stretch of letters followed by the end of the text or a separator is
/// exactly the maximal alphabetic prefix.
proof fn lemma_run_len_is(s: Seq<char>, m: int)
    requires
        0 <= m <= s.len(),
        forall|k: int| 0 <= k < m ==> is_alpha(s[k]),
        m == s.len() || !is_alpha(s[m]),
    ensures
        run_len(s) == m,
    decreases m,
{
    if m == 0 {
    } else {
        assert(is_alpha(s[0]));
        assert forall|k: int| 0 <= k < m - 1 implies is_alpha(s.drop_first()[k]) by {
            assert(s.drop_first()[k] == s[k + 1]);
        }
        lemma_run_len_is(s.drop_first(), m - 1);
    }
}

pub fn is_alpha_char(c: char) -> (r: bool)
    ensures
        r == is_alpha(c),
{
    let u = c as u32;
    (97 <= u && u <= 122) || (65 <= u && u <= 90)
}

/// Split a text into its maximal runs of ASCII letters, in order.
pub fn split_tokens(s: &str) -> (toks: Vec<String>)
    ensures
        toks@.len() == tokens_of(s@).len(),
        forall|k: int| 0 <= k < toks@.len() ==> toks@[k]@ == tokens_of(s@)[k],
{
    let n = s.unicode_len();
    let mut toks: Vec<String> = Vec::new();
    let mut i: usize = 0;
    proof {
        assert(s@.skip(0) =~= s@);
    }
    while i < n
        invariant
            i <= n,
            n == s@.len(),
            tokens_of(s@).len() == toks@.len() + tokens_of(s@.skip(i as int)).len(),
            forall|k: int| 0 <= k < toks@.len() ==> toks@[k]@ == tokens_of(s@)[k],
            forall|k: int|
                0 <= k < tokens_of(s@.skip(i as int)).len() ==> tokens_of(s@.skip(i as int))[k]
                    == tokens_of(s@)[toks@.len() + k],
        decreases n - i,
    {
        let c = s.get_char(i);
        if !is_alpha_char(c) {
            proof {
                assert(s@.skip(i as int)[0] == s@[i as int]);
                assert(s@.skip(i as int).drop_first() =~= s@.skip(i as int + 1));
            }
            i = i + 1;
        } else {
            let ghost prev = toks@;
            let mut j: usize = i + 1;
            loop
                invariant
                    i < j <= n,
                    n == s@.len(),
                    forall|k: int| i + 1 <= k < j ==> is_alpha(s@[k]),
                ensures
                    i < j <= n,
                    forall|k: int| i + 1 <= k < j ==> is_alpha(s@[k]),
                    j == n || !is_alpha(s@[j as int]),
                decreases n - j,
            {
                if j == n {
                    break ;
                }
                if !is_alpha_char(s.get_char(j)) {
                    break ;
                }
                j = j + 1;
            }
            let tok = s.substring_char(i, j).to_owned();
            proof {
                let si = s@.skip(i as int);
                let m = j - i;
                assert forall|k: int| 0 <= k < m implies is_alpha(si[k]) by {
                    assert(si[k] == s@[i + k]);
                }
                assert(m == si.len() || !is_alpha(si[m]));
                lemma_run_len_is(si, m);
                assert(si.take(m) =~= s@.subrange(i as int, j as int));
                assert(si.skip(m) =~= s@.skip(j as int));
                assert(tokens_of(si) == seq![si.take(m)] + tokens_of(si.skip(m)));
                assert(tokens_of(si)[0] == s@.subrange(i as int, j as int));
                assert(tok@ == tokens_of(s@)[prev.len() as int]);
                assert forall|k: int| 0 <= k < tokens_of(s@.skip(j as int)).len() implies tokens_of(
                    s@.skip(j as int),
                )[k] == tokens_of(s@)[prev.len() + 1 + k] by {
                    assert(tokens_of(si)[1 + k] == tokens_of(si.skip(m))[k]);
                }
            }
            toks.push(tok);
            i = j;
        }
    }
    proof {
        assert(s@.skip(n as int) =~= Seq::<char>::empty());
        assert(tokens_of(s@.skip(n as int)).len() == 0);
    }
    toks
}

} // verus!

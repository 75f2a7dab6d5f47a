use vstd::prelude::*;
use crate::order::{lex_lt, lemma_lex_lt_irrefl, lemma_lex_lt_trans};
use crate::pairs::{pair_le, pairs_sorted, IntermediatePair};
use crate::stem::{lower_of, stem_of, normalize_term, StemAlgorithm};

verus! {

broadcast use {vstd::set::group_set_axioms, vstd::map::group_map_axioms};

/// One dictionary row: a term and its postings list.
pub struct Entry {
    pub term: String,
    pub postings: Vec<u32>,
}

/// The inverted index: dictionary rows ordered by term, each row carrying a
/// strictly ascending postings list of document identifiers.
pub struct InvertedIndex {
    entries: Vec<Entry>,
}

/// The mathematical shadow of one row.
pub type Row = (Seq<char>, Seq<u32>);

pub open spec fn row_of(e: Entry) -> Row {
    (e.term@, e.postings@)
}

pub open spec fn rows_of(es: Seq<Entry>) -> Seq<Row> {
    es.map_values(|e: Entry| row_of(e))
}

/// A valid postings list: non-empty, and strictly ascending, so every
/// document identifier appears at most once.
pub open spec fn postings_valid(p: Seq<u32>) -> bool {
    &&& p.len() > 0
    &&& forall|a: int, b: int| 0 <= a < b < p.len() ==> p[a] < p[b]
}

/// Rows are strictly ordered by term and their postings lists are valid.
pub open spec fn rows_wf(rows: Seq<Row>) -> bool {
    &&& forall|x: int, y: int|
        0 <= x < y < rows.len() ==> lex_lt((#[trigger] rows[x]).0, (#[trigger] rows[y]).0)
    &&& forall|x: int| 0 <= x < rows.len() ==> postings_valid((#[trigger] rows[x]).1)
}

/// Some pair in `ps` carries the term `k`.
pub open spec fn pairs_has_term(ps: Seq<IntermediatePair>, k: Seq<char>) -> bool {
    exists|j: int| 0 <= j < ps.len() && (#[trigger] ps[j]).term@ == k
}

/// Some pair in `ps` carries the term `k` together with document `d`.
pub open spec fn pairs_has_posting(ps: Seq<IntermediatePair>, k: Seq<char>, d: u32) -> bool {
    exists|j: int| 0 <= j < ps.len() && (#[trigger] ps[j]).term@ == k && ps[j].doc_id == d
}

/// Some row carries the term `k`.
pub open spec fn rows_has_term(rows: Seq<Row>, k: Seq<char>) -> bool {
    exists|x: int| 0 <= x < rows.len() && (#[trigger] rows[x]).0 == k
}

/// The row of term `k` lists document `d`.
pub open spec fn rows_has_posting(rows: Seq<Row>, k: Seq<char>, d: u32) -> bool {
    exists|x: int, a: int|
        0 <= x < rows.len() && 0 <= a < rows[x].1.len() && rows[x].0 == k
            && (#[trigger] rows[x].1[a]) == d
}

/// A valid postings list holds each document identifier at most once: two
/// distinct positions hold distinct identifiers.
pub proof fn lemma_postings_distinct(p: Seq<u32>, a: int, b: int)
    requires
        postings_valid(p),
        0 <= a < p.len(),
        0 <= b < p.len(),
        a != b,
    ensures
        p[a] != p[b],
{
}

/// The dictionary that folding a pair sequence produces: each pair appends
/// its document to the final row when its term matches, except when that
/// document is already the row's most recent entry; a fresh term opens a new
/// row.
pub open spec fn build_rows(ps: Seq<IntermediatePair>) -> Seq<Row>
    decreases ps.len(),
{
    if ps.len() == 0 {
        Seq::empty()
    } else {
        let rows = build_rows(ps.drop_last());
        let p = ps.last();
        if rows.len() == 0 {
            seq![(p.term@, seq![p.doc_id])]
        } else if rows.last().0 == p.term@ {
            if rows.last().1.last() == p.doc_id {
                rows
            } else {
                rows.update(rows.len() - 1, (rows.last().0, rows.last().1.push(p.doc_id)))
            }
        } else {
            rows.push((p.term@, seq![p.doc_id]))
        }
    }
}

/// What folding a sorted pair sequence yields: well-formed rows whose terms
/// are exactly the pairs' terms and whose postings are exactly the pairs'
/// documents.
proof fn lemma_build_rows_props(ps: Seq<IntermediatePair>)
    requires
        pairs_sorted(ps),
    ensures
        rows_wf(build_rows(ps)),
        (ps.len() == 0) <==> (build_rows(ps).len() == 0),
        ps.len() > 0 ==> build_rows(ps).last().1.len() > 0 && build_rows(ps).last().0
            == ps.last().term@ && build_rows(ps).last().1.last() == ps.last().doc_id,
        forall|k: Seq<char>| #[trigger] rows_has_term(build_rows(ps), k) <==> pairs_has_term(ps, k),
        forall|k: Seq<char>, d: u32|
            #[trigger] rows_has_posting(build_rows(ps), k, d) <==> pairs_has_posting(ps, k, d),
    decreases ps.len(),
{
    if ps.len() == 0 {
        assert forall|k: Seq<char>| !rows_has_term(build_rows(ps), k) && !pairs_has_term(
            ps,
            k,
        ) by {}
    } else {
        let pre = ps.drop_last();
        let p = ps.last();
        assert forall|ii: int| 0 <= ii < pre.len() - 1 implies #[trigger] pair_le(
            pre[ii],
            pre[ii + 1],
        ) by {
            assert(pair_le(ps[ii], ps[ii + 1]));
        }
        lemma_build_rows_props(pre);
        let rows = build_rows(pre);
        let out = build_rows(ps);
        // relate term and posting membership in ps to pre plus the last pair
        assert forall|k: Seq<char>| #[trigger] pairs_has_term(ps, k) <==> (pairs_has_term(pre, k)
            || p.term@ == k) by {
            if pairs_has_term(ps, k) {
                let j = choose|j: int| 0 <= j < ps.len() && (#[trigger] ps[j]).term@ == k;
                if j < pre.len() {
                    assert(pre[j].term@ == k);
                }
            }
            if pairs_has_term(pre, k) {
                let j = choose|j: int| 0 <= j < pre.len() && (#[trigger] pre[j]).term@ == k;
                assert(ps[j].term@ == k);
            }
            if p.term@ == k {
                assert(ps[ps.len() - 1].term@ == k);
            }
        }
        assert forall|k: Seq<char>, d: u32| #[trigger] pairs_has_posting(ps, k, d) <==> (
        pairs_has_posting(pre, k, d) || (p.term@ == k && p.doc_id == d)) by {
            if pairs_has_posting(ps, k, d) {
                let j = choose|j: int|
                    0 <= j < ps.len() && (#[trigger] ps[j]).term@ == k && ps[j].doc_id == d;
                if j < pre.len() {
                    assert(pre[j].term@ == k && pre[j].doc_id == d);
                }
            }
            if pairs_has_posting(pre, k, d) {
                let j = choose|j: int|
                    0 <= j < pre.len() && (#[trigger] pre[j]).term@ == k && pre[j].doc_id == d;
                assert(ps[j].term@ == k && ps[j].doc_id == d);
            }
            if p.term@ == k && p.doc_id == d {
                assert(ps[ps.len() - 1].term@ == k && ps[ps.len() - 1].doc_id == d);
            }
        }
        if rows.len() == 0 {
            assert(pre.len() == 0);
            assert(out =~= seq![(p.term@, seq![p.doc_id])]);
            assert(postings_valid(out[0].1));
            assert forall|k: Seq<char>| #[trigger] rows_has_term(out, k) <==> pairs_has_term(
                ps,
                k,
            ) by {
                if p.term@ == k {
                    assert(out[0].0 == k);
                }
                if rows_has_term(out, k) {
                    let x = choose|x: int| 0 <= x < out.len() && (#[trigger] out[x]).0 == k;
                    assert(x == 0);
                }
            }
            assert forall|k: Seq<char>, d: u32| #[trigger] rows_has_posting(out, k, d)
                <==> pairs_has_posting(ps, k, d) by {
                if p.term@ == k && p.doc_id == d {
                    assert(out[0].0 == k && out[0].1[0] == d);
                }
                if rows_has_posting(out, k, d) {
                    let (x, a) = choose|x: int, a: int|
                        0 <= x < out.len() && 0 <= a < out[x].1.len() && out[x].0 == k && (
                        #[trigger] out[x].1[a]) == d;
                    assert(x == 0 && a == 0);
                }
            }
        } else if rows.last().0 == p.term@ {
            assert(pre.len() > 0);
            assert(pair_le(ps[ps.len() - 2], ps[ps.len() - 2 + 1]));
            assert(pre.last() == ps[ps.len() - 2]);
            lemma_lex_lt_irrefl(p.term@);
            assert(pre.last().doc_id <= p.doc_id);
            if rows.last().1.last() == p.doc_id {
                // the document is already the most recent posting: nothing changes
                assert(out == rows);
                assert forall|k: Seq<char>| #[trigger] rows_has_term(out, k) <==> pairs_has_term(
                    ps,
                    k,
                ) by {
                    if p.term@ == k {
                        assert((#[trigger] out[out.len() - 1]).0 == k);
                    }
                }
                assert forall|k: Seq<char>, d: u32| #[trigger] rows_has_posting(out, k, d)
                    <==> pairs_has_posting(ps, k, d) by {
                    if p.term@ == k && p.doc_id == d {
                        let x = out.len() - 1;
                        let a = out[x].1.len() - 1;
                        assert(0 <= a < out[x].1.len() && out[x].0 == k && (#[trigger] out[x].1[a])
                            == d);
                    }
                }
            } else {
                // a new document for the same term: append it to the last row
                let t = rows.last().0;
                let q = rows.last().1;
                assert(q.last() == pre.last().doc_id);
                assert(pre.last().doc_id < p.doc_id);
                assert(out == rows.update(rows.len() - 1, (t, q.push(p.doc_id))));
                assert(out.len() == rows.len());
                assert(forall|x: int| 0 <= x < rows.len() - 1 ==> out[x] == rows[x]);
                assert(out[out.len() - 1] == (t, q.push(p.doc_id)));
                assert forall|x: int, y: int| 0 <= x < y < out.len() implies lex_lt(
                    (#[trigger] out[x]).0,
                    (#[trigger] out[y]).0,
                ) by {
                    assert(lex_lt((#[trigger] rows[x]).0, (#[trigger] rows[y]).0));
                }
                assert(postings_valid(q));
                assert forall|a: int, b: int|
                    0 <= a < b < q.push(p.doc_id).len() implies q.push(p.doc_id)[a] < q.push(
                    p.doc_id,
                )[b] by {
                    if b < q.len() {
                        assert(q[a] < q[b]);
                    } else {
                        if a < q.len() - 1 {
                            assert(q[a] < q[q.len() - 1]);
                        }
                    }
                }
                assert forall|x: int| 0 <= x < out.len() implies postings_valid(
                    (#[trigger] out[x]).1,
                ) by {
                    if x < out.len() - 1 {
                        assert(postings_valid((#[trigger] rows[x]).1));
                    }
                }
                assert forall|k: Seq<char>| #[trigger] rows_has_term(out, k) <==> pairs_has_term(
                    ps,
                    k,
                ) by {
                    if rows_has_term(out, k) {
                        let x = choose|x: int| 0 <= x < out.len() && (#[trigger] out[x]).0 == k;
                        assert(rows[x].0 == k);
                        assert(rows_has_term(rows, k));
                    }
                    if pairs_has_term(pre, k) {
                        assert(rows_has_term(rows, k));
                        let x = choose|x: int| 0 <= x < rows.len() && (#[trigger] rows[x]).0 == k;
                        assert(out[x].0 == k);
                        assert(rows_has_term(out, k));
                    }
                    if p.term@ == k {
                        assert((#[trigger] out[out.len() - 1]).0 == k);
                        assert(rows_has_term(out, k));
                    }
                }
                assert forall|k: Seq<char>, d: u32| #[trigger] rows_has_posting(out, k, d)
                    <==> pairs_has_posting(ps, k, d) by {
                    if rows_has_posting(out, k, d) {
                        let (x, a) = choose|x: int, a: int|
                            0 <= x < out.len() && 0 <= a < out[x].1.len() && out[x].0 == k && (
                            #[trigger] out[x].1[a]) == d;
                        if x < out.len() - 1 {
                            assert((#[trigger] rows[x].1[a]) == d);
                            assert(rows_has_posting(rows, k, d));
                        } else if a < q.len() {
                            assert((#[trigger] rows[x].1[a]) == d);
                            assert(rows_has_posting(rows, k, d));
                        } else {
                            assert(k == p.term@ && d == p.doc_id);
                        }
                    }
                    if pairs_has_posting(pre, k, d) {
                        assert(rows_has_posting(rows, k, d));
                        let (x, a) = choose|x: int, a: int|
                            0 <= x < rows.len() && 0 <= a < rows[x].1.len() && rows[x].0 == k && (
                            #[trigger] rows[x].1[a]) == d;
                        assert(0 <= a < out[x].1.len() && out[x].0 == k && (#[trigger] out[x].1[a])
                            == d);
                        assert(rows_has_posting(out, k, d));
                    }
                    if p.term@ == k && p.doc_id == d {
                        let x = out.len() - 1;
                        let a = q.len() as int;
                        assert(0 <= a < out[x].1.len() && out[x].0 == k && (#[trigger] out[x].1[a])
                            == d);
                        assert(rows_has_posting(out, k, d));
                    }
                }
            }
        } else {
            // a fresh term opens a new row at the end
            assert(pre.len() > 0);
            assert(pair_le(ps[ps.len() - 2], ps[ps.len() - 2 + 1]));
            assert(pre.last() == ps[ps.len() - 2]);
            assert(rows.last().0 == pre.last().term@);
            assert(lex_lt(rows.last().0, p.term@));
            assert(out == rows.push((p.term@, seq![p.doc_id])));
            assert forall|x: int, y: int| 0 <= x < y < out.len() implies lex_lt(
                (#[trigger] out[x]).0,
                (#[trigger] out[y]).0,
            ) by {
                if y < rows.len() {
                    assert(lex_lt((#[trigger] rows[x]).0, (#[trigger] rows[y]).0));
                } else {
                    if x < rows.len() - 1 {
                        assert(lex_lt((#[trigger] rows[x]).0, (#[trigger] rows[rows.len() - 1]).0));
                        lemma_lex_lt_trans(rows[x].0, rows[rows.len() - 1].0, p.term@);
                    }
                }
            }
            assert forall|x: int| 0 <= x < out.len() implies postings_valid(
                (#[trigger] out[x]).1,
            ) by {
                if x < rows.len() {
                    assert(postings_valid((#[trigger] rows[x]).1));
                } else {
                    assert(out[x].1 == seq![p.doc_id]);
                }
            }
            assert forall|k: Seq<char>| #[trigger] rows_has_term(out, k) <==> pairs_has_term(
                ps,
                k,
            ) by {
                if rows_has_term(out, k) {
                    let x = choose|x: int| 0 <= x < out.len() && (#[trigger] out[x]).0 == k;
                    if x < rows.len() {
                        assert(rows[x].0 == k);
                        assert(rows_has_term(rows, k));
                    }
                }
                if pairs_has_term(pre, k) {
                    assert(rows_has_term(rows, k));
                    let x = choose|x: int| 0 <= x < rows.len() && (#[trigger] rows[x]).0 == k;
                    assert(out[x].0 == k);
                    assert(rows_has_term(out, k));
                }
                if p.term@ == k {
                    assert((#[trigger] out[out.len() - 1]).0 == k);
                    assert(rows_has_term(out, k));
                }
            }
            assert forall|k: Seq<char>, d: u32| #[trigger] rows_has_posting(out, k, d)
                <==> pairs_has_posting(ps, k, d) by {
                if rows_has_posting(out, k, d) {
                    let (x, a) = choose|x: int, a: int|
                        0 <= x < out.len() && 0 <= a < out[x].1.len() && out[x].0 == k && (
                        #[trigger] out[x].1[a]) == d;
                    if x < rows.len() {
                        assert((#[trigger] rows[x].1[a]) == d);
                        assert(rows_has_posting(rows, k, d));
                    } else {
                        assert(k == p.term@ && d == p.doc_id);
                    }
                }
                if pairs_has_posting(pre, k, d) {
                    assert(rows_has_posting(rows, k, d));
                    let (x, a) = choose|x: int, a: int|
                        0 <= x < rows.len() && 0 <= a < rows[x].1.len() && rows[x].0 == k && (
                        #[trigger] rows[x].1[a]) == d;
                    assert(0 <= a < out[x].1.len() && out[x].0 == k && (#[trigger] out[x].1[a])
                        == d);
                    assert(rows_has_posting(out, k, d));
                }
                if p.term@ == k && p.doc_id == d {
                    let x = out.len() - 1;
                    assert(0 <= 0 < out[x].1.len() && out[x].0 == k && (#[trigger] out[x].1[0])
                        == d);
                    assert(rows_has_posting(out, k, d));
                }
            }
        }
    }
}

/// The dictionary a row sequence denotes: a map from each row's term to its
/// postings list.
pub closed spec fn entries_map(es: Seq<Entry>) -> Map<Seq<char>, Seq<u32>>
    decreases es.len(),
{
    if es.len() == 0 {
        Map::empty()
    } else {
        entries_map(es.drop_last()).insert(es.last().term@, es.last().postings@)
    }
}

impl View for InvertedIndex {
    type V = Map<Seq<char>, Seq<u32>>;

    closed spec fn view(&self) -> Map<Seq<char>, Seq<u32>> {
        entries_map(self.entries@)
    }
}

impl InvertedIndex {
    /// The rows are strictly ordered by term, and every postings list is
    /// valid.
    pub closed spec fn wf(self) -> bool {
        rows_wf(rows_of(self.entries@))
    }

    /// An empty store, ready for one build.
    pub fn new() -> (r: InvertedIndex)
        ensures
            r.wf(),
            r@ == Map::<Seq<char>, Seq<u32>>::empty(),
    {
        InvertedIndex { entries: Vec::new() }
    }

    /// Number of distinct terms in the dictionary.
    pub fn term_count(&self) -> (r: usize)
        requires
            self.wf(),
        ensures
            self@.dom().finite(),
            r == self@.dom().len(),
    {
        proof {
            self.lemma_view_props();
        }
        self.entries.len()
    }

    /// Strictly ordered rows carry pairwise distinct terms.
    proof fn lemma_terms_distinct(self)
        requires
            self.wf(),
        ensures
            forall|i: int, j: int|
                0 <= i < j < self.entries@.len() ==> (#[trigger] self.entries@[i]).term@ != (
                #[trigger] self.entries@[j]).term@,
    {
        assert forall|i: int, j: int| 0 <= i < j < self.entries@.len() implies (
        #[trigger] self.entries@[i]).term@ != (#[trigger] self.entries@[j]).term@ by {
            let rows = rows_of(self.entries@);
            assert(lex_lt((#[trigger] rows[i]).0, (#[trigger] rows[j]).0));
            lemma_lex_lt_irrefl(self.entries@[i].term@);
        }
    }

    /// What the dictionary map holds, row by row.
    proof fn lemma_view_props(self)
        requires
            self.wf(),
        ensures
            self@.dom().finite(),
            self@.dom().len() == self.entries@.len(),
            forall|k: Seq<char>|
                #[trigger] self@.contains_key(k) ==> exists|i: int|
                    0 <= i < self.entries@.len() && (#[trigger] self.entries@[i]).term@ == k,
            forall|i: int|
                0 <= i < self.entries@.len() ==> self@.contains_key(
                    (#[trigger] self.entries@[i]).term@,
                ) && self@[self.entries@[i].term@] == self.entries@[i].postings@,
    {
        self.lemma_terms_distinct();
        lemma_entries_map_props(self.entries@);
    }

    /// Fold a globally sorted pair sequence into the dictionary. Each pair
    /// appends its document identifier to its term's postings list, except
    /// when that identifier is already the most recent entry there; since the
    /// input is sorted by term and then by document identifier, this is
    /// enough to keep every postings list strictly ascending and free of
    /// duplicates. The store must still be empty: it is built exactly once.
    pub fn build_from_sorted_pairs(&mut self, sorted_pairs: Vec<IntermediatePair>)
        requires
            old(self).wf(),
            old(self)@ == Map::<Seq<char>, Seq<u32>>::empty(),
            pairs_sorted(sorted_pairs@),
        ensures
            final(self).wf(),
            forall|k: Seq<char>|
                #[trigger] final(self)@.contains_key(k) <==> pairs_has_term(sorted_pairs@, k),
            forall|k: Seq<char>|
                #[trigger] final(self)@.contains_key(k) ==> postings_valid(final(self)@[k]),
            forall|k: Seq<char>, d: u32|
                final(self)@.contains_key(k) ==> ((#[trigger] final(self)@[k].contains(d))
                    <==> pairs_has_posting(sorted_pairs@, k, d)),
    {
        proof {
            old(self).lemma_view_props();
            if old(self).entries@.len() > 0 {
                assert(old(self)@.contains_key(old(self).entries@[0].term@));
            }
            assert(rows_of(old(self).entries@) =~= Seq::<Row>::empty());
        }
        let ghost ps = sorted_pairs@;
        let n = sorted_pairs.len();
        let mut i: usize = 0;
        proof {
            assert(ps.take(0) =~= Seq::<IntermediatePair>::empty());
        }
        while i < n
            invariant
                i <= n,
                n == ps.len(),
                sorted_pairs@ == ps,
                pairs_sorted(ps),
                rows_of(self.entries@) == build_rows(ps.take(i as int)),
            decreases n - i,
        {
            let ghost prev = self.entries@;
            let ghost pst = ps.take(i as int + 1);
            proof {
                assert(pst.drop_last() =~= ps.take(i as int));
                assert(pst.last() == ps[i as int]);
            }
            let term = sorted_pairs[i].term.clone();
            let d = sorted_pairs[i].doc_id;
            let elen = self.entries.len();
            if elen == 0 {
                let mut postings: Vec<u32> = Vec::new();
                postings.push(d);
                self.entries.push(Entry { term, postings });
                proof {
                    assert(self.entries@[0].term@ == ps[i as int].term@);
                    assert(self.entries@[0].postings@ =~= seq![ps[i as int].doc_id]);
                    assert(rows_of(self.entries@) =~~= build_rows(pst));
                }
            } else {
                proof {
                    assert(rows_of(prev)[elen - 1] == row_of(prev[elen - 1]));
                }
                let same = self.entries[elen - 1].term == term;
                if same {
                    let mut e = self.entries.pop().unwrap();
                    let plen = e.postings.len();
                    proof {
                        lemma_build_rows_props(ps.take(i as int));
                        assert(postings_valid(rows_of(prev)[elen - 1].1));
                    }
                    let lastd = e.postings[plen - 1];
                    if lastd == d {
                        self.entries.push(e);
                        proof {
                            assert(self.entries@ =~= prev);
                            assert(rows_of(self.entries@) =~~= build_rows(pst));
                        }
                    } else {
                        e.postings.push(d);
                        self.entries.push(e);
                        proof {
                            assert(self.entries@ =~= prev.update(
                                elen - 1,
                                Entry {
                                    term: prev[elen - 1].term,
                                    postings: e.postings,
                                },
                            ));
                            assert forall|x: int| 0 <= x < self.entries@.len() implies rows_of(
                                self.entries@,
                            )[x] == build_rows(pst)[x] by {
                                if x < elen - 1 {
                                    assert(rows_of(prev)[x] == row_of(prev[x]));
                                }
                            }
                            assert(rows_of(self.entries@) =~~= build_rows(pst));
                        }
                    }
                } else {
                    let mut postings: Vec<u32> = Vec::new();
                    postings.push(d);
                    self.entries.push(Entry { term, postings });
                    proof {
                        assert forall|x: int| 0 <= x < self.entries@.len() implies rows_of(
                            self.entries@,
                        )[x] == build_rows(pst)[x] by {
                            if x < elen {
                                assert(rows_of(prev)[x] == row_of(prev[x]));
                            } else {
                                assert(self.entries@[x].postings@ =~= seq![ps[i as int].doc_id]);
                            }
                        }
                        assert(rows_of(self.entries@) =~~= build_rows(pst));
                    }
                }
            }
            i = i + 1;
        }
        proof {
            assert(ps.take(n as int) =~= ps);
            lemma_build_rows_props(ps);
            let rows = rows_of(self.entries@);
            assert forall|x: int| 0 <= x < self.entries@.len() implies rows[x] == row_of(
                self.entries@[x],
            ) by {}
            assert(self.wf());
            self.lemma_view_props();
            assert forall|k: Seq<char>| #[trigger]
                self@.contains_key(k) <==> pairs_has_term(ps, k) by {
                if self@.contains_key(k) {
                    let e = choose|e: int|
                        0 <= e < self.entries@.len() && (#[trigger] self.entries@[e]).term@ == k;
                    assert((#[trigger] rows[e]).0 == k);
                    assert(rows_has_term(rows, k));
                }
                if pairs_has_term(ps, k) {
                    assert(rows_has_term(rows, k));
                    let x = choose|x: int| 0 <= x < rows.len() && (#[trigger] rows[x]).0 == k;
                    assert(self.entries@[x].term@ == k);
                    assert(self@.contains_key(k));
                }
            }
            assert forall|k: Seq<char>| #[trigger]
                self@.contains_key(k) implies postings_valid(self@[k]) by {
                let e = choose|e: int|
                    0 <= e < self.entries@.len() && (#[trigger] self.entries@[e]).term@ == k;
                assert(self@[k] == self.entries@[e].postings@);
                assert(postings_valid((#[trigger] rows[e]).1));
            }
            assert forall|k: Seq<char>, d: u32| self@.contains_key(k) implies ((
            #[trigger] self@[k].contains(d)) <==> pairs_has_posting(ps, k, d)) by {
                self.lemma_terms_distinct();
                let e = choose|e: int|
                    0 <= e < self.entries@.len() && (#[trigger] self.entries@[e]).term@ == k;
                assert(self@[k] == self.entries@[e].postings@);
                if self@[k].contains(d) {
                    let a = choose|a: int| 0 <= a < self@[k].len() && self@[k][a] == d;
                    assert(0 <= a < rows[e].1.len() && rows[e].0 == k && (#[trigger] rows[e].1[a])
                        == d);
                    assert(rows_has_posting(rows, k, d));
                }
                if pairs_has_posting(ps, k, d) {
                    assert(rows_has_posting(rows, k, d));
                    let (x, a) = choose|x: int, a: int|
                        0 <= x < rows.len() && 0 <= a < rows[x].1.len() && rows[x].0 == k && (
                        #[trigger] rows[x].1[a]) == d;
                    assert(self.entries@[x].term@ == k);
                    assert(x == e);
                    assert(self@[k][a] == d);
                }
            }
        }
    }

    /// Look a query term up: lowercase it, stem it with the same configured
    /// algorithm the tokenizer used, and return a copy of its postings list,
    /// or nothing when the stem is absent from the dictionary.
    pub fn search(&self, query: &str, alg: StemAlgorithm) -> (r: Option<Vec<u32>>)
        requires
            self.wf(),
        ensures
            (match r {
                Some(p) => self@.contains_key(stem_of(lower_of(query@))) && p@ == self@[stem_of(
                    lower_of(query@),
                )],
                None => !self@.contains_key(stem_of(lower_of(query@))),
            }),
    {
        let key = normalize_term(alg, query);
        proof {
            self.lemma_view_props();
        }
        let n = self.entries.len();
        let mut e: usize = 0;
        while e < n
            invariant
                e <= n,
                n == self.entries@.len(),
                self.wf(),
                key@ == stem_of(lower_of(query@)),
                forall|x: int| 0 <= x < e ==> (#[trigger] self.entries@[x]).term@ != key@,
            decreases n - e,
        {
            if self.entries[e].term == key {
                let p = copy_postings(&self.entries[e].postings);
                proof {
                    self.lemma_view_props();
                }
                return Some(p);
            }
            e = e + 1;
        }
        proof {
            if self@.contains_key(key@) {
                let i = choose|i: int|
                    0 <= i < self.entries@.len() && (#[trigger] self.entries@[i]).term@ == key@;
            }
        }
        None
    }
}

/// Copy a postings list for the caller.
fn copy_postings(p: &Vec<u32>) -> (r: Vec<u32>)
    ensures
        r@ == p@,
{
    let mut r: Vec<u32> = Vec::new();
    let mut i: usize = 0;
    proof {
        assert(p@.take(0) =~= Seq::<u32>::empty());
    }
    while i < p.len()
        invariant
            i <= p@.len(),
            r@ == p@.take(i as int),
        decreases p@.len() - i,
    {
        let x = p[i];
        r.push(x);
        proof {
            assert(p@.take(i as int).push(p@[i as int]) =~= p@.take(i as int + 1));
        }
        i = i + 1;
    }
    proof {
        assert(p@.take(p@.len() as int) =~= p@);
    }
    r
}

/// Rows with pairwise distinct terms denote a dictionary with exactly one
/// key per row, mapping each term to that row's postings list.
proof fn lemma_entries_map_props(es: Seq<Entry>)
    requires
        forall|i: int, j: int|
            0 <= i < j < es.len() ==> (#[trigger] es[i]).term@ != (#[trigger] es[j]).term@,
    ensures
        entries_map(es).dom().finite(),
        entries_map(es).dom().len() == es.len(),
        forall|k: Seq<char>|
            #[trigger] entries_map(es).contains_key(k) ==> exists|i: int|
                0 <= i < es.len() && (#[trigger] es[i]).term@ == k,
        forall|i: int|
            0 <= i < es.len() ==> entries_map(es).contains_key((#[trigger] es[i]).term@)
                && entries_map(es)[es[i].term@] == es[i].postings@,
    decreases es.len(),
{
    if es.len() == 0 {
        assert(entries_map(es) == Map::<Seq<char>, Seq<u32>>::empty());
        assert(entries_map(es).dom() =~= Set::<Seq<char>>::empty());
    } else {
        let pre = es.drop_last();
        let last = es.last();
        lemma_entries_map_props(pre);
        assert(entries_map(es) == entries_map(pre).insert(last.term@, last.postings@));
        assert(!entries_map(pre).contains_key(last.term@)) by {
            if entries_map(pre).contains_key(last.term@) {
                let i = choose|i: int|
                    0 <= i < pre.len() && (#[trigger] pre[i]).term@ == last.term@;
                assert(es[i].term@ == es[es.len() - 1].term@);
            }
        }
        assert(entries_map(es).dom() =~= entries_map(pre).dom().insert(last.term@));
        assert forall|i: int| 0 <= i < es.len() implies entries_map(es).contains_key(
            (#[trigger] es[i]).term@,
        ) && entries_map(es)[es[i].term@] == es[i].postings@ by {
            if i < es.len() - 1 {
                assert(pre[i] == es[i]);
                assert(es[i].term@ != last.term@);
            }
        }
        assert forall|k: Seq<char>| #[trigger]
            entries_map(es).contains_key(k) implies exists|i: int|
            0 <= i < es.len() && (#[trigger] es[i]).term@ == k by {
            if k == last.term@ {
                assert(es[es.len() - 1].term@ == k);
            } else {
                assert(entries_map(pre).contains_key(k));
                let i = choose|i: int| 0 <= i < pre.len() && (#[trigger] pre[i]).term@ == k;
                assert(es[i].term@ == k);
            }
        }
    }
}

} // verus!

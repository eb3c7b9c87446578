//! The inverted index over skill records: for each term, the skills whose
//! terms include it and how often; for each skill, how many terms it has.

use vstd::prelude::*;
use std::path::PathBuf;
use crate::skill::{SkillMeta, SkillSummary, doc_tokens, keyword_tokens, summarizes, summary_of};
use crate::tokenize::{tokens, tokenize};

verus! {

/// How often `t` occurs in `ts`.
pub open spec fn term_count(ts: Seq<Seq<char>>, t: Seq<char>) -> nat
    decreases ts.len(),
{
    if ts.len() == 0 {
        0
    } else {
        term_count(ts.drop_last(), t) + if ts.last() == t { 1nat } else { 0nat }
    }
}

/// The postings of `t` over `docs`: one `(doc, frequency)` pair for each
/// document whose terms include `t`, in document order.
pub open spec fn postings_of(docs: Seq<SkillMeta>, t: Seq<char>) -> Seq<(int, int)>
    decreases docs.len(),
{
    if docs.len() == 0 {
        Seq::empty()
    } else {
        let c = term_count(doc_tokens(docs.last()), t);
        postings_of(docs.drop_last(), t) + if c > 0 {
            seq![((docs.len() - 1) as int, c as int)]
        } else {
            Seq::empty()
        }
    }
}

/// A stored posting list read as integer pairs.
pub open spec fn postings_view(v: Seq<(usize, usize)>) -> Seq<(int, int)> {
    v.map_values(|p: (usize, usize)| (p.0 as int, p.1 as int))
}

/// The postings of `t` after the first `i` documents and the first `k`
/// terms of document `i` (whose terms are `toks`) have been counted.
pub open spec fn partial_postings(
    docs: Seq<SkillMeta>,
    i: int,
    toks: Seq<Seq<char>>,
    k: int,
    t: Seq<char>,
) -> Seq<(int, int)> {
    let c = term_count(toks.take(k), t);
    postings_of(docs.take(i), t) + if c > 0 {
        seq![(i, c as int)]
    } else {
        Seq::empty()
    }
}

pub proof fn lemma_term_count_bound(ts: Seq<Seq<char>>, t: Seq<char>)
    ensures
        term_count(ts, t) <= ts.len(),
    decreases ts.len(),
{
    if ts.len() > 0 {
        lemma_term_count_bound(ts.drop_last(), t);
    }
}

/// Every posting of `t` names a document of `docs`, in strictly increasing
/// order, with the number of times `t` occurs among that document's terms.
pub proof fn lemma_postings_sound(docs: Seq<SkillMeta>, t: Seq<char>)
    ensures
        forall|j: int|
            #![trigger postings_of(docs, t)[j]]
            0 <= j < postings_of(docs, t).len() ==> {
                let p = postings_of(docs, t)[j];
                &&& 0 <= p.0 < docs.len()
                &&& p.1 == term_count(doc_tokens(docs[p.0]), t)
                &&& p.1 > 0
            },
        forall|j1: int, j2: int|
            0 <= j1 < j2 < postings_of(docs, t).len() ==> postings_of(docs, t)[j1].0
                < postings_of(docs, t)[j2].0,
    decreases docs.len(),
{
    if docs.len() > 0 {
        lemma_postings_sound(docs.drop_last(), t);
        let prev = postings_of(docs.drop_last(), t);
        assert forall|j: int| 0 <= j < prev.len() implies #[trigger] docs.drop_last()[prev[j].0]
            == docs[prev[j].0] by {}
    }
}

/// Every document in which `t` occurs has a posting of `t`.
pub proof fn lemma_postings_complete(docs: Seq<SkillMeta>, t: Seq<char>, d: int)
    requires
        0 <= d < docs.len(),
        term_count(doc_tokens(docs[d]), t) > 0,
    ensures
        exists|j: int|
            0 <= j < postings_of(docs, t).len() && (#[trigger] postings_of(docs, t)[j]).0 == d,
    decreases docs.len(),
{
    let ps = postings_of(docs, t);
    if d == docs.len() - 1 {
        assert(ps[ps.len() - 1].0 == d);
    } else {
        lemma_postings_complete(docs.drop_last(), t, d);
        let prev = postings_of(docs.drop_last(), t);
        let j = choose|j: int| 0 <= j < prev.len() && (#[trigger] prev[j]).0 == d;
        assert(ps[j] == prev[j]);
    }
}

proof fn lemma_partial_start(docs: Seq<SkillMeta>, i: int, toks: Seq<Seq<char>>, t: Seq<char>)
    ensures
        partial_postings(docs, i, toks, 0, t) == postings_of(docs.take(i), t),
{
    assert(toks.take(0) =~= Seq::<Seq<char>>::empty());
    assert(partial_postings(docs, i, toks, 0, t) =~= postings_of(docs.take(i), t));
}

proof fn lemma_partial_step(docs: Seq<SkillMeta>, i: int, toks: Seq<Seq<char>>, k: int, t: Seq<char>)
    requires
        0 <= k < toks.len(),
    ensures
        term_count(toks.take(k + 1), t) == term_count(toks.take(k), t) + if toks[k] == t {
            1nat
        } else {
            0nat
        },
        toks[k] != t ==> partial_postings(docs, i, toks, k + 1, t) == partial_postings(
            docs,
            i,
            toks,
            k,
            t,
        ),
        toks[k] == t ==> partial_postings(docs, i, toks, k + 1, t) == postings_of(docs.take(i), t)
            + seq![(i, (term_count(toks.take(k), t) + 1) as int)],
{
    assert(toks.take(k + 1).drop_last() =~= toks.take(k));
}

proof fn lemma_partial_end(docs: Seq<SkillMeta>, i: int, toks: Seq<Seq<char>>, t: Seq<char>)
    requires
        0 <= i < docs.len(),
        toks == doc_tokens(docs[i]),
    ensures
        partial_postings(docs, i, toks, toks.len() as int, t) == postings_of(docs.take(i + 1), t),
{
    assert(toks.take(toks.len() as int) =~= toks);
    assert(docs.take(i + 1).drop_last() =~= docs.take(i));
}

/// The terms of a skill, as `doc_tokens` gives them.
fn doc_token_list(m: &SkillMeta) -> (r: Vec<String>)
    ensures
        r.deep_view() == doc_tokens(*m),
{
    let mut r = tokenize(m.name.as_str());
    let mut d = tokenize(m.description.as_str());
    let ghost r0 = r.deep_view();
    let ghost d0 = d.deep_view();
    r.append(&mut d);
    assert(r.deep_view() =~= r0 + d0);
    let ghost kws = m.keywords.deep_view();
    assert(kws.take(0) =~= Seq::<Seq<char>>::empty());
    assert(r.deep_view() =~= r0 + d0 + keyword_tokens(kws.take(0)));
    let mut k: usize = 0;
    while k < m.keywords.len()
        invariant
            0 <= k <= m.keywords.len(),
            kws == m.keywords.deep_view(),
            r0 == tokens(m.name@),
            d0 == tokens(m.description@),
            r.deep_view() == r0 + d0 + keyword_tokens(kws.take(k as int)),
        decreases m.keywords.len() - k,
    {
        let mut t = tokenize(m.keywords[k].as_str());
        let ghost before = r.deep_view();
        let ghost tv = t.deep_view();
        r.append(&mut t);
        proof {
            assert(r.deep_view() =~= before + tv);
            assert(kws.take(k + 1).drop_last() =~= kws.take(k as int));
            assert(kws.take(k + 1).last() == m.keywords[k as int]@);
        }
        k = k + 1;
        assert(r.deep_view() =~= r0 + d0 + keyword_tokens(kws.take(k as int)));
    }
    assert(kws.take(k as int) =~= kws);
    r
}

/// The position of `x` among `terms`, if it is there.
fn find_term(terms: &Vec<String>, x: &String) -> (r: Option<usize>)
    ensures
        r matches Some(j) ==> j < terms.len() && terms[j as int]@ == x@,
        r is None ==> forall|j: int| 0 <= j < terms.len() ==> terms[j]@ != x@,
{
    let mut j: usize = 0;
    while j < terms.len()
        invariant
            0 <= j <= terms.len(),
            forall|a: int| 0 <= a < j ==> terms[a]@ != x@,
        decreases terms.len() - j,
    {
        if terms[j] == *x {
            return Some(j);
        }
        j = j + 1;
    }
    None
}

/// One posting met while answering a query: the document, how often the
/// query word occurs in it, how many terms it has, and in how many documents
/// the word occurs.
#[derive(Debug, Clone, Copy)]
pub struct TermHit {
    pub doc: usize,
    pub tf: usize,
    pub doc_len: usize,
    pub doc_freq: usize,
}

/// The hits of one query word: its postings, each with the document's
/// length and the word's document frequency.
pub open spec fn word_hits(docs: Seq<SkillMeta>, w: Seq<char>) -> Seq<(int, int, int, int)> {
    postings_of(docs, w).map_values(
        |p: (int, int)| (p.0, p.1, doc_tokens(docs[p.0]).len() as int, postings_of(docs, w).len() as int),
    )
}

/// The hits of the query words, word after word.
pub open spec fn query_hits_of(docs: Seq<SkillMeta>, words: Seq<Seq<char>>) -> Seq<(int, int, int, int)>
    decreases words.len(),
{
    if words.len() == 0 {
        Seq::empty()
    } else {
        query_hits_of(docs, words.drop_last()) + word_hits(docs, words.last())
    }
}

/// The hits of a query are exactly the postings of its words: each hit
/// names a skill whose terms include some query word, with that word's
/// frequency in the skill, the skill's number of terms and the word's
/// document frequency; and each skill whose terms include a query word has
/// a hit.
pub proof fn lemma_query_hits_match(docs: Seq<SkillMeta>, words: Seq<Seq<char>>)
    ensures
        forall|x: int|
            #![trigger query_hits_of(docs, words)[x]]
            0 <= x < query_hits_of(docs, words).len() ==> {
                let h = query_hits_of(docs, words)[x];
                &&& 0 <= h.0 < docs.len()
                &&& h.2 == doc_tokens(docs[h.0]).len()
                &&& exists|k: int|
                    0 <= k < words.len() && h.1 == term_count(doc_tokens(docs[h.0]), #[trigger] words[k])
                        && h.1 > 0 && h.3 == postings_of(docs, words[k]).len()
            },
        forall|d: int, k: int|
            0 <= d < docs.len() && 0 <= k < words.len() && #[trigger] term_count(doc_tokens(docs[d]), words[k]) > 0
                ==> exists|x: int| 0 <= x < query_hits_of(docs, words).len() && (#[trigger] query_hits_of(docs, words)[x]).0 == d,
    decreases words.len(),
{
    if words.len() > 0 {
        let prev_words = words.drop_last();
        let w = words.last();
        lemma_query_hits_match(docs, prev_words);
        lemma_postings_sound(docs, w);
        let prev = query_hits_of(docs, prev_words);
        let wh = word_hits(docs, w);
        let all = query_hits_of(docs, words);
        assert(all == prev + wh);
        assert forall|x: int| #![trigger all[x]] 0 <= x < all.len() implies {
            let h = all[x];
            &&& 0 <= h.0 < docs.len()
            &&& h.2 == doc_tokens(docs[h.0]).len()
            &&& exists|k: int|
                0 <= k < words.len() && h.1 == term_count(doc_tokens(docs[h.0]), #[trigger] words[k])
                    && h.1 > 0 && h.3 == postings_of(docs, words[k]).len()
        } by {
            if x < prev.len() {
                assert(all[x] == prev[x]);
                let h = prev[x];
                let k = choose|k: int|
                    0 <= k < prev_words.len() && h.1 == term_count(doc_tokens(docs[h.0]), #[trigger] prev_words[k])
                        && h.1 > 0 && h.3 == postings_of(docs, prev_words[k]).len();
                assert(words[k] == prev_words[k]);
            } else {
                let y = x - prev.len();
                assert(all[x] == wh[y]);
                let p = postings_of(docs, w)[y];
                assert(words[words.len() - 1] == w);
            }
        }
        assert forall|d: int, k: int|
            0 <= d < docs.len() && 0 <= k < words.len() && #[trigger] term_count(doc_tokens(docs[d]), words[k]) > 0
                implies exists|x: int| 0 <= x < all.len() && (#[trigger] all[x]).0 == d by {
            if k < prev_words.len() {
                assert(words[k] == prev_words[k]);
                let x = choose|x: int| 0 <= x < prev.len() && (#[trigger] prev[x]).0 == d;
                assert(all[x] == prev[x]);
            } else {
                assert(words[k] == w);
                lemma_postings_complete(docs, w, d);
                let y = choose|y: int| 0 <= y < postings_of(docs, w).len() && (#[trigger] postings_of(docs, w)[y]).0 == d;
                assert(all[prev.len() + y] == wh[y]);
            }
        }
    }
}

/// The number of terms of all the keywords together.
pub open spec fn total_keyword_terms(kws: Seq<Seq<char>>) -> nat
    decreases kws.len(),
{
    if kws.len() == 0 {
        0
    } else {
        total_keyword_terms(kws.drop_last()) + tokens(kws.last()).len()
    }
}

/// A term occurs in a list of terms exactly when it is counted there.
pub proof fn lemma_term_count_contains(ts: Seq<Seq<char>>, t: Seq<char>)
    ensures
        term_count(ts, t) > 0 <==> ts.contains(t),
    decreases ts.len(),
{
    if ts.len() > 0 {
        lemma_term_count_contains(ts.drop_last(), t);
        if ts.drop_last().contains(t) {
            let j = choose|j: int| 0 <= j < ts.drop_last().len() && ts.drop_last()[j] == t;
            assert(ts[j] == t);
        }
        if ts.contains(t) {
            let j = choose|j: int| 0 <= j < ts.len() && ts[j] == t;
            if j < ts.len() - 1 {
                assert(ts.drop_last()[j] == t);
            }
        }
    }
}

/// The terms of every keyword occur, in order and together, among the
/// keyword terms, and there are no others.
proof fn lemma_keyword_tokens_parts(kws: Seq<Seq<char>>)
    ensures
        keyword_tokens(kws).len() == total_keyword_terms(kws),
        forall|k: int, t: Seq<char>|
            0 <= k < kws.len() && #[trigger] tokens(kws[k]).contains(t) ==> keyword_tokens(kws).contains(t),
    decreases kws.len(),
{
    if kws.len() > 0 {
        let prev = kws.drop_last();
        lemma_keyword_tokens_parts(prev);
        let a = keyword_tokens(prev);
        let b = tokens(kws.last());
        assert(keyword_tokens(kws) == a + b);
        assert forall|k: int, t: Seq<char>| 0 <= k < kws.len() && #[trigger] tokens(kws[k]).contains(t) implies keyword_tokens(
            kws,
        ).contains(t) by {
            if k < prev.len() {
                assert(prev[k] == kws[k]);
                let j = choose|j: int| 0 <= j < a.len() && a[j] == t;
                assert((a + b)[j] == t);
            } else {
                let j = choose|j: int| 0 <= j < b.len() && b[j] == t;
                assert((a + b)[a.len() + j] == t);
            }
        }
    }
}

/// A skill is indexed under every term of its name, of its description and
/// of each one of its keywords, and under nothing else: it has as many
/// terms as those together.
pub proof fn lemma_skill_terms_indexed(m: SkillMeta)
    ensures
        doc_tokens(m).len() == tokens(m.name@).len() + tokens(m.description@).len() + total_keyword_terms(
            m.keywords.deep_view(),
        ),
        forall|t: Seq<char>| #[trigger] tokens(m.name@).contains(t) ==> term_count(doc_tokens(m), t) > 0,
        forall|t: Seq<char>| #[trigger] tokens(m.description@).contains(t) ==> term_count(doc_tokens(m), t) > 0,
        forall|k: int, t: Seq<char>|
            0 <= k < m.keywords.len() && #[trigger] tokens(m.keywords[k]@).contains(t) ==> term_count(
                doc_tokens(m),
                t,
            ) > 0,
{
    let kws = m.keywords.deep_view();
    lemma_keyword_tokens_parts(kws);
    let a = tokens(m.name@);
    let b = tokens(m.description@);
    let c = keyword_tokens(kws);
    let all = doc_tokens(m);
    assert(all == a + b + c);
    assert forall|t: Seq<char>| #[trigger] a.contains(t) implies term_count(all, t) > 0 by {
        let j = choose|j: int| 0 <= j < a.len() && a[j] == t;
        assert(all[j] == t);
        lemma_term_count_contains(all, t);
    }
    assert forall|t: Seq<char>| #[trigger] b.contains(t) implies term_count(all, t) > 0 by {
        let j = choose|j: int| 0 <= j < b.len() && b[j] == t;
        assert(all[a.len() + j] == t);
        lemma_term_count_contains(all, t);
    }
    assert forall|k: int, t: Seq<char>|
        0 <= k < m.keywords.len() && #[trigger] tokens(m.keywords[k]@).contains(t) implies term_count(all, t) > 0 by {
        assert(kws[k] == m.keywords[k]@);
        assert(c.contains(t));
        let j = choose|j: int| 0 <= j < c.len() && c[j] == t;
        assert(all[a.len() + b.len() + j] == t);
        lemma_term_count_contains(all, t);
    }
}

/// A skill one of whose keywords has a query word among its terms matches
/// the query, and so is among the skills that retrieval scores.
pub proof fn lemma_keyword_match_is_hit(docs: Seq<SkillMeta>, words: Seq<Seq<char>>, d: int, k: int, q: int)
    requires
        0 <= d < docs.len(),
        0 <= k < docs[d].keywords.len(),
        0 <= q < words.len(),
        tokens(docs[d].keywords[k]@).contains(words[q]),
    ensures
        matches_query(docs, words, d),
{
    lemma_skill_terms_indexed(docs[d]);
    assert(term_count(doc_tokens(docs[d]), words[q]) > 0);
}

/// Skill `d` matches the query: its terms include one of the query words.
pub open spec fn matches_query(docs: Seq<SkillMeta>, words: Seq<Seq<char>>, d: int) -> bool {
    0 <= d < docs.len() && exists|k: int|
        0 <= k < words.len() && #[trigger] term_count(doc_tokens(docs[d]), words[k]) > 0
}

/// `ranked` lists every skill that matches the query, each exactly once,
/// and nothing else.
pub open spec fn ranks_matches(docs: Seq<SkillMeta>, words: Seq<Seq<char>>, ranked: Seq<usize>) -> bool {
    &&& forall|a: int, b: int| 0 <= a < b < ranked.len() ==> #[trigger] ranked[a] != #[trigger] ranked[b]
    &&& forall|x: int| 0 <= x < ranked.len() ==> matches_query(docs, words, #[trigger] ranked[x] as int)
    &&& forall|d: int|
        #[trigger] matches_query(docs, words, d) ==> exists|x: int| 0 <= x < ranked.len() && ranked[x] == d
}

/// `r` is the directory of the first skill of `skills` named `name`, or
/// none when no skill has that name.
pub open spec fn is_first_path(skills: Seq<SkillMeta>, name: Seq<char>, r: Option<PathBuf>) -> bool {
    match r {
        Some(p) => exists|d: int|
            0 <= d < skills.len() && #[trigger] skills[d].name@ == name && p == skills[d].path
                && forall|e: int| 0 <= e < d ==> skills[e].name@ != name,
        None => forall|d: int| 0 <= d < skills.len() ==> #[trigger] skills[d].name@ != name,
    }
}

pub open spec fn hit_view(h: TermHit) -> (int, int, int, int) {
    (h.doc as int, h.tf as int, h.doc_len as int, h.doc_freq as int)
}

/// An index over a list of skills.
pub struct SkillIndex {
    skills: Vec<SkillMeta>,
    terms: Vec<String>,
    postings: Vec<Vec<(usize, usize)>>,
    doc_lengths: Vec<usize>,
}

impl SkillIndex {
    /// The indexed skills, in the order they were given.
    pub closed spec fn skills(&self) -> Seq<SkillMeta> {
        self.skills@
    }

    #[verifier::type_invariant]
    spec fn wf(&self) -> bool {
        &&& self.doc_lengths.len() == self.skills.len()
        &&& forall|d: int|
            0 <= d < self.skills.len() ==> #[trigger] self.doc_lengths[d] == doc_tokens(
                self.skills@[d],
            ).len()
        &&& self.terms.len() == self.postings.len()
        &&& forall|a: int, b: int|
            0 <= a < b < self.terms.len() ==> #[trigger] self.terms[a]@ != #[trigger] self.terms[b]@
        &&& forall|j: int|
            0 <= j < self.terms.len() ==> postings_view(#[trigger] self.postings[j]@)
                == postings_of(self.skills@, self.terms[j]@)
        &&& forall|t: Seq<char>|
            #[trigger] postings_of(self.skills@, t).len() > 0 ==> exists|j: int|
                0 <= j < self.terms.len() && #[trigger] self.terms[j]@ == t
    }

    /// Indexes the skills: every term of every skill (see `doc_tokens`) gets
    /// its postings, and every skill its number of terms.
    pub fn new(skills: Vec<SkillMeta>) -> (r: Self)
        ensures
            r.skills() == skills@,
    {
        let ghost docs = skills@;
        let n = skills.len();
        let mut terms: Vec<String> = Vec::new();
        let mut postings: Vec<Vec<(usize, usize)>> = Vec::new();
        let mut doc_lengths: Vec<usize> = Vec::new();
        let mut i: usize = 0;
        proof {
            assert(docs.take(0) =~= Seq::<SkillMeta>::empty());
        }
        while i < n
            invariant
                docs == skills@,
                n == skills.len(),
                0 <= i <= n,
                doc_lengths.len() == i,
                forall|d: int| 0 <= d < i ==> #[trigger] doc_lengths[d] == doc_tokens(docs[d]).len(),
                terms.len() == postings.len(),
                forall|a: int, b: int|
                    0 <= a < b < terms.len() ==> #[trigger] terms[a]@ != #[trigger] terms[b]@,
                forall|j: int|
                    0 <= j < terms.len() ==> postings_view(#[trigger] postings[j]@) == postings_of(
                        docs.take(i as int),
                        terms[j]@,
                    ),
                forall|j: int|
                    0 <= j < terms.len() ==> postings_of(docs.take(i as int), #[trigger] terms[j]@).len() > 0,
                forall|t: Seq<char>|
                    #[trigger] postings_of(docs.take(i as int), t).len() > 0 ==> exists|j: int|
                        0 <= j < terms.len() && #[trigger] terms[j]@ == t,
            decreases n - i,
        {
            let toks = doc_token_list(&skills[i]);
            let ghost tv = toks.deep_view();
            let mut k: usize = 0;
            proof {
                assert forall|t: Seq<char>| #[trigger]
                    partial_postings(docs, i as int, tv, 0, t) == postings_of(docs.take(i as int), t) by {
                    lemma_partial_start(docs, i as int, tv, t);
                }
            }
            while k < toks.len()
                invariant
                    docs == skills@,
                    n == skills.len(),
                    0 <= i < n,
                    tv == toks.deep_view(),
                    tv == doc_tokens(docs[i as int]),
                    0 <= k <= toks.len(),
                    terms.len() == postings.len(),
                    forall|a: int, b: int|
                        0 <= a < b < terms.len() ==> #[trigger] terms[a]@ != #[trigger] terms[b]@,
                    forall|j: int|
                        0 <= j < terms.len() ==> postings_view(#[trigger] postings[j]@)
                            == partial_postings(docs, i as int, tv, k as int, terms[j]@),
                    forall|j: int|
                        0 <= j < terms.len() ==> partial_postings(docs, i as int, tv, k as int, #[trigger] terms[j]@).len() > 0,
                    forall|t: Seq<char>|
                        #[trigger] partial_postings(docs, i as int, tv, k as int, t).len() > 0
                            ==> exists|j: int| 0 <= j < terms.len() && #[trigger] terms[j]@ == t,
                decreases toks.len() - k,
            {
                let x = &toks[k];
                let ghost xv = x@;
                let ghost old_terms = terms@;
                let ghost old_postings = postings@;
                proof {
                    assert(tv[k as int] == xv);
                    lemma_term_count_bound(tv.take(k as int), xv);
                    lemma_postings_sound(docs.take(i as int), xv);
                    assert forall|t: Seq<char>| #[trigger] partial_postings(docs, i as int, tv, k + 1, t)
                        == if t == xv {
                            postings_of(docs.take(i as int), t) + seq![
                                (i as int, (term_count(tv.take(k as int), t) + 1) as int),
                            ]
                        } else {
                            partial_postings(docs, i as int, tv, k as int, t)
                        } by {
                        lemma_partial_step(docs, i as int, tv, k as int, t);
                    }
                }
                match find_term(&terms, x) {
                    Some(j) => {
                        let len = postings[j].len();
                        proof {
                            assert(postings_view(postings[j as int]@).len() > 0);
                        }
                        let last = postings[j][len - 1];
                        if last.0 == i {
                            let ghost c = term_count(tv.take(k as int), xv);
                            let ghost pv = postings_of(docs.take(i as int), xv);
                            proof {
                                if c == 0 {
                                    assert(postings_view(postings[j as int]@)[len - 1] == pv[len - 1]);
                                }
                                assert(postings_view(postings[j as int]@)[len - 1] == (i as int, c as int));
                                assert(last.1 == c);
                            }
                            let mut pj: Vec<(usize, usize)> = Vec::new();
                            postings.set_and_swap(j, &mut pj);
                            pj.set(len - 1, (i, last.1 + 1));
                            proof {
                                let ov = postings_view(old_postings[j as int]@);
                                assert(ov =~= pv + seq![(i as int, c as int)]);
                                assert(pj@ == old_postings[j as int]@.update(len - 1, (i, (last.1 + 1) as usize)));
                                assert forall|idx: int| 0 <= idx < len - 1 implies postings_view(pj@)[idx] == pv[idx] by {
                                    assert(pj@[idx] == old_postings[j as int]@[idx]);
                                    assert(ov[idx] == pv[idx]);
                                }
                                assert(postings_view(pj@) =~= pv + seq![(i as int, (c + 1) as int)]);
                            }
                            postings.set(j, pj);
                        } else {
                            let ghost c = term_count(tv.take(k as int), xv);
                            let ghost pv = postings_of(docs.take(i as int), xv);
                            proof {
                                if c > 0 {
                                    assert(postings_view(postings[j as int]@)[len - 1] == (i as int, c as int));
                                }
                                assert(postings_view(postings[j as int]@) =~= pv);
                            }
                            let mut pj: Vec<(usize, usize)> = Vec::new();
                            postings.set_and_swap(j, &mut pj);
                            pj.push((i, 1));
                            proof {
                                assert(postings_view(pj@) =~= pv + seq![(i as int, (c + 1) as int)]);
                            }
                            postings.set(j, pj);
                        }
                        proof {
                            assert forall|j2: int| 0 <= j2 < terms.len() implies postings_view(#[trigger] postings[j2]@)
                                == partial_postings(docs, i as int, tv, k + 1, terms[j2]@) by {
                                if j2 != j {
                                    assert(postings[j2]@ == old_postings[j2]@);
                                }
                            }
                            assert forall|t: Seq<char>|
                                #[trigger] partial_postings(docs, i as int, tv, k + 1, t).len() > 0
                                implies exists|j2: int| 0 <= j2 < terms.len() && #[trigger] terms[j2]@ == t by {
                                if t == xv {
                                    assert(terms[j as int]@ == t);
                                } else {
                                    assert(partial_postings(docs, i as int, tv, k as int, t).len() > 0);
                                }
                            }
                        }
                    }
                    None => {
                        proof {
                            assert(partial_postings(docs, i as int, tv, k as int, xv).len() == 0);
                            assert(term_count(tv.take(k as int), xv) == 0);
                        }
                        terms.push(x.clone());
                        let v = vec![(i, 1)];
                        postings.push(v);
                        proof {
                            let pv = postings_of(docs.take(i as int), xv);
                            assert(pv.len() == 0);
                            assert(postings_view(v@) =~= pv + seq![(i as int, 1int)]);
                            assert forall|j2: int| 0 <= j2 < terms.len() implies postings_view(#[trigger] postings[j2]@)
                                == partial_postings(docs, i as int, tv, k + 1, terms[j2]@) by {
                                if j2 < old_terms.len() {
                                    assert(postings[j2]@ == old_postings[j2]@);
                                    assert(terms[j2] == old_terms[j2]);
                                }
                            }
                            assert forall|t: Seq<char>|
                                #[trigger] partial_postings(docs, i as int, tv, k + 1, t).len() > 0
                                implies exists|j2: int| 0 <= j2 < terms.len() && #[trigger] terms[j2]@ == t by {
                                if t == xv {
                                    assert(terms[old_terms.len() as int]@ == t);
                                } else {
                                    assert(partial_postings(docs, i as int, tv, k as int, t).len() > 0);
                                    let j0 = choose|j0: int| 0 <= j0 < old_terms.len() && #[trigger] old_terms[j0]@ == t;
                                    assert(terms[j0] == old_terms[j0]);
                                }
                            }
                        }
                    }
                }
                k = k + 1;
            }
            doc_lengths.push(toks.len());
            proof {
                assert forall|t: Seq<char>| #[trigger]
                    partial_postings(docs, i as int, tv, tv.len() as int, t) == postings_of(docs.take(i + 1), t) by {
                    lemma_partial_end(docs, i as int, tv, t);
                }
                assert forall|t: Seq<char>|
                    #[trigger] postings_of(docs.take(i + 1), t).len() > 0 implies exists|j: int|
                        0 <= j < terms.len() && #[trigger] terms[j]@ == t by {
                    assert(partial_postings(docs, i as int, tv, k as int, t) == postings_of(docs.take(i + 1), t));
                }
            }
            i = i + 1;
        }
        proof {
            assert(docs.take(n as int) =~= docs);
        }
        SkillIndex { skills, terms, postings, doc_lengths }
    }

    /// The number of indexed skills.
    pub fn num_docs(&self) -> (n: usize)
        ensures
            n == self.skills().len(),
    {
        self.skills.len()
    }

    /// The number of terms of each skill, in skill order.
    pub fn doc_lengths(&self) -> (r: &[usize])
        ensures
            r@.len() == self.skills().len(),
            forall|d: int| 0 <= d < r@.len() ==> #[trigger] r@[d] == doc_tokens(self.skills()[d]).len(),
    {
        proof {
            use_type_invariant(self);
        }
        self.doc_lengths.as_slice()
    }

    /// In how many skills the term occurs.
    pub fn doc_freq(&self, term: &String) -> (n: usize)
        ensures
            n == postings_of(self.skills(), term@).len(),
    {
        proof {
            use_type_invariant(self);
        }
        match find_term(&self.terms, term) {
            Some(j) => self.postings[j].len(),
            None => {
                proof {
                    if postings_of(self.skills@, term@).len() > 0 {
                        let j = choose|j: int| 0 <= j < self.terms.len() && #[trigger] self.terms[j]@ == term@;
                    }
                }
                0
            },
        }
    }

    /// The postings met while scoring the query words against the index:
    /// for each word in turn, each skill that contains it (in skill order)
    /// with the word's frequency in the skill, the skill's number of terms,
    /// and the word's document frequency. Words that no skill contains
    /// contribute nothing.
    pub fn query_hits(&self, words: &Vec<String>) -> (r: Vec<TermHit>)
        ensures
            r@.map_values(|h: TermHit| hit_view(h)) == query_hits_of(self.skills(), words.deep_view()),
    {
        proof {
            use_type_invariant(self);
        }
        let ghost docs = self.skills@;
        let ghost wv = words.deep_view();
        let mut out: Vec<TermHit> = Vec::new();
        let mut w: usize = 0;
        proof {
            assert(wv.take(0) =~= Seq::<Seq<char>>::empty());
            assert(out@.map_values(|h: TermHit| hit_view(h)) =~= query_hits_of(docs, wv.take(0)));
        }
        while w < words.len()
            invariant
                docs == self.skills@,
                wv == words.deep_view(),
                0 <= w <= words.len(),
                out@.map_values(|h: TermHit| hit_view(h)) == query_hits_of(docs, wv.take(w as int)),
            decreases words.len() - w,
        {
            proof {
                use_type_invariant(self);
            }
            let ghost before = out@.map_values(|h: TermHit| hit_view(h));
            let ghost word = wv[w as int];
            let ghost wh = word_hits(docs, word);
            proof {
                assert(wv.take(w + 1).drop_last() =~= wv.take(w as int));
                assert(wv.take(w + 1).last() == word);
                lemma_postings_sound(docs, word);
            }
            match find_term(&self.terms, &words[w]) {
                Some(j) => {
                    let n = self.postings[j].len();
                    let mut q: usize = 0;
                    proof {
                        assert(postings_view(self.postings[j as int]@) == postings_of(docs, word));
                        assert(wh.take(0) =~= Seq::<(int, int, int, int)>::empty());
                        assert(out@.map_values(|h: TermHit| hit_view(h)) =~= before + wh.take(0));
                    }
                    while q < n
                        invariant
                            docs == self.skills@,
                            0 <= q <= n,
                            j < self.terms.len(),
                            n == self.postings[j as int]@.len(),
                            postings_view(self.postings[j as int]@) == postings_of(docs, word),
                            wh == word_hits(docs, word),
                            self.doc_lengths.len() == docs.len(),
                            forall|d: int|
                                0 <= d < docs.len() ==> #[trigger] self.doc_lengths[d] == doc_tokens(docs[d]).len(),
                            forall|x: int|
                                #![trigger postings_of(docs, word)[x]]
                                0 <= x < postings_of(docs, word).len() ==> 0 <= postings_of(docs, word)[x].0 < docs.len(),
                            out@.map_values(|h: TermHit| hit_view(h)) == before + wh.take(q as int),
                        decreases n - q,
                    {
                        proof {
                            use_type_invariant(self);
                        }
                        let (d, tf) = self.postings[j][q];
                        proof {
                            assert(postings_view(self.postings[j as int]@)[q as int] == (d as int, tf as int));
                            assert(postings_of(docs, word)[q as int] == (d as int, tf as int));
                        }
                        let hit = TermHit { doc: d, tf, doc_len: self.doc_lengths[d], doc_freq: n };
                        let ghost prev = out@;
                        out.push(hit);
                        proof {
                            assert(wh[q as int] == hit_view(hit));
                            assert(wh.take(q + 1) =~= wh.take(q as int).push(hit_view(hit)));
                            assert(out@ =~= prev.push(hit));
                            assert(out@.map_values(|h: TermHit| hit_view(h)) =~= prev.map_values(|h: TermHit| hit_view(h)).push(hit_view(hit)));
                            assert(out@.map_values(|h: TermHit| hit_view(h)) =~= before + wh.take(q + 1));
                        }
                        q = q + 1;
                    }
                    proof {
                        assert(wh.take(n as int) =~= wh);
                    }
                }
                None => {
                    proof {
                        if postings_of(docs, word).len() > 0 {
                            let j = choose|j: int| 0 <= j < self.terms.len() && #[trigger] self.terms[j]@ == word;
                        }
                        assert(wh =~= Seq::<(int, int, int, int)>::empty());
                        assert(before + wh =~= before);
                    }
                }
            }
            w = w + 1;
        }
        proof {
            assert(wv.take(words.len() as int) =~= wv);
        }
        out
    }

    /// The summaries of the first `top_k` skills, in order: what a query
    /// without terms retrieves.
    pub fn first_summaries(&self, top_k: usize) -> (r: Vec<SkillSummary>)
        ensures
            r.len() == if top_k < self.skills().len() { top_k as int } else { self.skills().len() as int },
            forall|x: int| 0 <= x < r.len() ==> summarizes(#[trigger] r[x], self.skills()[x]),
    {
        let m = if top_k < self.skills.len() { top_k } else { self.skills.len() };
        let mut out: Vec<SkillSummary> = Vec::new();
        let mut x: usize = 0;
        while x < m
            invariant
                0 <= x <= m,
                m <= self.skills.len(),
                out.len() == x,
                forall|y: int| 0 <= y < x ==> summarizes(#[trigger] out[y], self.skills@[y]),
            decreases m - x,
        {
            out.push(summary_of(&self.skills[x]));
            x = x + 1;
        }
        out
    }

    /// The directory of the first indexed skill with the given name.
    pub fn get_skill_path(&self, name: &str) -> (r: Option<PathBuf>)
        ensures
            is_first_path(self.skills(), name@, r),
    {
        let target = name.to_owned();
        let mut d: usize = 0;
        while d < self.skills.len()
            invariant
                0 <= d <= self.skills.len(),
                target@ == name@,
                forall|e: int| 0 <= e < d ==> self.skills@[e].name@ != name@,
            decreases self.skills.len() - d,
        {
            if self.skills[d].name == target {
                assert(self.skills()[d as int].name@ == name@);
                return Some(self.skills[d].path.clone());
            }
            d = d + 1;
        }
        None
    }

    /// The names of the indexed skills, in order.
    pub fn skill_names(&self) -> (r: Vec<String>)
        ensures
            r.len() == self.skills().len(),
            forall|d: int| 0 <= d < r.len() ==> #[trigger] r[d]@ == self.skills()[d].name@,
    {
        let mut out: Vec<String> = Vec::new();
        let mut d: usize = 0;
        while d < self.skills.len()
            invariant
                0 <= d <= self.skills.len(),
                out.len() == d,
                forall|e: int| 0 <= e < d ==> #[trigger] out[e]@ == self.skills@[e].name@,
            decreases self.skills.len() - d,
        {
            out.push(self.skills[d].name.clone());
            d = d + 1;
        }
        out
    }

    /// The skills that match the query words, each once, in the order of
    /// their first hit: the skills that retrieval scores.
    pub fn candidate_docs(&self, words: &Vec<String>) -> (r: Vec<usize>)
        ensures
            ranks_matches(self.skills(), words.deep_view(), r@),
    {
        let ghost docs = self.skills@;
        let ghost wv = words.deep_view();
        let hits = self.query_hits(words);
        let ghost hv = query_hits_of(docs, wv);
        proof {
            lemma_query_hits_match(docs, wv);
            assert(hits@.len() == hv.len());
            assert forall|y: int| 0 <= y < hits@.len() implies #[trigger] hits@[y].doc as int == hv[y].0 by {
                assert(hits@.map_values(|h: TermHit| hit_view(h))[y] == hit_view(hits@[y]));
            }
        }
        let mut out: Vec<usize> = Vec::new();
        let mut y: usize = 0;
        while y < hits.len()
            invariant
                0 <= y <= hits@.len(),
                docs == self.skills@,
                wv == words.deep_view(),
                hv == query_hits_of(docs, wv),
                hits@.len() == hv.len(),
                forall|z: int| 0 <= z < hits@.len() ==> #[trigger] hits@[z].doc as int == hv[z].0,
                forall|z: int|
                    #![trigger hv[z]]
                    0 <= z < hv.len() ==> {
                        let h = hv[z];
                        &&& 0 <= h.0 < docs.len()
                        &&& exists|k: int|
                            0 <= k < wv.len() && h.1 == term_count(doc_tokens(docs[h.0]), #[trigger] wv[k])
                                && h.1 > 0 && h.3 == postings_of(docs, wv[k]).len()
                    },
                forall|a: int, b: int| 0 <= a < b < out@.len() ==> #[trigger] out@[a] != #[trigger] out@[b],
                forall|x: int| 0 <= x < out@.len() ==> matches_query(docs, wv, #[trigger] out@[x] as int),
                forall|z: int| 0 <= z < y ==> exists|x: int| 0 <= x < out@.len() && out@[x] == #[trigger] hits@[z].doc,
            decreases hits@.len() - y,
        {
            let d = hits[y].doc;
            let mut seen = false;
            let mut x: usize = 0;
            while x < out.len()
                invariant
                    0 <= x <= out@.len(),
                    !seen ==> forall|q: int| 0 <= q < x ==> out@[q] != d,
                    seen ==> exists|q: int| 0 <= q < out@.len() && out@[q] == d,
                decreases out@.len() - x,
            {
                if out[x] == d {
                    seen = true;
                }
                x = x + 1;
            }
            let ghost prev = out@;
            proof {
                let h = hv[y as int];
                let k = choose|k: int|
                    0 <= k < wv.len() && h.1 == term_count(doc_tokens(docs[h.0]), #[trigger] wv[k])
                        && h.1 > 0 && h.3 == postings_of(docs, wv[k]).len();
                assert(term_count(doc_tokens(docs[d as int]), wv[k]) > 0);
                assert(matches_query(docs, wv, d as int));
            }
            if !seen {
                out.push(d);
                proof {
                    assert forall|z: int| 0 <= z < y + 1 implies exists|x: int|
                        0 <= x < out@.len() && out@[x] == #[trigger] hits@[z].doc by {
                        if z < y {
                            let x0 = choose|x0: int| 0 <= x0 < prev.len() && prev[x0] == hits@[z].doc;
                            assert(out@[x0] == prev[x0]);
                        } else {
                            assert(out@[prev.len() as int] == d);
                        }
                    }
                    assert forall|x: int| 0 <= x < out@.len() implies matches_query(docs, wv, #[trigger] out@[x] as int) by {
                        if x < prev.len() {
                            assert(out@[x] == prev[x]);
                        }
                    }
                }
            }
            y = y + 1;
        }
        proof {
            assert forall|d: int| #[trigger] matches_query(docs, wv, d) implies exists|x: int|
                0 <= x < out@.len() && out@[x] == d by {
                let k = choose|k: int| 0 <= k < wv.len() && #[trigger] term_count(doc_tokens(docs[d]), wv[k]) > 0;
                let z = choose|z: int| 0 <= z < hv.len() && (#[trigger] hv[z]).0 == d;
                assert(hits@[z].doc as int == hv[z].0);
            }
        }
        out
    }

    /// What retrieval hands back once the matching skills have been ranked:
    /// for a query without terms, the first `top_k` skills; otherwise the
    /// first `top_k` skills of the ranking, which lists every skill that
    /// matches the query once. Every skill returned then matches the query,
    /// none twice.
    pub fn retrieve_ranked(&self, query: &str, ranked: &[usize], top_k: usize) -> (r: Vec<SkillSummary>)
        requires
            tokens(query@).len() > 0 ==> ranks_matches(self.skills(), tokens(query@), ranked@),
        ensures
            tokens(query@).len() == 0 ==> {
                &&& r.len() == if top_k < self.skills().len() { top_k as int } else { self.skills().len() as int }
                &&& forall|x: int| 0 <= x < r.len() ==> summarizes(#[trigger] r[x], self.skills()[x])
            },
            tokens(query@).len() > 0 ==> {
                &&& r.len() == if top_k < ranked@.len() { top_k as int } else { ranked@.len() as int }
                &&& forall|x: int|
                    0 <= x < r.len() ==> summarizes(#[trigger] r[x], self.skills()[ranked@[x] as int])
                        && matches_query(self.skills(), tokens(query@), ranked@[x] as int)
                &&& forall|a: int, b: int| 0 <= a < b < r.len() ==> ranked@[a] != ranked@[b]
            },
    {
        let words = tokenize(query);
        if words.len() == 0 {
            return self.first_summaries(top_k);
        }
        let m = if top_k < ranked.len() { top_k } else { ranked.len() };
        let mut out: Vec<SkillSummary> = Vec::new();
        let mut x: usize = 0;
        while x < m
            invariant
                0 <= x <= m,
                m <= ranked@.len(),
                words.deep_view() == tokens(query@),
                ranks_matches(self.skills@, tokens(query@), ranked@),
                out.len() == x,
                forall|y: int| 0 <= y < x ==> summarizes(#[trigger] out[y], self.skills@[ranked@[y] as int]),
            decreases m - x,
        {
            let d = ranked[x];
            assert(matches_query(self.skills@, tokens(query@), ranked@[x as int] as int));
            out.push(summary_of(&self.skills[d]));
            x = x + 1;
        }
        out
    }
}

} // verus!

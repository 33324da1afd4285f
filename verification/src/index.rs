use vstd::prelude::*;
use crate::maps::{NumMap, StrMap, lemma_str_map_contains, lemma_str_map_get};
use crate::error::{RFSeeError, RFSeeResult};
use crate::parse::{first_match_from, normalize_title, replace_nl, split_chars, split_on};
use crate::score::{score_for, score_of};
use crate::text::{chars_of, i32_str_ok, i32_str_val, int_chars, push_i32_chars,
    string_from_chars};
use crate::tokenize::{token_count, tokenize, tokens_of};

verus! {

// The TF-IDF builder. Ingestion tokenizes each document body and keeps the
// exact token counts; finalization turns the counts into quantized scores
// through the fixed-point idf of score.rs.

/// One RFC as the fetch pipeline hands it over.
#[derive(Debug)]
pub struct RfcEntry {
    pub number: i32,
    pub url: String,
    pub title: String,
    pub content: Option<String>,
}

/// What the artifact keeps about an RFC besides its scores.
#[derive(Debug)]
pub struct RfcDetails {
    title: String,
}

impl RfcDetails {
    pub closed spec fn spec_title(&self) -> Seq<char> {
        self.title@
    }

    pub fn new(title: String) -> (r: Self)
        ensures
            r.spec_title() == title@,
    {
        RfcDetails { title }
    }

    pub fn title(&self) -> (r: &String)
        ensures
            r@ == self.spec_title(),
    {
        &self.title
    }
}

/// One ingested document: its RFC number and its exact token counts.
#[derive(Debug)]
pub struct ProcessedRfc {
    pub number: i32,
    pub counts: StrMap<u32>,
    pub total: u32,
}

/// A well-formed document: counts keyed once each, every count between one
/// and the token total.
pub open spec fn doc_wf(d: ProcessedRfc) -> bool {
    &&& d.counts.wf()
    &&& forall|t: Seq<char>| #[trigger]
        d.counts.as_map().contains_key(t) ==> 1 <= d.counts.as_map()[t] <= d.total
}

/// The persisted artifact: titles by RFC number and quantized scores by
/// term and RFC number.
#[derive(Debug)]
pub struct Index {
    pub rfc_details: NumMap<RfcDetails>,
    pub term_scores: StrMap<NumMap<i32>>,
}

impl Index {
    pub open spec fn wf(&self) -> bool {
        &&& self.rfc_details.wf()
        &&& self.term_scores.wf()
        &&& forall|t: Seq<char>| #[trigger]
            self.term_scores.as_map().contains_key(t) ==> self.term_scores.as_map()[t].wf()
    }

    /// Every RFC number in any posting list has details.
    pub open spec fn key_closed(&self) -> bool {
        forall|t: Seq<char>, n: int|
            self.term_scores.as_map().contains_key(t)
                && #[trigger] self.term_scores.as_map()[t].as_map().contains_key(n)
                ==> self.rfc_details.as_map().contains_key(n)
    }

    pub fn new() -> (r: Self)
        ensures
            r.wf(),
            r.key_closed(),
            r.rfc_details.pairs() == Seq::<(i32, RfcDetails)>::empty(),
            r.term_scores.pairs() == Seq::<(String, NumMap<i32>)>::empty(),
    {
        Index { rfc_details: NumMap::new(), term_scores: StrMap::new() }
    }
}

/// The sum of the counts of a count table.
pub open spec fn sum_u32(s: Seq<(String, u32)>) -> int
    decreases s.len(),
{
    if s.len() == 0 {
        0
    } else {
        sum_u32(s.drop_last()) + s.last().1
    }
}

proof fn lemma_sum_update(s: Seq<(String, u32)>, j: int, k: String, v: u32)
    requires
        0 <= j < s.len(),
    ensures
        sum_u32(s.update(j, (k, v))) == sum_u32(s) - s[j].1 + v,
    decreases s.len(),
{
    let t = s.update(j, (k, v));
    if j == s.len() - 1 {
        assert(t.drop_last() =~= s.drop_last());
    } else {
        assert(t.drop_last() =~= s.drop_last().update(j, (k, v)));
        lemma_sum_update(s.drop_last(), j, k, v);
    }
}

proof fn lemma_token_count_le(tokens: Seq<Seq<char>>, t: Seq<char>)
    ensures
        token_count(tokens, t) <= tokens.len(),
    decreases tokens.len(),
{
    if tokens.len() > 0 {
        lemma_token_count_le(tokens.drop_last(), t);
    }
}

/// How many of the ingested documents contain the term.
pub open spec fn df_of(docs: Seq<(String, ProcessedRfc)>, t: Seq<char>) -> nat
    decreases docs.len(),
{
    if docs.len() == 0 {
        0
    } else {
        df_of(docs.drop_last(), t) + if docs.last().1.counts.as_map().contains_key(t) {
            1nat
        } else {
            0nat
        }
    }
}

/// The position of the last ingested document that contains the term and
/// carries the given RFC number, or -1. Its count is the one that survives
/// the overwriting of colliding (term, number) pairs.
pub open spec fn last_contrib(docs: Seq<(String, ProcessedRfc)>, t: Seq<char>, n: int) -> int
    decreases docs.len(),
{
    if docs.len() == 0 {
        -1
    } else if docs.last().1.counts.as_map().contains_key(t) && docs.last().1.number == n {
        docs.len() - 1
    } else {
        last_contrib(docs.drop_last(), t, n)
    }
}

/// A finished posting list for term t: it holds exactly the numbers of the
/// documents containing t, each with the quantized score of its last
/// contributing document.
pub open spec fn posting_ok(
    pl: NumMap<i32>,
    docs: Seq<(String, ProcessedRfc)>,
    t: Seq<char>,
    ndocs: nat,
) -> bool {
    &&& pl.wf()
    &&& forall|n: int| #[trigger]
        pl.as_map().contains_key(n) <==> last_contrib(docs, t, n) >= 0
    &&& forall|n: int| #[trigger]
        pl.as_map().contains_key(n) ==> pl.as_map()[n] == score_of(
            docs[last_contrib(docs, t, n)].1.counts.as_map()[t] as nat,
            docs[last_contrib(docs, t, n)].1.total as nat,
            ndocs,
            df_of(docs, t),
        )
}

pub proof fn lemma_df_le(docs: Seq<(String, ProcessedRfc)>, t: Seq<char>)
    ensures
        df_of(docs, t) <= docs.len(),
    decreases docs.len(),
{
    if docs.len() > 0 {
        lemma_df_le(docs.drop_last(), t);
    }
}

pub proof fn lemma_df_pos(docs: Seq<(String, ProcessedRfc)>, t: Seq<char>)
    ensures
        df_of(docs, t) > 0 <==> exists|j: int|
            0 <= j < docs.len() && #[trigger] docs[j].1.counts.as_map().contains_key(t),
    decreases docs.len(),
{
    if docs.len() > 0 {
        let d = docs.drop_last();
        lemma_df_pos(d, t);
        if docs.last().1.counts.as_map().contains_key(t) {
            assert(docs[docs.len() - 1].1.counts.as_map().contains_key(t));
        }
        if df_of(d, t) > 0 {
            let j = choose|j: int|
                0 <= j < d.len() && #[trigger] d[j].1.counts.as_map().contains_key(t);
            assert(docs[j].1.counts.as_map().contains_key(t));
        }
        if exists|j: int|
            0 <= j < docs.len() && #[trigger] docs[j].1.counts.as_map().contains_key(t) {
            let j = choose|j: int|
                0 <= j < docs.len() && #[trigger] docs[j].1.counts.as_map().contains_key(t);
            if j < docs.len() - 1 {
                assert(d[j].1.counts.as_map().contains_key(t));
            }
        }
    }
}

pub proof fn lemma_last_contrib(docs: Seq<(String, ProcessedRfc)>, t: Seq<char>, n: int)
    ensures
        last_contrib(docs, t, n) >= 0 ==> 0 <= last_contrib(docs, t, n) < docs.len() && docs[
            last_contrib(docs, t, n)
        ].1.counts.as_map().contains_key(t) && docs[last_contrib(docs, t, n)].1.number == n,
    decreases docs.len(),
{
    if docs.len() > 0 {
        lemma_last_contrib(docs.drop_last(), t, n);
    }
}

impl Default for TfIdf {
    /// An empty builder.
    fn default() -> (r: Self)
        ensures
            r.wf(),
            r.processed.pairs() == Seq::<(String, ProcessedRfc)>::empty(),
            r.index.rfc_details.pairs() == Seq::<(i32, RfcDetails)>::empty(),
            r.index.term_scores.pairs() == Seq::<(String, NumMap<i32>)>::empty(),
    {
        TfIdf::new()
    }
}

/// The two-phase TF-IDF builder.
#[derive(Debug)]
pub struct TfIdf {
    pub processed: StrMap<ProcessedRfc>,
    pub index: Index,
}

impl TfIdf {
    pub open spec fn wf(&self) -> bool {
        &&& self.processed.wf()
        &&& self.index.wf()
        &&& forall|u: Seq<char>| #[trigger]
            self.processed.as_map().contains_key(u) ==> doc_wf(self.processed.as_map()[u])
                && self.index.rfc_details.as_map().contains_key(
                self.processed.as_map()[u].number as int,
            )
    }

    pub fn new() -> (r: Self)
        ensures
            r.wf(),
            r.processed.pairs() == Seq::<(String, ProcessedRfc)>::empty(),
            r.index.rfc_details.pairs() == Seq::<(i32, RfcDetails)>::empty(),
            r.index.term_scores.pairs() == Seq::<(String, NumMap<i32>)>::empty(),
    {
        TfIdf { processed: StrMap::new(), index: Index::new() }
    }

    /// Ingest one fetched RFC: tokenize its body, record the token counts
    /// under its URL, and keep its title under its number. An entry without
    /// a body is ignored; re-ingesting a URL overwrites its record.
    #[verifier::loop_isolation(false)]
    pub fn add_rfc_entry(&mut self, rfc: RfcEntry)
        requires
            old(self).wf(),
            rfc.content matches Some(c) ==> c@.len() < 0x100000000,
        ensures
            final(self).wf(),
            rfc.content is None ==> *final(self) == *old(self),
            rfc.content matches Some(c) ==> {
                let d = final(self).processed.as_map()[rfc.url@];
                &&& final(self).index.term_scores == old(self).index.term_scores
                &&& final(self).index.rfc_details.as_map() == old(
                    self,
                ).index.rfc_details.as_map().insert(
                    rfc.number as int,
                    final(self).index.rfc_details.as_map()[rfc.number as int],
                )
                &&& final(self).index.rfc_details.as_map()[rfc.number as int].spec_title()
                    == rfc.title@
                &&& final(self).processed.as_map() == old(self).processed.as_map().insert(
                    rfc.url@,
                    d,
                )
                &&& d.number == rfc.number
                &&& d.total == tokens_of(c@).len()
                &&& forall|t: Seq<char>| #[trigger]
                    d.counts.as_map().contains_key(t) <==> token_count(tokens_of(c@), t) > 0
                &&& forall|t: Seq<char>| #[trigger]
                    d.counts.as_map().contains_key(t) ==> d.counts.as_map()[t] == token_count(
                        tokens_of(c@),
                        t,
                    )
                &&& sum_u32(d.counts.pairs()) == d.total
            },
    {
        let RfcEntry { number, url, title, content } = rfc;
        match content {
            None => {},
            Some(c) => {
                let tokens = tokenize(c.as_str());
                let ghost tv = tokens_of(c@);
                let n = tokens.len();
                let total: u32 = n as u32;
                let mut counts: StrMap<u32> = StrMap::new();
                proof {
                    assert(tv.take(0) =~= Seq::<Seq<char>>::empty());
                }
                let mut i: usize = 0;
                while i < n
                    invariant
                        i <= n,
                        counts.wf(),
                        forall|t: Seq<char>| #[trigger]
                            counts.as_map().contains_key(t) <==> token_count(
                                tv.take(i as int),
                                t,
                            ) > 0,
                        forall|t: Seq<char>| #[trigger]
                            counts.as_map().contains_key(t) ==> counts.as_map()[t] == token_count(
                                tv.take(i as int),
                                t,
                            ),
                        sum_u32(counts.pairs()) == i,
                    decreases n - i,
                {
                    let tok = &tokens[i];
                    let ghost t0 = tv[i as int];
                    proof {
                        assert(tok@ == t0);
                        lemma_token_count_le(tv.take(i as int), t0);
                    }
                    let cur: u32 = match counts.get(tok.as_str()) {
                        Some(v) => *v,
                        None => 0,
                    };
                    let ghost oldpairs = counts.pairs();
                    let ghost oldmap = counts.as_map();
                    counts.insert(tok.clone(), cur + 1);
                    i += 1;
                    proof {
                        assert(tv.take(i as int).drop_last() =~= tv.take(i as int - 1));
                        assert(tv.take(i as int).last() == t0);
                        if oldmap.contains_key(t0) {
                            let j = choose|j: int|
                                0 <= j < oldpairs.len() && oldpairs[j].0@ == t0 && counts.pairs()
                                    == oldpairs.update(
                                    j,
                                    (counts.pairs()[j].0, ((cur + 1) as u32)),
                                );
                            lemma_str_map_get(oldpairs, j);
                            lemma_sum_update(oldpairs, j, counts.pairs()[j].0, (cur + 1) as u32);
                        } else {
                            assert(counts.pairs().drop_last() =~= oldpairs);
                        }
                    }
                }
                proof {
                    assert(tv.take(n as int) =~= tv);
                    assert forall|t: Seq<char>| #[trigger]
                        counts.as_map().contains_key(t) implies counts.as_map()[t]
                        <= total by {
                        lemma_token_count_le(tv, t);
                    }
                }
                let d = ProcessedRfc { number, counts, total };
                self.index.rfc_details.insert(number, RfcDetails::new(title));
                self.processed.insert(url, d);
            },
        }
    }

    /// Compute the final artifact from the ingested documents: for each
    /// observed term, one posting list holding the quantized score of that
    /// term in every document that contains it. Replaces any scores
    /// computed before.
    #[verifier::loop_isolation(false)]
    pub fn finish(&mut self)
        requires
            old(self).wf(),
            old(self).processed.pairs().len() < 0x100000000,
        ensures
            final(self).wf(),
            final(self).index.key_closed(),
            final(self).processed == old(self).processed,
            final(self).index.rfc_details == old(self).index.rfc_details,
            forall|t: Seq<char>| #[trigger]
                final(self).index.term_scores.as_map().contains_key(t) <==> df_of(
                    old(self).processed.pairs(),
                    t,
                ) > 0,
            forall|t: Seq<char>| #[trigger]
                final(self).index.term_scores.as_map().contains_key(t) ==> posting_ok(
                    final(self).index.term_scores.as_map()[t],
                    old(self).processed.pairs(),
                    t,
                    old(self).processed.pairs().len(),
                ),
    {
        let ghost docs = self.processed.pairs();
        let nd = self.processed.len();

        // Phase one: how many documents hold each term.
        let mut df: StrMap<u32> = StrMap::new();
        proof {
            assert(docs.take(0) =~= Seq::<(String, ProcessedRfc)>::empty());
        }
        let mut di: usize = 0;
        while di < nd
            invariant
                di <= nd,
                df.wf(),
                forall|t: Seq<char>| #[trigger]
                    df.as_map().contains_key(t) <==> df_of(docs.take(di as int), t) > 0,
                forall|t: Seq<char>| #[trigger]
                    df.as_map().contains_key(t) ==> df.as_map()[t] == df_of(
                        docs.take(di as int),
                        t,
                    ),
            decreases nd - di,
        {
            let dentry = self.processed.entry_at(di);
            let cn = &dentry.1.counts;
            let m = cn.len();
            proof {
                assert(doc_wf(docs[di as int].1));
            }
            let mut ki: usize = 0;
            while ki < m
                invariant
                    ki <= m,
                    df.wf(),
                    forall|t: Seq<char>| #[trigger]
                        df.as_map().contains_key(t) <==> df_of(docs.take(di as int), t) > 0
                            || exists|k: int| 0 <= k < ki && #[trigger] cn.pairs()[k].0@ == t,
                    forall|t: Seq<char>| #[trigger]
                        df.as_map().contains_key(t) ==> df.as_map()[t] == df_of(
                            docs.take(di as int),
                            t,
                        ) + if exists|k: int| 0 <= k < ki && #[trigger] cn.pairs()[k].0@ == t {
                            1int
                        } else {
                            0int
                        },
                decreases m - ki,
            {
                let kentry = cn.entry_at(ki);
                let term = &kentry.0;
                let ghost t0 = term@;
                proof {
                    // This key has not occurred earlier in this document.
                    assert(forall|k: int| 0 <= k < ki ==> #[trigger] cn.pairs()[k].0@ != t0);
                    lemma_df_le(docs.take(di as int), t0);
                }
                let cur: u32 = match df.get(term.as_str()) {
                    Some(v) => *v,
                    None => 0,
                };
                df.insert(term.clone(), cur + 1);
                ki += 1;
                proof {
                    assert(cn.pairs()[ki - 1].0@ == t0);
                }
            }
            di += 1;
            proof {
                assert(docs.take(di as int).drop_last() =~= docs.take(di as int - 1));
                assert(docs.take(di as int).last() == docs[di as int - 1]);
                assert(cn.pairs().take(m as int) =~= cn.pairs());
                assert forall|t: Seq<char>|
                    #![trigger docs[di as int - 1].1.counts.as_map().contains_key(t)]
                    (exists|k: int| 0 <= k < m && #[trigger] cn.pairs()[k].0@ == t)
                        <==> docs[di as int - 1].1.counts.as_map().contains_key(t) by {
                    lemma_str_map_contains(cn.pairs(), t);
                }
            }
        }
        proof {
            assert(docs.take(nd as int) =~= docs);
        }

        // Phase two: one posting list per observed term.
        let tn = df.len();
        let mut scores: StrMap<NumMap<i32>> = StrMap::new();
        let mut ti: usize = 0;
        while ti < tn
            invariant
                ti <= tn,
                scores.wf(),
                forall|t: Seq<char>| #[trigger]
                    scores.as_map().contains_key(t) <==> exists|k: int|
                        0 <= k < ti && #[trigger] df.pairs()[k].0@ == t,
                forall|t: Seq<char>| #[trigger]
                    scores.as_map().contains_key(t) ==> posting_ok(
                        scores.as_map()[t],
                        docs,
                        t,
                        docs.len(),
                    ),
            decreases tn - ti,
        {
            let tentry = df.entry_at(ti);
            let term = &tentry.0;
            let dfv: u32 = tentry.1;
            let ghost t0 = term@;
            proof {
                lemma_df_le(docs, t0);
                assert(docs.take(0) =~= Seq::<(String, ProcessedRfc)>::empty());
            }
            let mut pl: NumMap<i32> = NumMap::new();
            let mut dj: usize = 0;
            while dj < nd
                invariant
                    dj <= nd,
                    pl.wf(),
                    forall|n: int| #[trigger]
                        pl.as_map().contains_key(n) <==> last_contrib(
                            docs.take(dj as int),
                            t0,
                            n,
                        ) >= 0,
                    forall|n: int| #[trigger]
                        pl.as_map().contains_key(n) ==> {
                            let lc = last_contrib(docs.take(dj as int), t0, n);
                            pl.as_map()[n] == score_of(
                                docs[lc].1.counts.as_map()[t0] as nat,
                                docs[lc].1.total as nat,
                                docs.len(),
                                df_of(docs, t0),
                            )
                        },
                decreases nd - dj,
            {
                let dentry = self.processed.entry_at(dj);
                let doc = &dentry.1;
                proof {
                    assert(doc_wf(docs[dj as int].1));
                    assert(docs.take(dj as int + 1).drop_last() =~= docs.take(dj as int));
                    assert(docs.take(dj as int + 1).last() == docs[dj as int]);
                    lemma_last_contrib(docs.take(dj as int), t0, docs[dj as int].1.number as int);
                }
                match doc.counts.get(term.as_str()) {
                    Some(cnt) => {
                        proof {
                            lemma_df_pos(docs, t0);
                            assert(docs[dj as int].1.counts.as_map().contains_key(t0));
                        }
                        let sc = score_for(
                            *cnt as u64,
                            doc.total as u64,
                            nd as u64,
                            dfv as u64,
                        );
                        pl.insert(doc.number, sc);
                    },
                    None => {},
                }
                dj += 1;
            }
            proof {
                assert(docs.take(nd as int) =~= docs);
            }
            scores.insert(term.clone(), pl);
            ti += 1;
            proof {
                assert(df.pairs()[ti - 1].0@ == t0);
            }
        }
        self.index.term_scores = scores;
        proof {
            assert(docs.take(nd as int) == docs);
            assert forall|t: Seq<char>| #[trigger]
                self.index.term_scores.as_map().contains_key(t) <==> df_of(docs, t) > 0 by {
                lemma_str_map_contains(df.pairs(), t);
                if self.index.term_scores.as_map().contains_key(t) {
                    let k = choose|k: int| 0 <= k < tn && #[trigger] df.pairs()[k].0@ == t;
                    assert(df.as_map().contains_key(t));
                }
                if df_of(docs, t) > 0 {
                    assert(df.as_map().contains_key(t));
                    let k = choose|k: int|
                        0 <= k < df.pairs().len() && #[trigger] df.pairs()[k].0@ == t;
                    assert(0 <= k < tn && df.pairs()[k].0@ == t);
                }
            }
        }
        proof {
            // Every posting number is the number of some ingested document,
            // which ingestion gave details.
            assert forall|t: Seq<char>, n: int|
                self.index.term_scores.as_map().contains_key(t)
                    && #[trigger] self.index.term_scores.as_map()[t].as_map().contains_key(n)
                    implies self.index.rfc_details.as_map().contains_key(n) by {
                let lc = last_contrib(docs, t, n);
                lemma_last_contrib(docs, t, n);
                lemma_str_map_get(docs, lc);
            }
        }
    }
}

// Query evaluation: the aggregate score of a document over a sequence of
// posting lists, and the ordering of results by that aggregate.

/// The summed contribution of RFC number n among a posting list's entries.
pub open spec fn pairs_contrib(ps: Seq<(i32, i32)>, n: int) -> int
    decreases ps.len(),
{
    if ps.len() == 0 {
        0
    } else {
        pairs_contrib(ps.drop_last(), n) + if ps.last().0 == n {
            ps.last().1 as int
        } else {
            0int
        }
    }
}

/// RFC number n keys one of a posting list's entries.
pub open spec fn has_pair(ps: Seq<(i32, i32)>, n: int) -> bool {
    exists|j: int| 0 <= j < ps.len() && #[trigger] ps[j].0 == n
}

/// The aggregate score of RFC number n across the posting lists.
pub open spec fn sum_scores(lists: Seq<Seq<(i32, i32)>>, n: int) -> int
    decreases lists.len(),
{
    if lists.len() == 0 {
        0
    } else {
        sum_scores(lists.drop_last(), n) + pairs_contrib(lists.last(), n)
    }
}

/// How many postings the lists hold in all.
pub open spec fn total_postings(lists: Seq<Seq<(i32, i32)>>) -> int
    decreases lists.len(),
{
    if lists.len() == 0 {
        0
    } else {
        total_postings(lists.drop_last()) + lists.last().len()
    }
}

/// RFC number n has a posting in some list.
pub open spec fn appears(lists: Seq<Seq<(i32, i32)>>, n: int) -> bool {
    exists|i: int| 0 <= i < lists.len() && has_pair(#[trigger] lists[i], n)
}

/// The entry sequences of a sequence of posting lists.
pub open spec fn lists_pairs(ls: Seq<NumMap<i32>>) -> Seq<Seq<(i32, i32)>> {
    Seq::new(ls.len(), |i: int| ls[i].pairs())
}

/// RFC number n is a key of one of the pairs.
pub open spec fn in_pairs(ps: Seq<(i32, i64)>, n: int) -> bool {
    exists|j: int| 0 <= j < ps.len() && #[trigger] ps[j].0 == n
}

proof fn lemma_pairs_contrib_bound(ps: Seq<(i32, i32)>, n: int)
    ensures
        -(ps.len() * 0x80000000) <= pairs_contrib(ps, n) <= ps.len() * 0x80000000,
    decreases ps.len(),
{
    if ps.len() > 0 {
        lemma_pairs_contrib_bound(ps.drop_last(), n);
    }
}

proof fn lemma_pairs_contrib_absent(ps: Seq<(i32, i32)>, n: int)
    requires
        !has_pair(ps, n),
    ensures
        pairs_contrib(ps, n) == 0,
    decreases ps.len(),
{
    if ps.len() > 0 {
        assert(!has_pair(ps.drop_last(), n)) by {
            if has_pair(ps.drop_last(), n) {
                let j = choose|j: int|
                    0 <= j < ps.drop_last().len() && #[trigger] ps.drop_last()[j].0 == n;
                assert(ps[j].0 == n);
            }
        }
        lemma_pairs_contrib_absent(ps.drop_last(), n);
        assert(ps[ps.len() - 1].0 != n) by {
            if ps[ps.len() - 1].0 == n {
                assert(has_pair(ps, n));
            }
        }
    }
}

proof fn lemma_sum_scores_absent(lists: Seq<Seq<(i32, i32)>>, n: int)
    requires
        !appears(lists, n),
    ensures
        sum_scores(lists, n) == 0,
    decreases lists.len(),
{
    if lists.len() > 0 {
        let d = lists.drop_last();
        assert(!appears(d, n)) by {
            if appears(d, n) {
                let i = choose|i: int| 0 <= i < d.len() && has_pair(#[trigger] d[i], n);
                assert(has_pair(lists[i], n));
            }
        }
        lemma_sum_scores_absent(d, n);
        assert(!has_pair(lists[lists.len() - 1], n));
        lemma_pairs_contrib_absent(lists.last(), n);
    }
}

proof fn lemma_total_postings_nonneg(lists: Seq<Seq<(i32, i32)>>)
    ensures
        total_postings(lists) >= 0,
    decreases lists.len(),
{
    if lists.len() > 0 {
        lemma_total_postings_nonneg(lists.drop_last());
    }
}

proof fn lemma_total_postings_prefix(lists: Seq<Seq<(i32, i32)>>, i: int)
    requires
        0 <= i <= lists.len(),
    ensures
        total_postings(lists.take(i)) <= total_postings(lists),
    decreases lists.len(),
{
    if i == lists.len() {
        assert(lists.take(i) =~= lists);
    } else if lists.len() > 0 {
        assert(lists.take(i) =~= lists.drop_last().take(i));
        lemma_total_postings_prefix(lists.drop_last(), i);
    }
}

/// Combine per-term posting lists into one ranking: every RFC number that
/// has a posting appears exactly once, ordered by descending aggregate
/// score.
#[verifier::loop_isolation(false)]
pub fn combine_scores(scores: Vec<NumMap<i32>>) -> (r: Vec<i32>)
    requires
        forall|i: int| 0 <= i < scores@.len() ==> (#[trigger] scores@[i]).wf(),
        total_postings(lists_pairs(scores@)) < 0x100000000,
    ensures
        forall|n: i32| #[trigger] r@.contains(n) <==> appears(lists_pairs(scores@), n as int),
        forall|i: int, j: int| 0 <= i < j < r@.len() ==> r@[i] != r@[j],
        forall|i: int, j: int|
            0 <= i < j < r@.len() ==> sum_scores(lists_pairs(scores@), r@[i] as int) >= sum_scores(
                lists_pairs(scores@),
                r@[j] as int,
            ),
{
    let nl = scores.len();
    let ghost lp = lists_pairs(scores@);
    let mut combined: NumMap<i64> = NumMap::new();
    proof {
        assert(lp.take(0) =~= Seq::<Seq<(i32, i32)>>::empty());
        lemma_total_postings_nonneg(lp);
    }
    let mut li: usize = 0;
    while li < nl
        invariant
            li <= nl,
            combined.wf(),
            forall|n: int| #[trigger]
                combined.as_map().contains_key(n) <==> appears(lp.take(li as int), n),
            forall|n: int| #[trigger]
                combined.as_map().contains_key(n) ==> combined.as_map()[n] == sum_scores(
                    lp.take(li as int),
                    n,
                ),
            forall|n: int| #[trigger]
                combined.as_map().contains_key(n) ==> -(total_postings(lp.take(li as int))
                    * 0x80000000) <= combined.as_map()[n] <= total_postings(
                    lp.take(li as int),
                ) * 0x80000000,
        decreases nl - li,
    {
        let cl = &scores[li];
        let m = cl.len();
        proof {
            lemma_total_postings_nonneg(lp.take(li as int));
            assert(lp.take(li as int + 1).drop_last() =~= lp.take(li as int));
            assert(lp.take(li as int + 1).last() == cl.pairs());
            assert(cl.pairs().take(0) =~= Seq::<(i32, i32)>::empty());
            lemma_total_postings_prefix(lp, li as int + 1);
        }
        let mut k: usize = 0;
        while k < m
            invariant
                k <= m,
                combined.wf(),
                forall|n: int| #[trigger]
                    combined.as_map().contains_key(n) <==> appears(lp.take(li as int), n)
                        || exists|j: int| 0 <= j < k && #[trigger] cl.pairs()[j].0 == n,
                forall|n: int| #[trigger]
                    combined.as_map().contains_key(n) ==> combined.as_map()[n] == sum_scores(
                        lp.take(li as int),
                        n,
                    ) + pairs_contrib(cl.pairs().take(k as int), n),
                forall|n: int| #[trigger]
                    combined.as_map().contains_key(n) ==> -((total_postings(
                        lp.take(li as int),
                    ) + k) * 0x80000000) <= combined.as_map()[n] <= (total_postings(
                        lp.take(li as int),
                    ) + k) * 0x80000000,
            decreases m - k,
        {
            let e = *cl.entry_at(k);
            let ghost oldcmap = combined.as_map();
            let cur: i64 = match combined.get(e.0) {
                Some(v) => *v,
                None => 0,
            };
            proof {
                if !oldcmap.contains_key(e.0 as int) {
                    lemma_sum_scores_absent(lp.take(li as int), e.0 as int);
                    lemma_pairs_contrib_absent(cl.pairs().take(k as int), e.0 as int);
                }
            }
            combined.insert(e.0, cur + e.1 as i64);
            k += 1;
            proof {
                assert(cl.pairs().take(k as int).drop_last() =~= cl.pairs().take(k as int - 1));
                assert(cl.pairs().take(k as int).last() == cl.pairs()[k - 1]);
                assert(cl.pairs()[k - 1].0 == e.0);
            }
        }
        li += 1;
        proof {
            assert(cl.pairs().take(m as int) =~= cl.pairs());
            assert forall|n: int| #![trigger appears(lp.take(li as int), n)]
                appears(lp.take(li as int), n) <==> (appears(lp.take(li as int - 1), n)
                    || has_pair(cl.pairs(), n)) by {
                if appears(lp.take(li as int - 1), n) {
                    let i = choose|i: int|
                        0 <= i < li - 1 && has_pair(#[trigger] lp.take(li as int - 1)[i], n);
                    assert(has_pair(lp.take(li as int)[i], n));
                }
                if has_pair(cl.pairs(), n) {
                    assert(has_pair(lp.take(li as int)[li as int - 1], n));
                }
                if appears(lp.take(li as int), n) {
                    let i = choose|i: int|
                        0 <= i < li && has_pair(#[trigger] lp.take(li as int)[i], n);
                    if i < li - 1 {
                        assert(has_pair(lp.take(li as int - 1)[i], n));
                    }
                }
            }
        }
    }
    proof {
        assert(lp.take(nl as int) =~= lp);
    }

    // Pull the combined entries out and emit them best first.
    let cn = combined.len();
    let mut rem: Vec<(i32, i64)> = Vec::new();
    let mut ci: usize = 0;
    while ci < cn
        invariant
            ci <= cn,
            cn == combined.pairs().len(),
            rem@ == combined.pairs().take(ci as int),
        decreases cn - ci,
    {
        rem.push(*combined.entry_at(ci));
        ci += 1;
        proof {
            assert(rem@ =~= combined.pairs().take(ci as int));
        }
    }
    proof {
        assert(rem@ =~= combined.pairs());
        assert forall|j: int| 0 <= j < rem@.len() implies #[trigger] rem@[j].1 == sum_scores(
            lp,
            rem@[j].0 as int,
        ) by {
            crate::maps::lemma_num_map_get(combined.pairs(), j);
        }
        assert forall|n: int| #![trigger appears(lp, n)]
            appears(lp, n) <==> in_pairs(rem@, n) by {
            crate::maps::lemma_num_map_contains(combined.pairs(), n);
        }
    }
    let mut out: Vec<i32> = Vec::new();
    while rem.len() > 0
        invariant
            forall|n: i32| #![trigger appears(lp, n as int)]
                (out@.contains(n) || in_pairs(rem@, n as int)) <==> appears(lp, n as int),
            forall|i: int, j: int| 0 <= i < j < rem@.len() ==> rem@[i].0 != rem@[j].0,
            forall|i: int, j: int|
                0 <= i < out@.len() && 0 <= j < rem@.len() ==> out@[i] != rem@[j].0,
            forall|i: int, j: int| 0 <= i < j < out@.len() ==> out@[i] != out@[j],
            forall|j: int| 0 <= j < rem@.len() ==> #[trigger] rem@[j].1 == sum_scores(
                lp,
                rem@[j].0 as int,
            ),
            forall|i: int, j: int|
                0 <= i < j < out@.len() ==> sum_scores(lp, out@[i] as int) >= sum_scores(
                    lp,
                    out@[j] as int,
                ),
            forall|i: int, j: int|
                0 <= i < out@.len() && 0 <= j < rem@.len() ==> sum_scores(lp, out@[i] as int)
                    >= rem@[j].1,
        decreases rem@.len(),
    {
        let mut best: usize = 0;
        let mut bi: usize = 1;
        while bi < rem.len()
            invariant
                best < bi <= rem@.len(),
                forall|j: int| 0 <= j < bi ==> rem@[best as int].1 >= #[trigger] rem@[j].1,
            decreases rem@.len() - bi,
        {
            if rem[bi].1 > rem[best].1 {
                best = bi;
            }
            bi += 1;
        }
        let e = rem[best];
        let ghost oldout = out@;
        let ghost oldrem = rem@;
        out.push(e.0);
        rem.remove(best);
        proof {
            oldrem.remove_ensures(best as int);
            assert(rem@ == oldrem.remove(best as int));
            assert forall|n: int| #![trigger in_pairs(oldrem, n)]
                in_pairs(oldrem, n) <==> (n == e.0 as int || in_pairs(rem@, n)) by {
                if in_pairs(oldrem, n) {
                    let j = choose|j: int| 0 <= j < oldrem.len() && #[trigger] oldrem[j].0 == n;
                    if j < best {
                        assert(rem@[j].0 == n);
                    } else if j > best {
                        assert(rem@[j - 1].0 == n);
                    }
                }
                if in_pairs(rem@, n) {
                    let j = choose|j: int| 0 <= j < rem@.len() && #[trigger] rem@[j].0 == n;
                    if j < best {
                        assert(oldrem[j].0 == n);
                    } else {
                        assert(oldrem[j + 1].0 == n);
                    }
                }
                if n == e.0 as int {
                    assert(oldrem[best as int].0 == n);
                }
            }
            assert(out@ == oldout.push(e.0));
            assert(oldrem[best as int].1 == sum_scores(lp, oldrem[best as int].0 as int));
            assert(sum_scores(lp, e.0 as int) == e.1);
            assert forall|n: i32| #![trigger appears(lp, n as int)]
                (out@.contains(n) || in_pairs(rem@, n as int)) <==> appears(
                lp,
                n as int,
            ) by {
                assert(in_pairs(oldrem, n as int) <==> (n as int == e.0 as int || in_pairs(
                    rem@,
                    n as int,
                )));
                if out@.contains(n) {
                    let i = choose|i: int| 0 <= i < out@.len() && out@[i] == n;
                    if i < oldout.len() {
                        assert(oldout[i] == n);
                        assert(oldout.contains(n));
                    } else {
                        assert(n == e.0);
                        assert(in_pairs(oldrem, n as int)) by {
                            assert(oldrem[best as int].0 == n);
                        }
                    }
                }
                if appears(lp, n as int) {
                    if oldout.contains(n) {
                        let i = choose|i: int| 0 <= i < oldout.len() && oldout[i] == n;
                        assert(out@[i] == n);
                        assert(out@.contains(n));
                    } else {
                        assert(in_pairs(oldrem, n as int));
                        if n == e.0 {
                            assert(out@[out@.len() - 1] == n);
                            assert(out@.contains(n));
                        }
                    }
                }
            }
            // The freshly emitted number is new to out and its score is no
            // less than anything still waiting.
            assert(forall|i: int| 0 <= i < oldout.len() ==> out@[i] == #[trigger] oldout[i]);
            assert forall|j: int| 0 <= j < rem@.len() implies #[trigger] rem@[j].1 == sum_scores(
                lp,
                rem@[j].0 as int,
            ) by {
                if j < best {
                    assert(rem@[j] == oldrem[j]);
                } else {
                    assert(rem@[j] == oldrem[j + 1]);
                }
            }
            assert forall|i: int, j: int|
                0 <= i < out@.len() && 0 <= j < rem@.len() implies out@[i]
                != rem@[j].0 by {
                let oe = if j < best {
                    oldrem[j]
                } else {
                    oldrem[j + 1]
                };
                assert(rem@[j] == oe);
                if i < oldout.len() {
                } else {
                    assert(out@[i] == e.0);
                }
            }
            assert forall|i: int, j: int|
                0 <= i < out@.len() && 0 <= j < rem@.len() implies sum_scores(
                lp,
                out@[i] as int,
            ) >= rem@[j].1 by {
                let oe = if j < best {
                    oldrem[j]
                } else {
                    oldrem[j + 1]
                };
                assert(rem@[j] == oe);
                if i >= oldout.len() {
                    assert(out@[i] == e.0);
                }
            }
        }
    }
    proof {
        assert forall|n: i32| appears(lp, n as int) implies #[trigger] out@.contains(n) by {
            assert(!in_pairs(rem@, n as int));
        }
    }
    out
}

/// The canonical text URL of an RFC.
pub open spec fn rfc_url_chars(n: int) -> Seq<char> {
    "https://www.rfc-editor.org/rfc/rfc"@ + int_chars(n) + ".txt"@
}

/// Build the canonical text URL of an RFC.
#[verifier::loop_isolation(false)]
pub fn rfc_url(n: i32) -> (r: String)
    ensures
        r@ == rfc_url_chars(n as int),
{
    let mut v = chars_of("https://www.rfc-editor.org/rfc/rfc");
    push_i32_chars(&mut v, n);
    let ext = chars_of(".txt");
    let m = ext.len();
    let mut i: usize = 0;
    while i < m
        invariant
            i <= m,
            v@ == "https://www.rfc-editor.org/rfc/rfc"@ + int_chars(n as int) + ext@.take(i as int),
        decreases m - i,
    {
        v.push(ext[i]);
        i += 1;
        proof {
            assert(v@ =~= "https://www.rfc-editor.org/rfc/rfc"@ + int_chars(n as int) + ext@.take(
                i as int,
            ));
        }
    }
    proof {
        assert(ext@.take(m as int) =~= ext@);
        assert(v@ =~= rfc_url_chars(n as int));
    }
    string_from_chars(&v)
}

/// Assemble an RFC entry from a raw index record and its fetched body:
/// the record's number, the canonical URL, the title with continuation
/// lines folded, and the body.
pub fn build_rfc_entry(raw_rfc: &str, content: String) -> (r: RFSeeResult<RfcEntry>)
    ensures
        match r {
            Ok(e) => {
                let f = first_match_from(raw_rfc@, seq![' '], 0);
                &&& f >= 0
                &&& i32_str_ok(raw_rfc@.take(f))
                &&& e.number as int == i32_str_val(raw_rfc@.take(f))
                &&& e.url@ == rfc_url_chars(e.number as int)
                &&& e.title@ == replace_nl(raw_rfc@.skip(f + 1))
                &&& e.content == Some(content)
            },
            Err(e) => {
                let f = first_match_from(raw_rfc@, seq![' '], 0);
                (f < 0 || !i32_str_ok(raw_rfc@.take(f))) && e is ParseError
            },
        },
{
    match crate::parse::parse_rfc_details(raw_rfc) {
        Ok((number, title)) => Ok(
            RfcEntry {
                number,
                url: rfc_url(number),
                title: normalize_title(title.as_str()),
                content: Some(content),
            },
        ),
        Err(e) => Err(e),
    }
}

/// One ranked search result.
#[derive(Debug)]
pub struct RfcSearchResult {
    pub url: String,
    pub title: String,
}

/// The posting lists of the query's terms, in term order, absent terms
/// contributing nothing.
pub open spec fn gather_lists(terms: Seq<Seq<char>>, m: Map<Seq<char>, NumMap<i32>>) -> Seq<
    Seq<(i32, i32)>,
>
    decreases terms.len(),
{
    if terms.len() == 0 {
        Seq::empty()
    } else {
        gather_lists(terms.drop_last(), m) + if m.contains_key(terms.last()) {
            seq![m[terms.last()].pairs()]
        } else {
            Seq::empty()
        }
    }
}

/// A correct ranking: exactly the posted numbers, once each, by descending
/// aggregate score.
pub open spec fn ranked(nums: Seq<i32>, lists: Seq<Seq<(i32, i32)>>) -> bool {
    &&& forall|n: i32| #[trigger] nums.contains(n) <==> appears(lists, n as int)
    &&& forall|i: int, j: int| 0 <= i < j < nums.len() ==> nums[i] != nums[j]
    &&& forall|i: int, j: int|
        0 <= i < j < nums.len() ==> sum_scores(lists, nums[i] as int) >= sum_scores(
            lists,
            nums[j] as int,
        )
}

/// Results rendered from a ranking: the canonical URL of each number, and
/// its recorded title, or the placeholder where details are missing.
pub open spec fn rendered(
    rs: Seq<RfcSearchResult>,
    nums: Seq<i32>,
    details: NumMap<RfcDetails>,
) -> bool {
    &&& rs.len() == nums.len()
    &&& forall|i: int| 0 <= i < rs.len() ==> (#[trigger] rs[i]).url@ == rfc_url_chars(
        nums[i] as int,
    )
    &&& forall|i: int| 0 <= i < rs.len() ==> (#[trigger] rs[i]).title@ == if details.as_map(
    ).contains_key(nums[i] as int) {
        details.as_map()[nums[i] as int].spec_title()
    } else {
        "MISSING TITLE"@
    }
}

/// Answer a query against the artifact: split it on single spaces, merge
/// the terms' posting lists by adding scores, and render the documents in
/// descending aggregate order.
#[verifier::loop_isolation(false)]
pub fn search_index(search: String, index: Index) -> (r: Vec<RfcSearchResult>)
    requires
        index.wf(),
        total_postings(
            gather_lists(split_on(search@, seq![' ']), index.term_scores.as_map()),
        ) < 0x100000000,
    ensures
        exists|nums: Seq<i32>|
            ranked(
                nums,
                gather_lists(split_on(search@, seq![' ']), index.term_scores.as_map()),
            ) && rendered(r@, nums, index.rfc_details),
{
    let cs = chars_of(search.as_str());
    let sp: Vec<char> = vec![' '];
    proof {
        assert(sp@ =~= seq![' ']);
    }
    let terms = split_chars(&cs, &sp);
    let ghost tviews = split_on(search@, seq![' ']);
    let ghost m = index.term_scores.as_map();
    proof {
        assert(tviews.take(0) =~= Seq::<Seq<char>>::empty());
    }
    let tn = terms.len();
    let mut lists: Vec<NumMap<i32>> = Vec::new();
    let mut ti: usize = 0;
    while ti < tn
        invariant
            ti <= tn,
            lists_pairs(lists@) == gather_lists(tviews.take(ti as int), m),
            forall|i: int| 0 <= i < lists@.len() ==> (#[trigger] lists@[i]).wf(),
        decreases tn - ti,
    {
        let ghost oldlists = lists@;
        proof {
            assert(tviews.take(ti as int + 1).drop_last() =~= tviews.take(ti as int));
            assert(tviews.take(ti as int + 1).last() == tviews[ti as int]);
            assert(terms@[ti as int]@ == tviews[ti as int]);
        }
        match index.term_scores.get(terms[ti].as_str()) {
            Some(pl) => {
                let d = pl.duplicate();
                lists.push(d);
                proof {
                    assert(lists_pairs(lists@) =~= lists_pairs(oldlists) + seq![d.pairs()]);
                }
            },
            None => {},
        }
        ti += 1;
        proof {
            assert(lists_pairs(lists@) =~= gather_lists(tviews.take(ti as int), m));
        }
    }
    proof {
        assert(tviews.take(tn as int) =~= tviews);
    }
    let nums = combine_scores(lists);
    let nn = nums.len();
    let mut out: Vec<RfcSearchResult> = Vec::new();
    let mut k: usize = 0;
    while k < nn
        invariant
            k <= nn,
            out@.len() == k,
            forall|i: int| 0 <= i < k ==> (#[trigger] out@[i]).url@ == rfc_url_chars(
                nums@[i] as int,
            ),
            forall|i: int| 0 <= i < k ==> (#[trigger] out@[i]).title@ == if index.rfc_details.as_map(
            ).contains_key(nums@[i] as int) {
                index.rfc_details.as_map()[nums@[i] as int].spec_title()
            } else {
                "MISSING TITLE"@
            },
        decreases nn - k,
    {
        let n = nums[k];
        let url = rfc_url(n);
        let title: String = match index.rfc_details.get(n) {
            Some(d) => d.title().clone(),
            None => String::from_str("MISSING TITLE"),
        };
        out.push(RfcSearchResult { url, title });
        k += 1;
    }
    proof {
        assert(ranked(nums@, gather_lists(tviews, m)));
        assert(rendered(out@, nums@, index.rfc_details));
    }
    out
}

} // verus!

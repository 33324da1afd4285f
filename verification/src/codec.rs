use vstd::prelude::*;
use crate::error::{RFSeeError, RFSeeResult};
use crate::index::{Index, RfcDetails};
use crate::maps::{NumMap, StrMap};
use crate::text::{all_digits, chars_of, dec_digits, digits_val, int_chars, is_digit,
    lemma_dec_digits, push_i32_chars, push_u64_digits,
    range_to_string, string_from_chars};

verus! {

// The artifact codec. The on-disk form is a single text document: a header
// line, the title table, and the score table, every string length-prefixed
// and every number in canonical decimal, so that exactly one artifact reads
// back from what was written.
//
// header := "rfsee1\n"
// doc    := header count '\n' title-entry* count '\n' term-entry*
// title-entry := number ' ' length ' ' title-chars '\n'
// term-entry  := length ' ' term-chars ' ' count posting* '\n'
// posting     := ' ' number ' ' score

/// A size field every artifact stays under: 2^60.
pub const LEN_LIMIT: u64 = 0x1000000000000000;

pub open spec fn header() -> Seq<char> {
    seq!['r', 'f', 's', 'e', 'e', '1', '\n']
}

pub open spec fn enc_title_entry(p: (i32, RfcDetails)) -> Seq<char> {
    int_chars(p.0 as int) + seq![' '] + dec_digits(p.1.spec_title().len()) + seq![' ']
        + p.1.spec_title() + seq!['\n']
}

pub open spec fn enc_titles(ps: Seq<(i32, RfcDetails)>) -> Seq<char>
    decreases ps.len(),
{
    if ps.len() == 0 {
        Seq::empty()
    } else {
        enc_title_entry(ps[0]) + enc_titles(ps.drop_first())
    }
}

pub open spec fn enc_posting(q: (i32, i32)) -> Seq<char> {
    seq![' '] + int_chars(q.0 as int) + seq![' '] + int_chars(q.1 as int)
}

pub open spec fn enc_postings(qs: Seq<(i32, i32)>) -> Seq<char>
    decreases qs.len(),
{
    if qs.len() == 0 {
        Seq::empty()
    } else {
        enc_posting(qs[0]) + enc_postings(qs.drop_first())
    }
}

pub open spec fn enc_term_entry(p: (String, NumMap<i32>)) -> Seq<char> {
    dec_digits(p.0@.len()) + seq![' '] + p.0@ + seq![' '] + dec_digits(p.1.pairs().len())
        + enc_postings(p.1.pairs()) + seq!['\n']
}

pub open spec fn enc_terms(ps: Seq<(String, NumMap<i32>)>) -> Seq<char>
    decreases ps.len(),
{
    if ps.len() == 0 {
        Seq::empty()
    } else {
        enc_term_entry(ps[0]) + enc_terms(ps.drop_first())
    }
}

/// The document encoding an artifact.
pub open spec fn enc_index(ix: Index) -> Seq<char> {
    header() + dec_digits(ix.rfc_details.pairs().len()) + seq!['\n'] + enc_titles(
        ix.rfc_details.pairs(),
    ) + dec_digits(ix.term_scores.pairs().len()) + seq!['\n'] + enc_terms(ix.term_scores.pairs())
}

/// Every size field of the artifact is under the codec's limit.
pub open spec fn bounded(ix: Index) -> bool {
    &&& ix.rfc_details.pairs().len() < LEN_LIMIT
    &&& ix.term_scores.pairs().len() < LEN_LIMIT
    &&& forall|i: int|
        0 <= i < ix.rfc_details.pairs().len() ==> (
        #[trigger] ix.rfc_details.pairs()[i]).1.spec_title().len() < LEN_LIMIT
    &&& forall|i: int|
        0 <= i < ix.term_scores.pairs().len() ==> (#[trigger] ix.term_scores.pairs()[i]).0@.len()
            < LEN_LIMIT && ix.term_scores.pairs()[i].1.pairs().len() < LEN_LIMIT
}

/// The same artifact content: the tables hold the same entries in the same
/// order.
pub open spec fn same_artifact(a: Index, b: Index) -> bool {
    &&& a.rfc_details.pairs().len() == b.rfc_details.pairs().len()
    &&& forall|i: int|
        0 <= i < a.rfc_details.pairs().len() ==> (#[trigger] a.rfc_details.pairs()[i]).0
            == b.rfc_details.pairs()[i].0 && a.rfc_details.pairs()[i].1.spec_title()
            == b.rfc_details.pairs()[i].1.spec_title()
    &&& a.term_scores.pairs().len() == b.term_scores.pairs().len()
    &&& forall|i: int|
        0 <= i < a.term_scores.pairs().len() ==> (#[trigger] a.term_scores.pairs()[i]).0@
            == b.term_scores.pairs()[i].0@ && a.term_scores.pairs()[i].1.pairs()
            == b.term_scores.pairs()[i].1.pairs()
}

proof fn lemma_enc_titles_snoc(ps: Seq<(i32, RfcDetails)>, p: (i32, RfcDetails))
    ensures
        enc_titles(ps.push(p)) == enc_titles(ps) + enc_title_entry(p),
    decreases ps.len(),
{
    if ps.len() == 0 {
        assert(ps.push(p)[0] == p);
        assert(ps.push(p).drop_first() =~= Seq::<(i32, RfcDetails)>::empty());
        assert(enc_titles(Seq::<(i32, RfcDetails)>::empty()) == Seq::<char>::empty());
        assert(enc_titles(ps.push(p)) =~= enc_titles(ps) + enc_title_entry(p));
    } else {
        assert(ps.push(p).drop_first() =~= ps.drop_first().push(p));
        lemma_enc_titles_snoc(ps.drop_first(), p);
        assert(ps.push(p)[0] == ps[0]);
        assert(enc_titles(ps.push(p)) =~= enc_titles(ps) + enc_title_entry(p));
    }
}

proof fn lemma_enc_postings_snoc(qs: Seq<(i32, i32)>, q: (i32, i32))
    ensures
        enc_postings(qs.push(q)) == enc_postings(qs) + enc_posting(q),
    decreases qs.len(),
{
    if qs.len() == 0 {
        assert(qs.push(q)[0] == q);
        assert(qs.push(q).drop_first() =~= Seq::<(i32, i32)>::empty());
        assert(enc_postings(Seq::<(i32, i32)>::empty()) == Seq::<char>::empty());
        assert(enc_postings(qs.push(q)) =~= enc_postings(qs) + enc_posting(q));
    } else {
        assert(qs.push(q).drop_first() =~= qs.drop_first().push(q));
        lemma_enc_postings_snoc(qs.drop_first(), q);
        assert(qs.push(q)[0] == qs[0]);
        assert(enc_postings(qs.push(q)) =~= enc_postings(qs) + enc_posting(q));
    }
}

proof fn lemma_enc_terms_snoc(ps: Seq<(String, NumMap<i32>)>, p: (String, NumMap<i32>))
    ensures
        enc_terms(ps.push(p)) == enc_terms(ps) + enc_term_entry(p),
    decreases ps.len(),
{
    if ps.len() == 0 {
        assert(ps.push(p)[0] == p);
        assert(ps.push(p).drop_first() =~= Seq::<(String, NumMap<i32>)>::empty());
        assert(enc_terms(Seq::<(String, NumMap<i32>)>::empty()) == Seq::<char>::empty());
        assert(enc_terms(ps.push(p)) =~= enc_terms(ps) + enc_term_entry(p));
    } else {
        assert(ps.push(p).drop_first() =~= ps.drop_first().push(p));
        lemma_enc_terms_snoc(ps.drop_first(), p);
        assert(ps.push(p)[0] == ps[0]);
        assert(enc_terms(ps.push(p)) =~= enc_terms(ps) + enc_term_entry(p));
    }
}

/// Append one title-table entry.
#[verifier::loop_isolation(false)]
fn push_title_entry(v: &mut Vec<char>, e: &(i32, RfcDetails))
    ensures
        final(v)@ == old(v)@ + enc_title_entry(*e),
{
    let ghost oldv = v@;
    push_i32_chars(v, e.0);
    v.push(' ');
    let tc = chars_of(e.1.title().as_str());
    push_u64_digits(v, tc.len() as u64);
    v.push(' ');
    let tl = tc.len();
    let mut k: usize = 0;
    while k < tl
        invariant
            k <= tl,
            v@ == oldv + int_chars(e.0 as int) + seq![' '] + dec_digits(tc@.len()) + seq![' ']
                + tc@.take(k as int),
        decreases tl - k,
    {
        v.push(tc[k]);
        k += 1;
        proof {
            assert(v@ =~= oldv + int_chars(e.0 as int) + seq![' '] + dec_digits(tc@.len()) + seq![
                ' ',
            ] + tc@.take(k as int));
        }
    }
    v.push('\n');
    proof {
        assert(tc@.take(tl as int) =~= tc@);
        assert(v@ =~= oldv + enc_title_entry(*e));
    }
}

/// Append one score-table entry.
#[verifier::loop_isolation(false)]
#[verifier::rlimit(100)]
fn push_term_entry(v: &mut Vec<char>, e: &(String, NumMap<i32>))
    ensures
        final(v)@ == old(v)@ + enc_term_entry(*e),
{
    let ghost oldv = v@;
    let tc = chars_of(e.0.as_str());
    push_u64_digits(v, tc.len() as u64);
    v.push(' ');
    let tl = tc.len();
    let mut k: usize = 0;
    while k < tl
        invariant
            k <= tl,
            v@ == oldv + dec_digits(tc@.len()) + seq![' '] + tc@.take(k as int),
        decreases tl - k,
    {
        v.push(tc[k]);
        k += 1;
        proof {
            assert(v@ =~= oldv + dec_digits(tc@.len()) + seq![' '] + tc@.take(k as int));
        }
    }
    v.push(' ');
    let np = e.1.len();
    push_u64_digits(v, np as u64);
    let ghost phead = oldv + dec_digits(tc@.len()) + seq![' '] + tc@ + seq![' '] + dec_digits(
        np as nat,
    );
    proof {
        assert(tc@.take(tl as int) =~= tc@);
        assert(v@ =~= phead);
        assert(e.1.pairs().take(0) =~= Seq::<(i32, i32)>::empty());
    }
    let mut k: usize = 0;
    while k < np
        invariant
            k <= np,
            v@ == phead + enc_postings(e.1.pairs().take(k as int)),
        decreases np - k,
    {
        let q = *e.1.entry_at(k);
        push_space_int(v, q.0);
        push_space_int(v, q.1);
        k += 1;
        proof {
            lemma_enc_postings_snoc(e.1.pairs().take(k as int - 1), q);
            assert(e.1.pairs().take(k as int - 1).push(q) =~= e.1.pairs().take(k as int));
            assert(v@ =~= phead + enc_postings(e.1.pairs().take(k as int)));
        }
    }
    v.push('\n');
    proof {
        assert(e.1.pairs().take(np as int) =~= e.1.pairs());
        assert(v@ =~= oldv + enc_term_entry(*e));
    }
}

/// Write the artifact as its document.
#[verifier::loop_isolation(false)]
pub fn encode_index(ix: &Index) -> (r: String)
    ensures
        r@ == enc_index(*ix),
{
    let mut v: Vec<char> = Vec::new();
    v.push('r');
    v.push('f');
    v.push('s');
    v.push('e');
    v.push('e');
    v.push('1');
    v.push('\n');
    proof {
        assert(v@ =~= header());
    }
    let nd = ix.rfc_details.len();
    push_u64_digits(&mut v, nd as u64);
    v.push('\n');
    let ghost dhead = header() + dec_digits(nd as nat) + seq!['\n'];
    proof {
        assert(v@ =~= dhead);
        assert(ix.rfc_details.pairs().take(0) =~= Seq::<(i32, RfcDetails)>::empty());
    }
    let mut i: usize = 0;
    while i < nd
        invariant
            i <= nd,
            v@ == dhead + enc_titles(ix.rfc_details.pairs().take(i as int)),
        decreases nd - i,
    {
        let e = ix.rfc_details.entry_at(i);
        push_title_entry(&mut v, e);
        i += 1;
        proof {
            lemma_enc_titles_snoc(ix.rfc_details.pairs().take(i as int - 1), *e);
            assert(ix.rfc_details.pairs().take(i as int - 1).push(*e) =~= ix.rfc_details.pairs(
            ).take(i as int));
            assert(v@ =~= dhead + enc_titles(ix.rfc_details.pairs().take(i as int)));
        }
    }
    proof {
        assert(ix.rfc_details.pairs().take(nd as int) =~= ix.rfc_details.pairs());
    }
    let nt = ix.term_scores.len();
    push_u64_digits(&mut v, nt as u64);
    v.push('\n');
    let ghost thead = dhead + enc_titles(ix.rfc_details.pairs()) + dec_digits(nt as nat) + seq![
        '\n',
    ];
    proof {
        assert(v@ =~= thead);
        assert(ix.term_scores.pairs().take(0) =~= Seq::<(String, NumMap<i32>)>::empty());
    }
    let mut i: usize = 0;
    while i < nt
        invariant
            i <= nt,
            v@ == thead + enc_terms(ix.term_scores.pairs().take(i as int)),
        decreases nt - i,
    {
        let e = ix.term_scores.entry_at(i);
        push_term_entry(&mut v, e);
        i += 1;
        proof {
            lemma_enc_terms_snoc(ix.term_scores.pairs().take(i as int - 1), *e);
            assert(ix.term_scores.pairs().take(i as int - 1).push(*e) =~= ix.term_scores.pairs(
            ).take(i as int));
            assert(v@ =~= thead + enc_terms(ix.term_scores.pairs().take(i as int)));
        }
    }
    proof {
        assert(ix.term_scores.pairs().take(nt as int) =~= ix.term_scores.pairs());
        assert(v@ =~= enc_index(*ix));
    }
    string_from_chars(&v)
}

/// Append a space and a number.
fn push_space_int(v: &mut Vec<char>, n: i32)
    ensures
        final(v)@ == old(v)@ + seq![' '] + int_chars(n as int),
{
    v.push(' ');
    push_i32_chars(v, n);
}

/// The canonical digits of n stand at pos, followed by a non-digit or the
/// end of the text.
pub open spec fn dec_prefix_at(s: Seq<char>, pos: int, n: nat) -> bool {
    &&& 0 <= pos
    &&& pos + dec_digits(n).len() <= s.len()
    &&& s.subrange(pos, pos + dec_digits(n).len() as int) == dec_digits(n)
    &&& (pos + dec_digits(n).len() == s.len() || !is_digit(s[pos + dec_digits(n).len()]))
}

/// The canonical notation of v stands at pos, followed by a non-digit or
/// the end of the text.
pub open spec fn int_prefix_at(s: Seq<char>, pos: int, v: int) -> bool {
    &&& 0 <= pos
    &&& pos + int_chars(v).len() <= s.len()
    &&& s.subrange(pos, pos + int_chars(v).len() as int) == int_chars(v)
    &&& (pos + int_chars(v).len() == s.len() || !is_digit(s[pos + int_chars(v).len()]))
}

/// Read a canonical size field: digits without a leading zero, under the
/// codec's limit.
#[verifier::loop_isolation(false)]
fn scan_u64(cs: &Vec<char>, pos: usize) -> (r: Result<(u64, usize), ()>)
    requires
        pos <= cs@.len(),
    ensures
        r matches Ok(p) ==> pos < p.1 <= cs@.len() && p.0 < LEN_LIMIT && cs@.subrange(
            pos as int,
            p.1 as int,
        ) == dec_digits(p.0 as nat) && (p.1 == cs@.len() || !is_digit(cs@[p.1 as int])),
        forall|n: u64|
            n < LEN_LIMIT && #[trigger] dec_prefix_at(cs@, pos as int, n as nat) ==> (r matches Ok(
                p,
            ) && p.0 == n && p.1 == pos + dec_digits(n as nat).len()),
{
    let len = cs.len();
    let mut j: usize = pos;
    while j < len && cs[j] >= '0' && cs[j] <= '9'
        invariant
            pos <= j <= len,
            all_digits(cs@.subrange(pos as int, j as int)),
        decreases len - j,
    {
        j += 1;
        proof {
            assert(all_digits(cs@.subrange(pos as int, j as int))) by {
                assert(forall|i: int|
                    pos <= i < j - 1 ==> #[trigger] cs@.subrange(pos as int, j as int)[i - pos]
                        == cs@.subrange(pos as int, j as int - 1)[i - pos]);
                assert(cs@.subrange(pos as int, j as int)[j - 1 - pos] == cs@[j - 1]);
            }
        }
    }
    let ghost run = cs@.subrange(pos as int, j as int);
    proof {
        // Any candidate's digits are exactly this maximal run.
        assert forall|n: u64|
            n < LEN_LIMIT && #[trigger] dec_prefix_at(cs@, pos as int, n as nat) implies j
            == pos + dec_digits(n as nat).len() by {
            lemma_dec_digits(n as nat);
            let dl = dec_digits(n as nat).len() as int;
            if j < pos + dl {
                assert(is_digit(dec_digits(n as nat)[j - pos]));
                assert(cs@[j as int] == dec_digits(n as nat)[j - pos]);
            }
            if j > pos + dl {
                assert(is_digit(run[dl]));
                assert(cs@[pos + dl] == run[dl]);
            }
        }
    }
    if j == pos {
        proof {
            assert forall|n: u64|
                n < LEN_LIMIT && #[trigger] dec_prefix_at(cs@, pos as int, n as nat)
                implies false by {
                lemma_dec_digits(n as nat);
            }
        }
        return Err(());
    }
    if j - pos > 1 && cs[pos] == '0' {
        proof {
            assert forall|n: u64|
                n < LEN_LIMIT && #[trigger] dec_prefix_at(cs@, pos as int, n as nat)
                implies false by {
                lemma_dec_digits(n as nat);
                assert(dec_digits(n as nat)[0] == cs@[pos as int]);
            }
        }
        return Err(());
    }
    let mut acc: u64 = 0;
    let mut k: usize = pos;
    while k < j
        invariant
            pos <= k <= j,
            acc == digits_val(cs@.subrange(pos as int, k as int)),
            acc < LEN_LIMIT,
        decreases j - k,
    {
        let c = cs[k];
        proof {
            assert(cs@.subrange(pos as int, j as int)[k - pos] == c);
            assert(is_digit(c));
        }
        let d: u64 = (c as u32 - 48) as u64;
        acc = acc * 10 + d;
        k += 1;
        proof {
            assert(cs@.subrange(pos as int, k as int).drop_last() =~= cs@.subrange(
                pos as int,
                k as int - 1,
            ));
            assert(cs@.subrange(pos as int, k as int).last() == c);
        }
        if acc >= LEN_LIMIT {
            proof {
                assert(cs@.subrange(pos as int, k as int) =~= run.take(k - pos));
                assert forall|n: u64|
                    n < LEN_LIMIT && #[trigger] dec_prefix_at(cs@, pos as int, n as nat)
                    implies false by {
                    lemma_dec_digits(n as nat);
                    assert(run =~= dec_digits(n as nat));
                    crate::text::lemma_digits_val_prefix(run, k - pos);
                }
            }
            return Err(());
        }
    }
    proof {
        assert(cs@.subrange(pos as int, k as int) == run);
        crate::text::lemma_canonical_digits(run);
        assert forall|n: u64|
            n < LEN_LIMIT && #[trigger] dec_prefix_at(cs@, pos as int, n as nat) implies acc
            == n by {
            lemma_dec_digits(n as nat);
            assert(run =~= dec_digits(n as nat));
        }
    }
    Ok((acc, j))
}

/// Read a canonical 32-bit integer: an optional minus sign and digits
/// without a leading zero.
#[verifier::loop_isolation(false)]
fn scan_i32(cs: &Vec<char>, pos: usize) -> (r: Result<(i32, usize), ()>)
    requires
        pos <= cs@.len(),
    ensures
        r matches Ok(p) ==> pos < p.1 <= cs@.len() && cs@.subrange(pos as int, p.1 as int)
            == int_chars(p.0 as int) && (p.1 == cs@.len() || !is_digit(cs@[p.1 as int])),
        forall|v: i32| #[trigger]
            int_prefix_at(cs@, pos as int, v as int) ==> (r matches Ok(p) && p.0 == v && p.1 == pos
                + int_chars(v as int).len()),
{
    let len = cs.len();
    let neg = pos < len && cs[pos] == '-';
    let dstart: usize = if neg {
        pos + 1
    } else {
        pos
    };
    proof {
        assert forall|v: i32| #[trigger] int_prefix_at(cs@, pos as int, v as int) implies (v < 0
            <==> neg) by {
            lemma_dec_digits((if v < 0 {
                -(v as int)
            } else {
                v as int
            }) as nat);
            if v < 0 {
                assert(cs@[pos as int] == int_chars(v as int)[0]);
            } else {
                assert(cs@[pos as int] == int_chars(v as int)[0]);
                assert(is_digit(cs@[pos as int]));
            }
        }
    }
    let mut j: usize = dstart;
    while j < len && cs[j] >= '0' && cs[j] <= '9'
        invariant
            dstart <= j <= len,
            all_digits(cs@.subrange(dstart as int, j as int)),
        decreases len - j,
    {
        j += 1;
        proof {
            assert(all_digits(cs@.subrange(dstart as int, j as int))) by {
                assert(forall|i: int|
                    dstart <= i < j - 1 ==> #[trigger] cs@.subrange(dstart as int, j as int)[i
                        - dstart] == cs@.subrange(dstart as int, j as int - 1)[i - dstart]);
                assert(cs@.subrange(dstart as int, j as int)[j - 1 - dstart] == cs@[j - 1]);
            }
        }
    }
    let ghost run = cs@.subrange(dstart as int, j as int);
    proof {
        assert forall|v: i32| #[trigger] int_prefix_at(cs@, pos as int, v as int) implies j
            == dstart + dec_digits(
            (if v < 0 {
                -(v as int)
            } else {
                v as int
            }) as nat,
        ).len() && run =~= dec_digits(
            (if v < 0 {
                -(v as int)
            } else {
                v as int
            }) as nat,
        ) by {
            let m = (if v < 0 {
                -(v as int)
            } else {
                v as int
            }) as nat;
            lemma_dec_digits(m);
            let dl = dec_digits(m).len() as int;
            assert forall|q: int| 0 <= q < dl implies cs@[dstart + q] == dec_digits(m)[q] by {
                assert(int_chars(v as int)[q + dstart - pos] == dec_digits(m)[q]);
            }
            if j < dstart + dl {
                assert(is_digit(dec_digits(m)[j - dstart]));
                assert(cs@[j as int] == dec_digits(m)[j - dstart]);
            }
            if j > dstart + dl {
                assert(pos + int_chars(v as int).len() == dstart + dl);
                assert(is_digit(run[dl]));
                assert(cs@[dstart + dl] == run[dl]);
            }
        }
    }
    if j == dstart {
        proof {
            assert forall|v: i32| #[trigger] int_prefix_at(cs@, pos as int, v as int)
                implies false by {
                lemma_dec_digits((if v < 0 {
                    -(v as int)
                } else {
                    v as int
                }) as nat);
            }
        }
        return Err(());
    }
    if j - dstart > 1 && cs[dstart] == '0' {
        proof {
            assert forall|v: i32| #[trigger] int_prefix_at(cs@, pos as int, v as int)
                implies false by {
                let m = (if v < 0 {
                    -(v as int)
                } else {
                    v as int
                }) as nat;
                lemma_dec_digits(m);
                assert(run =~= dec_digits(m));
            }
        }
        return Err(());
    }
    let mut acc: u64 = 0;
    let mut k: usize = dstart;
    while k < j
        invariant
            dstart <= k <= j,
            acc == digits_val(cs@.subrange(dstart as int, k as int)),
            acc <= 0x80000000,
        decreases j - k,
    {
        let c = cs[k];
        proof {
            assert(cs@.subrange(dstart as int, j as int)[k - dstart] == c);
            assert(is_digit(c));
        }
        let d: u64 = (c as u32 - 48) as u64;
        acc = acc * 10 + d;
        k += 1;
        proof {
            assert(cs@.subrange(dstart as int, k as int).drop_last() =~= cs@.subrange(
                dstart as int,
                k as int - 1,
            ));
            assert(cs@.subrange(dstart as int, k as int).last() == c);
        }
        if acc > 0x80000000 {
            proof {
                assert(cs@.subrange(dstart as int, k as int) =~= run.take(k - dstart));
                assert forall|v: i32| #[trigger] int_prefix_at(cs@, pos as int, v as int)
                    implies false by {
                    let m = (if v < 0 {
                        -(v as int)
                    } else {
                        v as int
                    }) as nat;
                    lemma_dec_digits(m);
                    assert(run =~= dec_digits(m));
                    crate::text::lemma_digits_val_prefix(run, k - dstart);
                }
            }
            return Err(());
        }
    }
    proof {
        assert(cs@.subrange(dstart as int, k as int) == run);
        crate::text::lemma_canonical_digits(run);
        assert forall|v: i32| #[trigger] int_prefix_at(cs@, pos as int, v as int) implies acc == (
        if v < 0 {
            -(v as int)
        } else {
            v as int
        }) by {
            let m = (if v < 0 {
                -(v as int)
            } else {
                v as int
            }) as nat;
            lemma_dec_digits(m);
            assert(run =~= dec_digits(m));
        }
    }
    if neg {
        if acc == 0 {
            proof {
                assert forall|v: i32| #[trigger] int_prefix_at(cs@, pos as int, v as int)
                    implies false by {
                    crate::text::lemma_digits_val_min(run);
                }
            }
            return Err(());
        }
        let v = (-(acc as i64)) as i32;
        proof {
            assert(cs@.subrange(pos as int, j as int) =~= seq!['-'] + run);
            assert(cs@.subrange(pos as int, j as int) =~= int_chars(v as int));
        }
        Ok((v, j))
    } else {
        if acc > 0x7fffffff {
            proof {
                assert forall|v: i32| #[trigger] int_prefix_at(cs@, pos as int, v as int)
                    implies false by {
                }
            }
            return Err(());
        }
        let v = acc as i32;
        proof {
            assert(cs@.subrange(pos as int, j as int) =~= int_chars(v as int));
        }
        Ok((v, j))
    }
}

/// Splitting a known concatenation at a position splits its slice.
proof fn lemma_prefix_split(s: Seq<char>, pos: int, a: Seq<char>, b: Seq<char>)
    requires
        0 <= pos,
        pos + a.len() + b.len() <= s.len(),
        s.subrange(pos, pos + a.len() + b.len()) == a + b,
    ensures
        s.subrange(pos, pos + a.len() as int) == a,
        s.subrange(pos + a.len() as int, pos + a.len() + b.len()) == b,
{
    let l1 = a.len() as int;
    let l2 = b.len() as int;
    assert forall|i: int| 0 <= i < l1 implies s[pos + i] == a[i] by {
        assert((a + b)[i] == a[i]);
        assert(s.subrange(pos, pos + l1 + l2)[i] == s[pos + i]);
    }
    assert forall|i: int| 0 <= i < l2 implies s[pos + l1 + i] == b[i] by {
        assert((a + b)[l1 + i] == b[i]);
        assert(s.subrange(pos, pos + l1 + l2)[l1 + i] == s[pos + l1 + i]);
    }
    assert(s.subrange(pos, pos + l1) =~= a);
    assert(s.subrange(pos + l1, pos + l1 + l2) =~= b);
}

/// One title-table entry, laid out at a position.
pub open spec fn title_entry_chars(n: int, tv: Seq<char>) -> Seq<char> {
    int_chars(n) + seq![' '] + dec_digits(tv.len()) + seq![' '] + tv + seq!['\n']
}

pub open spec fn title_entry_at(s: Seq<char>, pos: int, n: i32, tv: Seq<char>) -> bool {
    &&& 0 <= pos
    &&& tv.len() < LEN_LIMIT
    &&& pos + title_entry_chars(n as int, tv).len() <= s.len()
    &&& s.subrange(pos, pos + title_entry_chars(n as int, tv).len() as int) == title_entry_chars(
        n as int,
        tv,
    )
}

/// Read one title-table entry.
#[verifier::loop_isolation(false)]
#[verifier::rlimit(100)]
fn parse_title_entry(cs: &Vec<char>, pos: usize) -> (r: Result<(i32, String, usize), ()>)
    requires
        pos <= cs@.len(),
    ensures
        r matches Ok(p) ==> pos < p.2 <= cs@.len() && p.1@.len() < LEN_LIMIT && cs@.subrange(
            pos as int,
            p.2 as int,
        ) == title_entry_chars(p.0 as int, p.1@),
        forall|n: i32, tv: Seq<char>| #[trigger]
            title_entry_at(cs@, pos as int, n, tv) ==> (r matches Ok(p) && p.0 == n && p.1@ == tv
                && p.2 == pos + title_entry_chars(n as int, tv).len()),
{
    proof {
        assert forall|n: i32, tv: Seq<char>| #[trigger] title_entry_at(cs@, pos as int, n, tv)
            implies int_prefix_at(cs@, pos as int, n as int) && cs@[pos + int_chars(
            n as int,
        ).len()] == ' ' && dec_prefix_at(cs@, pos + int_chars(n as int).len() + 1, tv.len())
            && cs@[pos + int_chars(n as int).len() + 1 + dec_digits(tv.len()).len()] == ' '
            && cs@.subrange(
            pos + int_chars(n as int).len() + 2 + dec_digits(tv.len()).len(),
            pos + int_chars(n as int).len() + 2 + dec_digits(tv.len()).len() + tv.len(),
        ) == tv && cs@[pos + int_chars(n as int).len() + 2 + dec_digits(tv.len()).len()
            + tv.len()] == '\n' by {
            let ic = int_chars(n as int);
            let dl = dec_digits(tv.len());
            let e = title_entry_chars(n as int, tv);
            let r1 = seq![' '] + dl + seq![' '] + tv + seq!['\n'];
            assert(e =~= ic + r1);
            lemma_prefix_split(cs@, pos as int, ic, r1);
            let r2 = dl + seq![' '] + tv + seq!['\n'];
            assert(r1 =~= seq![' '] + r2);
            lemma_prefix_split(cs@, pos + ic.len(), seq![' '], r2);
            let r3 = seq![' '] + tv + seq!['\n'];
            assert(r2 =~= dl + r3);
            lemma_prefix_split(cs@, pos + ic.len() + 1, dl, r3);
            let r4 = tv + seq!['\n'];
            assert(r3 =~= seq![' '] + r4);
            lemma_prefix_split(cs@, pos + ic.len() + 1 + dl.len(), seq![' '], r4);
            lemma_prefix_split(cs@, pos + ic.len() + 2 + dl.len(), tv, seq!['\n']);
            assert(cs@.subrange(pos + ic.len(), pos + ic.len() + 1)[0] == ' ');
            assert(cs@.subrange(
                pos + ic.len() + 1 + dl.len(),
                pos + ic.len() + 2 + dl.len(),
            )[0] == ' ');
            assert(cs@.subrange(
                pos + ic.len() + 2 + dl.len() + tv.len(),
                pos + ic.len() + 3 + dl.len() + tv.len(),
            )[0] == '\n');
        }
    }
    let (num, p1) = match scan_i32(cs, pos) {
        Ok(x) => x,
        Err(_) => {
            return Err(());
        },
    };
    let p2 = match expect_ch(cs, p1, ' ') {
        Ok(x) => x,
        Err(_) => {
            return Err(());
        },
    };
    let (tl, p3) = match scan_u64(cs, p2) {
        Ok(x) => x,
        Err(_) => {
            return Err(());
        },
    };
    let p4 = match expect_ch(cs, p3, ' ') {
        Ok(x) => x,
        Err(_) => {
            return Err(());
        },
    };
    let rem: u64 = (cs.len() - p4) as u64;
    if tl > rem {
        proof {
            assert forall|n: i32, tv: Seq<char>| #[trigger] title_entry_at(cs@, pos as int, n, tv)
                implies false by {
                crate::text::lemma_dec_digits(tv.len());
            }
        }
        return Err(());
    }
    let tlu: usize = tl as usize;
    let title = range_to_string(cs, p4, p4 + tlu);
    let p5 = match expect_ch(cs, p4 + tlu, '\n') {
        Ok(x) => x,
        Err(_) => {
            proof {
                assert forall|n: i32, tv: Seq<char>|
                    #[trigger] title_entry_at(cs@, pos as int, n, tv) implies false by {
                    crate::text::lemma_dec_digits(tv.len());
                }
            }
            return Err(());
        },
    };
    proof {
        assert(cs@.subrange(pos as int, p5 as int) =~= title_entry_chars(num as int, title@));
        assert forall|n: i32, tv: Seq<char>| #[trigger] title_entry_at(cs@, pos as int, n, tv)
            implies num == n && title@ == tv && p5 == pos + title_entry_chars(
            n as int,
            tv,
        ).len() by {
            crate::text::lemma_dec_digits(tv.len());
        }
    }
    Ok((num, title, p5))
}

/// One score-table entry, laid out at a position.
pub open spec fn term_entry_chars(tv: Seq<char>, qs: Seq<(i32, i32)>) -> Seq<char> {
    dec_digits(tv.len()) + seq![' '] + tv + seq![' '] + dec_digits(qs.len()) + enc_postings(qs)
        + seq!['\n']
}

pub open spec fn term_entry_at(s: Seq<char>, pos: int, tv: Seq<char>, qs: Seq<(i32, i32)>) -> bool {
    &&& 0 <= pos
    &&& tv.len() < LEN_LIMIT
    &&& qs.len() < LEN_LIMIT
    &&& crate::maps::num_keys_unique(qs)
    &&& pos + term_entry_chars(tv, qs).len() <= s.len()
    &&& s.subrange(pos, pos + term_entry_chars(tv, qs).len() as int) == term_entry_chars(tv, qs)
}

proof fn lemma_enc_postings_split(qs: Seq<(i32, i32)>, k: int)
    requires
        0 <= k <= qs.len(),
    ensures
        enc_postings(qs) == enc_postings(qs.take(k)) + enc_postings(qs.skip(k)),
    decreases k,
{
    if k == 0 {
        assert(qs.take(0) =~= Seq::<(i32, i32)>::empty());
        assert(qs.skip(0) =~= qs);
        assert(enc_postings(Seq::<(i32, i32)>::empty()) == Seq::<char>::empty());
        assert(enc_postings(qs) =~= enc_postings(qs.take(0)) + enc_postings(qs.skip(0)));
    } else {
        lemma_enc_postings_split(qs, k - 1);
        lemma_enc_postings_snoc(qs.take(k - 1), qs[k - 1]);
        assert(qs.take(k - 1).push(qs[k - 1]) =~= qs.take(k));
        assert(qs.skip(k - 1)[0] == qs[k - 1]);
        assert(qs.skip(k - 1).drop_first() =~= qs.skip(k));
        assert(enc_postings(qs) =~= enc_postings(qs.take(k)) + enc_postings(qs.skip(k)));
    }
}


/// Where the pieces of a score-table entry lie.
#[verifier::rlimit(60)]
proof fn lemma_term_header_layout(s: Seq<char>, pos: int, tv: Seq<char>, qs: Seq<(i32, i32)>)
    requires
        term_entry_at(s, pos, tv, qs),
    ensures
        dec_prefix_at(s, pos, tv.len()),
        s[pos + dec_digits(tv.len()).len()] == ' ',
        s.subrange(
            pos + dec_digits(tv.len()).len() + 1,
            pos + dec_digits(tv.len()).len() + 1 + tv.len(),
        ) == tv,
        s[pos + dec_digits(tv.len()).len() + 1 + tv.len()] == ' ',
        dec_prefix_at(s, pos + dec_digits(tv.len()).len() + 2 + tv.len(), qs.len()),
{
    let dl = dec_digits(tv.len());
    let ql = dec_digits(qs.len());
    let e = term_entry_chars(tv, qs);
    let r1 = seq![' '] + tv + seq![' '] + ql + enc_postings(qs) + seq!['\n'];
    assert(e =~= dl + r1);
    lemma_prefix_split(s, pos, dl, r1);
    let r2 = tv + seq![' '] + ql + enc_postings(qs) + seq!['\n'];
    assert(r1 =~= seq![' '] + r2);
    lemma_prefix_split(s, pos + dl.len(), seq![' '], r2);
    let r3 = seq![' '] + ql + enc_postings(qs) + seq!['\n'];
    assert(r2 =~= tv + r3);
    lemma_prefix_split(s, pos + dl.len() + 1, tv, r3);
    let r4 = ql + enc_postings(qs) + seq!['\n'];
    assert(r3 =~= seq![' '] + r4);
    lemma_prefix_split(s, pos + dl.len() + 1 + tv.len(), seq![' '], r4);
    let r5 = enc_postings(qs) + seq!['\n'];
    assert(r4 =~= ql + r5);
    lemma_prefix_split(s, pos + dl.len() + 2 + tv.len(), ql, r5);
    assert(s.subrange(pos + dl.len(), pos + dl.len() + 1)[0] == ' ');
    assert(s.subrange(pos + dl.len() + 1 + tv.len(), pos + dl.len() + 2 + tv.len())[0] == ' ');
    lemma_dec_digits(qs.len());
    lemma_dec_digits(tv.len());
    if qs.len() == 0 {
        assert(r5[0] == '\n');
    } else {
        assert(enc_postings(qs)[0] == ' ') by {
            assert(enc_posting(qs[0])[0] == ' ');
        }
        assert(r5[0] == ' ');
    }
    assert(s[pos + dl.len() + 2 + tv.len() + ql.len()] == r5[0]);
}

/// Where the posting area of a score-table entry lies.
#[verifier::rlimit(60)]
proof fn lemma_term_postings_layout(s: Seq<char>, pos: int, tv: Seq<char>, qs: Seq<(i32, i32)>)
    ensures
        term_entry_at(s, pos, tv, qs) ==> s.subrange(
            pos + dec_digits(tv.len()).len() + 2 + tv.len() + dec_digits(qs.len()).len(),
            pos + term_entry_chars(tv, qs).len() as int,
        ) == enc_postings(qs) + seq!['\n'],
{
    if term_entry_at(s, pos, tv, qs) {
        let dl = dec_digits(tv.len());
        let ql = dec_digits(qs.len());
        let e = term_entry_chars(tv, qs);
        let head = dl + seq![' '] + tv + seq![' '] + ql;
        let r5 = enc_postings(qs) + seq!['\n'];
        assert(e =~= head + r5);
        lemma_prefix_split(s, pos, head, r5);
    }
}

/// Where one posting lies inside the posting area.
#[verifier::rlimit(60)]
proof fn lemma_posting_layout(s: Seq<char>, parea: int, qs: Seq<(i32, i32)>, k: int, cur: int)
    requires
        0 <= parea,
        0 <= k < qs.len(),
        parea + (enc_postings(qs) + seq!['\n']).len() <= s.len(),
        s.subrange(parea, parea + (enc_postings(qs) + seq!['\n']).len() as int) == enc_postings(
            qs,
        ) + seq!['\n'],
        cur == parea + enc_postings(qs.take(k)).len(),
    ensures
        s[cur] == ' ',
        int_prefix_at(s, cur + 1, qs[k].0 as int),
        s[cur + 1 + int_chars(qs[k].0 as int).len()] == ' ',
        int_prefix_at(s, cur + 2 + int_chars(qs[k].0 as int).len(), qs[k].1 as int),
        cur + 2 + int_chars(qs[k].0 as int).len() + int_chars(qs[k].1 as int).len() == parea
            + enc_postings(qs.take(k + 1)).len(),
{
    let q = qs[k];
    let ic1 = int_chars(q.0 as int);
    let ic2 = int_chars(q.1 as int);
    lemma_enc_postings_split(qs, k);
    let r5 = enc_postings(qs) + seq!['\n'];
    assert(r5 =~= enc_postings(qs.take(k)) + (enc_postings(qs.skip(k)) + seq!['\n']));
    lemma_prefix_split(
        s,
        parea,
        enc_postings(qs.take(k)),
        enc_postings(qs.skip(k)) + seq!['\n'],
    );
    assert(qs.skip(k)[0] == q);
    assert(qs.skip(k).drop_first() =~= qs.skip(k + 1));
    let after = enc_postings(qs.skip(k + 1)) + seq!['\n'];
    assert(enc_postings(qs.skip(k)) + seq!['\n'] =~= enc_posting(q) + after);
    lemma_prefix_split(s, cur, enc_posting(q), after);
    let s1 = ic1 + seq![' '] + ic2 + after;
    assert(enc_posting(q) + after =~= seq![' '] + s1);
    lemma_prefix_split(s, cur, seq![' '], s1);
    let s2 = seq![' '] + ic2 + after;
    assert(s1 =~= ic1 + s2);
    lemma_prefix_split(s, cur + 1, ic1, s2);
    let s3 = ic2 + after;
    assert(s2 =~= seq![' '] + s3);
    lemma_prefix_split(s, cur + 1 + ic1.len(), seq![' '], s3);
    lemma_prefix_split(s, cur + 2 + ic1.len(), ic2, after);
    assert(s.subrange(cur, cur + 1)[0] == ' ');
    assert(s.subrange(cur + 1 + ic1.len(), cur + 2 + ic1.len())[0] == ' ');
    if qs.len() - k == 1 {
        assert(after[0] == '\n');
    } else {
        assert(qs.skip(k + 1)[0] == qs[k + 1]);
        assert(enc_postings(qs.skip(k + 1))[0] == ' ') by {
            assert(enc_posting(qs.skip(k + 1)[0])[0] == ' ');
        }
        assert(after[0] == ' ');
    }
    assert(s[cur + 2 + ic1.len() + ic2.len()] == after[0]);
    lemma_enc_postings_snoc(qs.take(k), q);
    assert(qs.take(k).push(q) =~= qs.take(k + 1));
}

/// Read one score-table entry.
#[verifier::loop_isolation(false)]
#[verifier::rlimit(100)]
fn parse_term_entry(cs: &Vec<char>, pos: usize) -> (r: Result<(String, NumMap<i32>, usize), ()>)
    requires
        pos <= cs@.len(),
    ensures
        r matches Ok(p) ==> pos < p.2 <= cs@.len() && p.1.wf() && p.0@.len() < LEN_LIMIT
            && p.1.pairs().len() < LEN_LIMIT && cs@.subrange(pos as int, p.2 as int)
            == term_entry_chars(p.0@, p.1.pairs()),
        forall|tv: Seq<char>, qs: Seq<(i32, i32)>| #[trigger]
            term_entry_at(cs@, pos as int, tv, qs) ==> (r matches Ok(p) && p.0@ == tv
                && p.1.pairs() == qs && p.2 == pos + term_entry_chars(tv, qs).len()),
{
    proof {
        assert forall|tv: Seq<char>, qs: Seq<(i32, i32)>|
            #[trigger] term_entry_at(cs@, pos as int, tv, qs) implies dec_prefix_at(
            cs@,
            pos as int,
            tv.len(),
        ) && cs@[pos + dec_digits(tv.len()).len()] == ' ' && cs@.subrange(
            pos + dec_digits(tv.len()).len() + 1,
            pos + dec_digits(tv.len()).len() + 1 + tv.len(),
        ) == tv && cs@[pos + dec_digits(tv.len()).len() + 1 + tv.len()] == ' ' && dec_prefix_at(
            cs@,
            pos + dec_digits(tv.len()).len() + 2 + tv.len(),
            qs.len(),
        ) by {
            lemma_term_header_layout(cs@, pos as int, tv, qs);
        }
    }
    let (tl, p1) = match scan_u64(cs, pos) {
        Ok(x) => x,
        Err(_) => {
            return Err(());
        },
    };
    let p2 = match expect_ch(cs, p1, ' ') {
        Ok(x) => x,
        Err(_) => {
            return Err(());
        },
    };
    let rem: u64 = (cs.len() - p2) as u64;
    if tl > rem {
        proof {
            assert forall|tv: Seq<char>, qs: Seq<(i32, i32)>|
                #[trigger] term_entry_at(cs@, pos as int, tv, qs) implies false by {
                lemma_dec_digits(tv.len());
                lemma_dec_digits(qs.len());
            }
        }
        return Err(());
    }
    let tlu: usize = tl as usize;
    let term = range_to_string(cs, p2, p2 + tlu);
    let p3 = p2 + tlu;
    let p4 = match expect_ch(cs, p3, ' ') {
        Ok(x) => x,
        Err(_) => {
            proof {
                assert forall|tv: Seq<char>, qs: Seq<(i32, i32)>|
                    #[trigger] term_entry_at(cs@, pos as int, tv, qs) implies false by {
                    lemma_dec_digits(tv.len());
                }
            }
            return Err(());
        },
    };
    let (np, p5) = match scan_u64(cs, p4) {
        Ok(x) => x,
        Err(_) => {
            proof {
                assert forall|tv: Seq<char>, qs: Seq<(i32, i32)>|
                    #[trigger] term_entry_at(cs@, pos as int, tv, qs) implies false by {
                    lemma_dec_digits(tv.len());
                }
            }
            return Err(());
        },
    };
    proof {
        assert forall|tv: Seq<char>, qs: Seq<(i32, i32)>|
            #[trigger] term_entry_at(cs@, pos as int, tv, qs) implies tl == tv.len() && np
            == qs.len() && term@ == tv && p5 == pos + dec_digits(tv.len()).len() + 2 + tv.len()
            + dec_digits(qs.len()).len() by {
            lemma_dec_digits(tv.len());
        }
    }
    let mut pl: NumMap<i32> = NumMap::new();
    let mut cur: usize = p5;
    let mut k: u64 = 0;
    proof {
        assert(cs@.subrange(p5 as int, p5 as int) =~= Seq::<char>::empty());
        assert(enc_postings(Seq::<(i32, i32)>::empty()) == Seq::<char>::empty());
        assert(cs@.subrange(p5 as int, cur as int) =~= enc_postings(pl.pairs()));
    }
    while k < np
        invariant
            0 <= k <= np,
            p5 <= cur <= cs@.len(),
            pl.wf(),
            pl.pairs().len() == k,
            cs@.subrange(p5 as int, cur as int) == enc_postings(pl.pairs()),
            forall|tv: Seq<char>, qs: Seq<(i32, i32)>| #[trigger]
                term_entry_at(cs@, pos as int, tv, qs) ==> pl.pairs() == qs.take(k as int) && cur
                    == p5 + enc_postings(qs.take(k as int)).len(),
        decreases np - k,
    {
        proof {
            assert forall|tv: Seq<char>, qs: Seq<(i32, i32)>|
                #[trigger] term_entry_at(cs@, pos as int, tv, qs) implies cs@[cur as int] == ' '
                && int_prefix_at(cs@, cur + 1, qs[k as int].0 as int) && cs@[cur + 1 + int_chars(
                qs[k as int].0 as int,
            ).len()] == ' ' && int_prefix_at(
                cs@,
                cur + 2 + int_chars(qs[k as int].0 as int).len(),
                qs[k as int].1 as int,
            ) && cur + 2 + int_chars(qs[k as int].0 as int).len() + int_chars(
                qs[k as int].1 as int,
            ).len() == p5 + enc_postings(qs.take(k as int + 1)).len() by {
                lemma_term_postings_layout(cs@, pos as int, tv, qs);
                lemma_posting_layout(
                    cs@,
                    pos + dec_digits(tv.len()).len() + 2 + tv.len() + dec_digits(qs.len()).len(),
                    qs,
                    k as int,
                    cur as int,
                );
            }
        }
        let a1 = match expect_ch(cs, cur, ' ') {
            Ok(x) => x,
            Err(_) => {
                return Err(());
            },
        };
        let (pn, a2) = match scan_i32(cs, a1) {
            Ok(x) => x,
            Err(_) => {
                return Err(());
            },
        };
        let a3 = match expect_ch(cs, a2, ' ') {
            Ok(x) => x,
            Err(_) => {
                return Err(());
            },
        };
        let (psc, a4) = match scan_i32(cs, a3) {
            Ok(x) => x,
            Err(_) => {
                return Err(());
            },
        };
        match pl.get(pn) {
            Some(_) => {
                proof {
                    assert forall|tv: Seq<char>, qs: Seq<(i32, i32)>|
                        #[trigger] term_entry_at(cs@, pos as int, tv, qs) implies false by {
                        crate::maps::lemma_num_map_contains(qs.take(k as int), pn as int);
                        let j = choose|j: int|
                            0 <= j < qs.take(k as int).len() && #[trigger] qs.take(k as int)[j].0
                                == pn;
                        assert(qs[j].0 == qs[k as int].0);
                    }
                }
                return Err(());
            },
            None => {},
        }
        let ghost oldpl = pl.pairs();
        pl.insert(pn, psc);
        cur = a4;
        k = k + 1;
        proof {
            lemma_enc_postings_snoc(oldpl, (pn, psc));
            assert(cs@.subrange(p5 as int, cur as int) =~= enc_postings(oldpl) + enc_posting(
                (pn, psc),
            ));
            assert forall|tv: Seq<char>, qs: Seq<(i32, i32)>|
                #[trigger] term_entry_at(cs@, pos as int, tv, qs) implies pl.pairs() == qs.take(
                k as int,
            ) && cur == p5 + enc_postings(qs.take(k as int)).len() by {
                lemma_enc_postings_snoc(qs.take(k as int - 1), qs[k as int - 1]);
                assert(qs.take(k as int - 1).push(qs[k as int - 1]) =~= qs.take(k as int));
                assert(pl.pairs() =~= qs.take(k as int));
            }
        }
    }
    let p6 = match expect_ch(cs, cur, '\n') {
        Ok(x) => x,
        Err(_) => {
            proof {
                assert forall|tv: Seq<char>, qs: Seq<(i32, i32)>|
                    #[trigger] term_entry_at(cs@, pos as int, tv, qs) implies false by {
                    assert(qs.take(np as int) =~= qs);
                    lemma_term_postings_layout(cs@, pos as int, tv, qs);
                    let parea = pos + dec_digits(tv.len()).len() + 2 + tv.len() + dec_digits(
                        qs.len(),
                    ).len();
                    lemma_prefix_split(cs@, parea, enc_postings(qs), seq!['\n']);
                    assert(cs@.subrange(cur as int, cur + 1)[0] == '\n');
                }
            }
            return Err(());
        },
    };
    proof {
        assert(cs@.subrange(pos as int, p6 as int) =~= term_entry_chars(term@, pl.pairs()));
        assert forall|tv: Seq<char>, qs: Seq<(i32, i32)>|
            #[trigger] term_entry_at(cs@, pos as int, tv, qs) implies term@ == tv && pl.pairs()
            == qs && p6 == pos + term_entry_chars(tv, qs).len() by {
            assert(qs.take(np as int) =~= qs);
        }
    }
    Ok((term, pl, p6))
}

proof fn lemma_enc_titles_split(ps: Seq<(i32, RfcDetails)>, k: int)
    requires
        0 <= k <= ps.len(),
    ensures
        enc_titles(ps) == enc_titles(ps.take(k)) + enc_titles(ps.skip(k)),
    decreases k,
{
    if k == 0 {
        assert(ps.take(0) =~= Seq::<(i32, RfcDetails)>::empty());
        assert(ps.skip(0) =~= ps);
        assert(enc_titles(Seq::<(i32, RfcDetails)>::empty()) == Seq::<char>::empty());
        assert(enc_titles(ps) =~= enc_titles(ps.take(0)) + enc_titles(ps.skip(0)));
    } else {
        lemma_enc_titles_split(ps, k - 1);
        lemma_enc_titles_snoc(ps.take(k - 1), ps[k - 1]);
        assert(ps.take(k - 1).push(ps[k - 1]) =~= ps.take(k));
        assert(ps.skip(k - 1)[0] == ps[k - 1]);
        assert(ps.skip(k - 1).drop_first() =~= ps.skip(k));
        assert(enc_titles(ps) =~= enc_titles(ps.take(k)) + enc_titles(ps.skip(k)));
    }
}

proof fn lemma_enc_terms_split(ps: Seq<(String, NumMap<i32>)>, k: int)
    requires
        0 <= k <= ps.len(),
    ensures
        enc_terms(ps) == enc_terms(ps.take(k)) + enc_terms(ps.skip(k)),
    decreases k,
{
    if k == 0 {
        assert(ps.take(0) =~= Seq::<(String, NumMap<i32>)>::empty());
        assert(ps.skip(0) =~= ps);
        assert(enc_terms(Seq::<(String, NumMap<i32>)>::empty()) == Seq::<char>::empty());
        assert(enc_terms(ps) =~= enc_terms(ps.take(0)) + enc_terms(ps.skip(0)));
    } else {
        lemma_enc_terms_split(ps, k - 1);
        lemma_enc_terms_snoc(ps.take(k - 1), ps[k - 1]);
        assert(ps.take(k - 1).push(ps[k - 1]) =~= ps.take(k));
        assert(ps.skip(k - 1)[0] == ps[k - 1]);
        assert(ps.skip(k - 1).drop_first() =~= ps.skip(k));
        assert(enc_terms(ps) =~= enc_terms(ps.take(k)) + enc_terms(ps.skip(k)));
    }
}

/// Where the title table begins in a document.
pub open spec fn titles_start(a: Index) -> int {
    8 + dec_digits(a.rfc_details.pairs().len()).len() as int
}

/// Where the score-table count begins in a document.
pub open spec fn terms_count_pos(a: Index) -> int {
    titles_start(a) + enc_titles(a.rfc_details.pairs()).len()
}

/// Where the score table begins in a document.
pub open spec fn terms_start(a: Index) -> int {
    terms_count_pos(a) + dec_digits(a.term_scores.pairs().len()).len() + 1
}

/// Where the parts of a whole document lie.
#[verifier::rlimit(60)]
proof fn lemma_index_layout(s: Seq<char>, a: Index)
    requires
        bounded(a),
        s == enc_index(a),
    ensures
        s.len() >= 8,
        forall|i: int| 0 <= i < 7 ==> s[i] == header()[i],
        dec_prefix_at(s, 7, a.rfc_details.pairs().len()),
        s[titles_start(a) - 1] == '\n',
        titles_start(a) + enc_titles(a.rfc_details.pairs()).len() <= s.len(),
        s.subrange(titles_start(a), terms_count_pos(a)) == enc_titles(a.rfc_details.pairs()),
        dec_prefix_at(s, terms_count_pos(a), a.term_scores.pairs().len()),
        s[terms_start(a) - 1] == '\n',
        terms_start(a) + enc_terms(a.term_scores.pairs()).len() == s.len(),
        s.subrange(terms_start(a), s.len() as int) == enc_terms(a.term_scores.pairs()),
{
    let dn = dec_digits(a.rfc_details.pairs().len());
    let tn = dec_digits(a.term_scores.pairs().len());
    let ts = enc_titles(a.rfc_details.pairs());
    let te = enc_terms(a.term_scores.pairs());
    let r1 = dn + seq!['\n'] + ts + tn + seq!['\n'] + te;
    assert(s =~= header() + r1);
    assert(s.subrange(0, s.len() as int) =~= s);
    lemma_prefix_split(s, 0, header(), r1);
    let r2 = seq!['\n'] + ts + tn + seq!['\n'] + te;
    assert(r1 =~= dn + r2);
    lemma_prefix_split(s, 7, dn, r2);
    let r3 = ts + tn + seq!['\n'] + te;
    assert(r2 =~= seq!['\n'] + r3);
    lemma_prefix_split(s, 7 + dn.len() as int, seq!['\n'], r3);
    let r4 = tn + seq!['\n'] + te;
    assert(r3 =~= ts + r4);
    lemma_prefix_split(s, 8 + dn.len() as int, ts, r4);
    let r5 = seq!['\n'] + te;
    assert(r4 =~= tn + r5);
    lemma_prefix_split(s, 8 + dn.len() as int + ts.len(), tn, r5);
    lemma_prefix_split(s, 8 + dn.len() as int + ts.len() + tn.len(), seq!['\n'], te);
    lemma_dec_digits(a.rfc_details.pairs().len());
    lemma_dec_digits(a.term_scores.pairs().len());
    assert(s.subrange(7 + dn.len() as int, 8 + dn.len() as int)[0] == '\n');
    assert(s.subrange(
        8 + dn.len() as int + ts.len() + tn.len(),
        9 + dn.len() as int + ts.len() + tn.len(),
    )[0] == '\n');
}

/// Where one title entry lies inside the title table.
#[verifier::rlimit(60)]
proof fn lemma_titles_layout(s: Seq<char>, base: int, ps: Seq<(i32, RfcDetails)>, i: int, cur: int)
    requires
        0 <= base,
        0 <= i < ps.len(),
        ps[i].1.spec_title().len() < LEN_LIMIT,
        base + enc_titles(ps).len() <= s.len(),
        s.subrange(base, base + enc_titles(ps).len() as int) == enc_titles(ps),
        cur == base + enc_titles(ps.take(i)).len(),
    ensures
        title_entry_at(s, cur, ps[i].0, ps[i].1.spec_title()),
        cur + title_entry_chars(ps[i].0 as int, ps[i].1.spec_title()).len() == base + enc_titles(
            ps.take(i + 1),
        ).len(),
{
    lemma_enc_titles_split(ps, i);
    lemma_prefix_split(s, base, enc_titles(ps.take(i)), enc_titles(ps.skip(i)));
    assert(ps.skip(i)[0] == ps[i]);
    assert(ps.skip(i).drop_first() =~= ps.skip(i + 1));
    let e = enc_title_entry(ps[i]);
    assert(enc_titles(ps.skip(i)) =~= e + enc_titles(ps.skip(i + 1)));
    lemma_prefix_split(s, cur, e, enc_titles(ps.skip(i + 1)));
    assert(e =~= title_entry_chars(ps[i].0 as int, ps[i].1.spec_title()));
    lemma_enc_titles_snoc(ps.take(i), ps[i]);
    assert(ps.take(i).push(ps[i]) =~= ps.take(i + 1));
}

/// Where one score-table entry lies inside the score table.
#[verifier::rlimit(60)]
proof fn lemma_terms_layout(
    s: Seq<char>,
    base: int,
    ps: Seq<(String, NumMap<i32>)>,
    i: int,
    cur: int,
)
    requires
        0 <= base,
        0 <= i < ps.len(),
        ps[i].0@.len() < LEN_LIMIT,
        ps[i].1.pairs().len() < LEN_LIMIT,
        ps[i].1.wf(),
        base + enc_terms(ps).len() <= s.len(),
        s.subrange(base, base + enc_terms(ps).len() as int) == enc_terms(ps),
        cur == base + enc_terms(ps.take(i)).len(),
    ensures
        term_entry_at(s, cur, ps[i].0@, ps[i].1.pairs()),
        cur + term_entry_chars(ps[i].0@, ps[i].1.pairs()).len() == base + enc_terms(
            ps.take(i + 1),
        ).len(),
{
    lemma_enc_terms_split(ps, i);
    lemma_prefix_split(s, base, enc_terms(ps.take(i)), enc_terms(ps.skip(i)));
    assert(ps.skip(i)[0] == ps[i]);
    assert(ps.skip(i).drop_first() =~= ps.skip(i + 1));
    let e = enc_term_entry(ps[i]);
    assert(enc_terms(ps.skip(i)) =~= e + enc_terms(ps.skip(i + 1)));
    lemma_prefix_split(s, cur, e, enc_terms(ps.skip(i + 1)));
    assert(e =~= term_entry_chars(ps[i].0@, ps[i].1.pairs()));
    lemma_enc_terms_snoc(ps.take(i), ps[i]);
    assert(ps.take(i).push(ps[i]) =~= ps.take(i + 1));
}

/// Read one expected character.
fn expect_ch(cs: &Vec<char>, pos: usize, c: char) -> (r: Result<usize, ()>)
    requires
        pos <= cs@.len(),
    ensures
        r matches Ok(p) ==> p == pos + 1 && pos < cs@.len() && cs@[pos as int] == c,
        pos < cs@.len() && cs@[pos as int] == c ==> r is Ok,
{
    if pos < cs.len() && cs[pos] == c {
        Ok(pos + 1)
    } else {
        Err(())
    }
}

/// The text is the document of this artifact.
pub open spec fn encodes(s: Seq<char>, a: Index) -> bool {
    a.wf() && bounded(a) && s == enc_index(a)
}

/// The decoded title entries so far agree with a prefix of the table.
pub open spec fn titles_match(ps: Seq<(i32, RfcDetails)>, qs: Seq<(i32, RfcDetails)>) -> bool {
    ps.len() <= qs.len() && forall|j: int|
        0 <= j < ps.len() ==> (#[trigger] ps[j]).0 == qs[j].0 && ps[j].1.spec_title()
            == qs[j].1.spec_title()
}

/// The decoded score entries so far agree with a prefix of the table.
pub open spec fn terms_match(
    ps: Seq<(String, NumMap<i32>)>,
    qs: Seq<(String, NumMap<i32>)>,
) -> bool {
    ps.len() <= qs.len() && forall|j: int|
        0 <= j < ps.len() ==> (#[trigger] ps[j]).0@ == qs[j].0@ && ps[j].1.pairs()
            == qs[j].1.pairs()
}

/// Read the title table: nd entries with distinct numbers.
#[verifier::loop_isolation(false)]
#[verifier::rlimit(100)]
fn decode_titles(cs: &Vec<char>, start: usize, nd: u64) -> (r: Result<
    (NumMap<RfcDetails>, usize),
    (),
>)
    requires
        start <= cs@.len(),
        nd < LEN_LIMIT,
    ensures
        r matches Ok(p) ==> start <= p.1 <= cs@.len() && p.0.wf() && p.0.pairs().len() == nd
            && cs@.subrange(start as int, p.1 as int) == enc_titles(p.0.pairs()) && forall|j: int|
            0 <= j < p.0.pairs().len() ==> (#[trigger] p.0.pairs()[j]).1.spec_title().len()
                < LEN_LIMIT,
        forall|a: Index|
            #[trigger] encodes(cs@, a) && nd == a.rfc_details.pairs().len() && start
                == titles_start(a) ==> (r matches Ok(p) && titles_match(
                p.0.pairs(),
                a.rfc_details.pairs(),
            ) && p.1 == terms_count_pos(a)),
{
    let mut details: NumMap<RfcDetails> = NumMap::new();
    let mut pos = start;
    let mut i: u64 = 0;
    proof {
        assert(enc_titles(Seq::<(i32, RfcDetails)>::empty()) == Seq::<char>::empty());
        assert(cs@.subrange(start as int, pos as int) =~= enc_titles(details.pairs()));
        assert forall|a: Index|
            #[trigger] encodes(cs@, a) && nd == a.rfc_details.pairs().len() && start
                == titles_start(a) implies pos == titles_start(a) + enc_titles(
            a.rfc_details.pairs().take(0),
        ).len() by {
            assert(a.rfc_details.pairs().take(0) =~= Seq::<(i32, RfcDetails)>::empty());
        }
    }
    while i < nd
        invariant
            0 <= i <= nd,
            nd < LEN_LIMIT,
            start <= pos <= cs@.len(),
            details.wf(),
            details.pairs().len() == i,
            cs@.subrange(start as int, pos as int) == enc_titles(details.pairs()),
            forall|j: int|
                0 <= j < details.pairs().len() ==> (
                #[trigger] details.pairs()[j]).1.spec_title().len() < LEN_LIMIT,
            forall|a: Index|
                #[trigger] encodes(cs@, a) && nd == a.rfc_details.pairs().len() && start
                    == titles_start(a) ==> titles_match(details.pairs(), a.rfc_details.pairs())
                    && pos == titles_start(a) + enc_titles(
                    a.rfc_details.pairs().take(i as int),
                ).len(),
        decreases nd - i,
    {
        proof {
            assert forall|a: Index|
                #[trigger] encodes(cs@, a) && nd == a.rfc_details.pairs().len() && start
                    == titles_start(a) implies title_entry_at(
                cs@,
                pos as int,
                a.rfc_details.pairs()[i as int].0,
                a.rfc_details.pairs()[i as int].1.spec_title(),
            ) by {
                lemma_index_layout(cs@, a);
                lemma_titles_layout(
                    cs@,
                    titles_start(a),
                    a.rfc_details.pairs(),
                    i as int,
                    pos as int,
                );
            }
        }
        let (n, title, p2) = match parse_title_entry(cs, pos) {
            Ok(x) => x,
            Err(_) => {
                return Err(());
            },
        };
        match details.get(n) {
            Some(_) => {
                proof {
                    assert forall|a: Index|
                        #[trigger] encodes(cs@, a) && nd == a.rfc_details.pairs().len() && start
                            == titles_start(a) implies false by {
                        crate::maps::lemma_num_map_contains(details.pairs(), n as int);
                        let j = choose|j: int|
                            0 <= j < details.pairs().len() && #[trigger] details.pairs()[j].0 == n;
                        assert(a.rfc_details.pairs()[j].0 == a.rfc_details.pairs()[i as int].0);
                    }
                }
                return Err(());
            },
            None => {},
        }
        let ghost oldpairs = details.pairs();
        details.insert(n, RfcDetails::new(title));
        pos = p2;
        i = i + 1;
        proof {
            lemma_enc_titles_snoc(oldpairs, details.pairs().last());
            assert(oldpairs.push(details.pairs().last()) =~= details.pairs());
            assert(cs@.subrange(start as int, pos as int) =~= enc_titles(oldpairs)
                + enc_title_entry(details.pairs().last()));
            assert forall|a: Index|
                #[trigger] encodes(cs@, a) && nd == a.rfc_details.pairs().len() && start
                    == titles_start(a) implies titles_match(details.pairs(), a.rfc_details.pairs())
                && pos == titles_start(a) + enc_titles(
                a.rfc_details.pairs().take(i as int),
            ).len() by {
                lemma_index_layout(cs@, a);
                lemma_titles_layout(
                    cs@,
                    titles_start(a),
                    a.rfc_details.pairs(),
                    i as int - 1,
                    pos as int - title_entry_chars(
                        a.rfc_details.pairs()[i as int - 1].0 as int,
                        a.rfc_details.pairs()[i as int - 1].1.spec_title(),
                    ).len(),
                );
            }
        }
    }
    proof {
        assert forall|a: Index|
            #[trigger] encodes(cs@, a) && nd == a.rfc_details.pairs().len() && start
                == titles_start(a) implies pos == terms_count_pos(a) by {
            assert(a.rfc_details.pairs().take(nd as int) =~= a.rfc_details.pairs());
        }
    }
    Ok((details, pos))
}

/// Read the score table: nt entries with distinct terms.
#[verifier::loop_isolation(false)]
#[verifier::rlimit(100)]
fn decode_terms(cs: &Vec<char>, start: usize, nt: u64) -> (r: Result<
    (StrMap<NumMap<i32>>, usize),
    (),
>)
    requires
        start <= cs@.len(),
        nt < LEN_LIMIT,
    ensures
        r matches Ok(p) ==> start <= p.1 <= cs@.len() && p.0.wf() && p.0.pairs().len() == nt
            && cs@.subrange(start as int, p.1 as int) == enc_terms(p.0.pairs()) && forall|j: int|
            0 <= j < p.0.pairs().len() ==> (#[trigger] p.0.pairs()[j]).1.wf()
                && p.0.pairs()[j].0@.len() < LEN_LIMIT && p.0.pairs()[j].1.pairs().len()
                < LEN_LIMIT,
        forall|a: Index|
            #[trigger] encodes(cs@, a) && nt == a.term_scores.pairs().len() && start
                == terms_start(a) ==> (r matches Ok(p) && terms_match(
                p.0.pairs(),
                a.term_scores.pairs(),
            ) && p.1 == cs@.len()),
{
    let mut terms: StrMap<NumMap<i32>> = StrMap::new();
    let mut pos = start;
    let mut i: u64 = 0;
    proof {
        assert(enc_terms(Seq::<(String, NumMap<i32>)>::empty()) == Seq::<char>::empty());
        assert(cs@.subrange(start as int, pos as int) =~= enc_terms(terms.pairs()));
        assert forall|a: Index|
            #[trigger] encodes(cs@, a) && nt == a.term_scores.pairs().len() && start
                == terms_start(a) implies pos == terms_start(a) + enc_terms(
            a.term_scores.pairs().take(0),
        ).len() by {
            assert(a.term_scores.pairs().take(0) =~= Seq::<(String, NumMap<i32>)>::empty());
        }
    }
    while i < nt
        invariant
            0 <= i <= nt,
            nt < LEN_LIMIT,
            start <= pos <= cs@.len(),
            terms.wf(),
            terms.pairs().len() == i,
            cs@.subrange(start as int, pos as int) == enc_terms(terms.pairs()),
            forall|j: int|
                0 <= j < terms.pairs().len() ==> (#[trigger] terms.pairs()[j]).1.wf()
                    && terms.pairs()[j].0@.len() < LEN_LIMIT && terms.pairs()[j].1.pairs().len()
                    < LEN_LIMIT,
            forall|a: Index|
                #[trigger] encodes(cs@, a) && nt == a.term_scores.pairs().len() && start
                    == terms_start(a) ==> terms_match(terms.pairs(), a.term_scores.pairs()) && pos
                    == terms_start(a) + enc_terms(a.term_scores.pairs().take(i as int)).len(),
        decreases nt - i,
    {
        proof {
            assert forall|a: Index|
                #[trigger] encodes(cs@, a) && nt == a.term_scores.pairs().len() && start
                    == terms_start(a) implies term_entry_at(
                cs@,
                pos as int,
                a.term_scores.pairs()[i as int].0@,
                a.term_scores.pairs()[i as int].1.pairs(),
            ) by {
                lemma_index_layout(cs@, a);
                crate::maps::lemma_str_map_get(a.term_scores.pairs(), i as int);
                assert(a.term_scores.as_map().contains_key(a.term_scores.pairs()[i as int].0@));
                assert(a.term_scores.pairs()[i as int].1.wf());
                lemma_terms_layout(
                    cs@,
                    terms_start(a),
                    a.term_scores.pairs(),
                    i as int,
                    pos as int,
                );
            }
        }
        let (term, pl, p2) = match parse_term_entry(cs, pos) {
            Ok(x) => x,
            Err(_) => {
                return Err(());
            },
        };
        match terms.get(term.as_str()) {
            Some(_) => {
                proof {
                    assert forall|a: Index|
                        #[trigger] encodes(cs@, a) && nt == a.term_scores.pairs().len() && start
                            == terms_start(a) implies false by {
                        crate::maps::lemma_str_map_contains(terms.pairs(), term@);
                        let j = choose|j: int|
                            0 <= j < terms.pairs().len() && #[trigger] terms.pairs()[j].0@
                                == term@;
                        assert(a.term_scores.pairs()[j].0@ == a.term_scores.pairs()[i as int].0@);
                    }
                }
                return Err(());
            },
            None => {},
        }
        let ghost oldpairs = terms.pairs();
        terms.insert(term, pl);
        pos = p2;
        i = i + 1;
        proof {
            lemma_enc_terms_snoc(oldpairs, terms.pairs().last());
            assert(oldpairs.push(terms.pairs().last()) =~= terms.pairs());
            assert(cs@.subrange(start as int, pos as int) =~= enc_terms(oldpairs) + enc_term_entry(
                terms.pairs().last(),
            ));
            assert forall|a: Index|
                #[trigger] encodes(cs@, a) && nt == a.term_scores.pairs().len() && start
                    == terms_start(a) implies terms_match(terms.pairs(), a.term_scores.pairs())
                && pos == terms_start(a) + enc_terms(
                a.term_scores.pairs().take(i as int),
            ).len() by {
                lemma_index_layout(cs@, a);
                crate::maps::lemma_str_map_get(a.term_scores.pairs(), i as int - 1);
                assert(a.term_scores.as_map().contains_key(
                    a.term_scores.pairs()[i as int - 1].0@,
                ));
                assert(a.term_scores.pairs()[i as int - 1].1.wf());
                lemma_terms_layout(
                    cs@,
                    terms_start(a),
                    a.term_scores.pairs(),
                    i as int - 1,
                    pos as int - term_entry_chars(
                        a.term_scores.pairs()[i as int - 1].0@,
                        a.term_scores.pairs()[i as int - 1].1.pairs(),
                    ).len(),
                );
            }
        }
    }
    proof {
        assert forall|a: Index|
            #[trigger] encodes(cs@, a) && nt == a.term_scores.pairs().len() && start
                == terms_start(a) implies pos == cs@.len() by {
            lemma_index_layout(cs@, a);
            assert(a.term_scores.pairs().take(nt as int) =~= a.term_scores.pairs());
        }
    }
    Ok((terms, pos))
}

/// Read an artifact back from its document. Exactly the documents the
/// encoder writes are accepted, and each reads back as the artifact that
/// wrote it.
#[verifier::loop_isolation(false)]
#[verifier::rlimit(100)]
pub fn decode_index(text: &str) -> (r: RFSeeResult<Index>)
    ensures
        match r {
            Ok(ix) => ix.wf() && bounded(ix) && text@ == enc_index(ix),
            Err(e) => e is ParseError,
        },
        forall|a: Index| #[trigger]
            encodes(text@, a) ==> (r matches Ok(ix) && same_artifact(ix, a)),
{
    let cs = chars_of(text);
    let hdr: Vec<char> = vec!['r', 'f', 's', 'e', 'e', '1', '\n'];
    proof {
        assert forall|a: Index| #[trigger] encodes(text@, a) implies cs@.len() >= 8 && (forall|
            i: int,
        |
            0 <= i < 7 ==> cs@[i] == header()[i]) && dec_prefix_at(
            cs@,
            7,
            a.rfc_details.pairs().len(),
        ) by {
            lemma_index_layout(cs@, a);
        }
    }
    let mut pos: usize = 0;
    while pos < 7
        invariant
            pos <= 7,
            pos <= cs@.len(),
            hdr@.len() == 7,
            forall|i: int| 0 <= i < pos ==> cs@[i] == header()[i],
            forall|i: int| 0 <= i < 7 ==> hdr@[i] == header()[i],
        decreases 7 - pos,
    {
        match expect_ch(&cs, pos, hdr[pos]) {
            Ok(p) => {
                pos = p;
            },
            Err(_) => {
                return Err(parse_fail());
            },
        }
    }
    let (nd, p1) = match scan_u64(&cs, pos) {
        Ok(x) => x,
        Err(_) => {
            return Err(parse_fail());
        },
    };
    let pos1 = match expect_ch(&cs, p1, '\n') {
        Ok(x) => x,
        Err(_) => {
            proof {
                assert forall|a: Index| #[trigger] encodes(text@, a) implies false by {
                    lemma_index_layout(cs@, a);
                }
            }
            return Err(parse_fail());
        },
    };
    proof {
        assert forall|a: Index| #[trigger] encodes(text@, a) implies nd
            == a.rfc_details.pairs().len() && pos1 == titles_start(a) by {
            lemma_index_layout(cs@, a);
        }
    }
    let (details, posa) = match decode_titles(&cs, pos1, nd) {
        Ok(x) => x,
        Err(_) => {
            return Err(parse_fail());
        },
    };
    proof {
        assert forall|a: Index| #[trigger] encodes(text@, a) implies dec_prefix_at(
            cs@,
            posa as int,
            a.term_scores.pairs().len(),
        ) by {
            lemma_index_layout(cs@, a);
        }
    }
    let (nt, q1) = match scan_u64(&cs, posa) {
        Ok(x) => x,
        Err(_) => {
            return Err(parse_fail());
        },
    };
    let pos2 = match expect_ch(&cs, q1, '\n') {
        Ok(x) => x,
        Err(_) => {
            proof {
                assert forall|a: Index| #[trigger] encodes(text@, a) implies false by {
                    lemma_index_layout(cs@, a);
                }
            }
            return Err(parse_fail());
        },
    };
    proof {
        assert forall|a: Index| #[trigger] encodes(text@, a) implies nt
            == a.term_scores.pairs().len() && pos2 == terms_start(a) by {
            lemma_index_layout(cs@, a);
        }
    }
    let (terms, posb) = match decode_terms(&cs, pos2, nt) {
        Ok(x) => x,
        Err(_) => {
            return Err(parse_fail());
        },
    };
    if posb != cs.len() {
        return Err(parse_fail());
    }
    let ix = Index { rfc_details: details, term_scores: terms };
    proof {
        // The whole text is exactly the document of what was read back.
        assert(cs@.subrange(0, cs@.len() as int) =~= cs@);
        assert(cs@.subrange(0, pos1 as int) =~= header() + dec_digits(nd as nat) + seq!['\n']);
        assert(cs@.subrange(posa as int, pos2 as int) =~= dec_digits(nt as nat) + seq!['\n']);
        assert(text@ =~= enc_index(ix));
        // The artifact read back is well formed.
        assert forall|t: Seq<char>| #[trigger]
            ix.term_scores.as_map().contains_key(t) implies ix.term_scores.as_map()[t].wf() by {
            crate::maps::lemma_str_map_contains(terms.pairs(), t);
            let j = choose|j: int|
                0 <= j < terms.pairs().len() && #[trigger] terms.pairs()[j].0@ == t;
            crate::maps::lemma_str_map_get(terms.pairs(), j);
        }
    }
    Ok(ix)
}

/// The error a malformed artifact document reports.
fn parse_fail() -> (e: RFSeeError)
    ensures
        e is ParseError,
{
    RFSeeError::ParseError(String::from_str("malformed artifact document"))
}

} // verus!

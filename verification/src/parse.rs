use vstd::prelude::*;
use crate::error::{RFSeeError, RFSeeResult};
use crate::text::{chars_of, i32_str_ok, i32_str_val, parse_i32_range, range_to_string,
    string_from_chars, subrange_chars};

verus! {

// The master index is a header followed by records: the records start at the
// first occurrence of the record-start marker and are separated by a blank
// line. A record is a decimal RFC number, one space, and the title.

/// The record-start marker: the zero-padded number of the first RFC.
pub open spec fn index_start_pat() -> Seq<char> {
    seq!['0', '0', '0', '1']
}

/// The record separator: a blank line.
pub open spec fn record_sep() -> Seq<char> {
    seq!['\n', '\n']
}

/// The pattern whitespace folds over in titles: a newline and five spaces.
pub open spec fn cont_pat() -> Seq<char> {
    seq!['\n', ' ', ' ', ' ', ' ', ' ']
}

/// The pattern occurs in s at position i.
pub open spec fn match_at(s: Seq<char>, pat: Seq<char>, i: int) -> bool {
    0 <= i && i + pat.len() <= s.len() && s.subrange(i, i + pat.len()) == pat
}

/// The first position at or after i where the pattern occurs, or -1.
pub open spec fn first_match_from(s: Seq<char>, pat: Seq<char>, i: int) -> int
    decreases s.len() - i + 1,
    via first_match_from_decreases
{
    if i + pat.len() > s.len() || i > s.len() {
        -1
    } else if match_at(s, pat, i) {
        i
    } else {
        first_match_from(s, pat, i + 1)
    }
}

#[via_fn]
proof fn first_match_from_decreases(s: Seq<char>, pat: Seq<char>, i: int) {
}

pub proof fn lemma_first_match(s: Seq<char>, pat: Seq<char>, i: int)
    ensures
        first_match_from(s, pat, i) >= 0 ==> i <= first_match_from(s, pat, i) && match_at(
            s,
            pat,
            first_match_from(s, pat, i),
        ) && forall|j: int| i <= j < first_match_from(s, pat, i) ==> !match_at(s, pat, j),
        first_match_from(s, pat, i) < 0 ==> forall|j: int| j >= i ==> !match_at(s, pat, j),
    decreases s.len() - i + 1,
{
    if i + pat.len() > s.len() || i > s.len() {
    } else if match_at(s, pat, i) {
    } else {
        lemma_first_match(s, pat, i + 1);
    }
}

pub proof fn lemma_first_match_unique(s: Seq<char>, pat: Seq<char>, i: int, f: int)
    requires
        i <= f,
        match_at(s, pat, f),
        forall|j: int| i <= j < f ==> !match_at(s, pat, j),
    ensures
        first_match_from(s, pat, i) == f,
    decreases f - i,
{
    if i < f {
        lemma_first_match_unique(s, pat, i + 1, f);
    }
}

/// Occurrences in a suffix are occurrences in the whole, shifted.
pub proof fn lemma_match_shift(s: Seq<char>, pat: Seq<char>, start: int, k: int)
    requires
        0 <= start <= s.len(),
        0 <= k,
    ensures
        match_at(s, pat, start + k) == match_at(s.skip(start), pat, k),
{
    if start + k + pat.len() <= s.len() {
        assert(s.subrange(start + k, start + k + pat.len()) =~= s.skip(start).subrange(
            k,
            k + pat.len(),
        ));
    }
}

/// The pieces of s between occurrences of the separator pat, the possibly
/// empty final piece included.
pub open spec fn split_on(s: Seq<char>, pat: Seq<char>) -> Seq<Seq<char>>
    decreases s.len(),
    via split_on_decreases
{
    if pat.len() == 0 {
        seq![s]
    } else {
        let f = first_match_from(s, pat, 0);
        if f < 0 {
            seq![s]
        } else {
            seq![s.take(f)] + split_on(s.skip(f + pat.len()), pat)
        }
    }
}

#[via_fn]
proof fn split_on_decreases(s: Seq<char>, pat: Seq<char>) {
    if pat.len() > 0 {
        lemma_first_match(s, pat, 0);
    }
}

/// The position of the first occurrence of the pattern at or after `from`.
#[verifier::loop_isolation(false)]
pub fn find_from(s: &Vec<char>, pat: &Vec<char>, from: usize) -> (r: Option<usize>)
    requires
        pat@.len() >= 1,
        from <= s@.len(),
    ensures
        match r {
            Some(f) => f == first_match_from(s@, pat@, from as int),
            None => first_match_from(s@, pat@, from as int) < 0,
        },
{
    let n = s.len();
    let m = pat.len();
    let mut i: usize = from;
    while m <= n && i <= n - m
        invariant
            from <= i <= n + 1,
            forall|j: int| from <= j < i ==> !match_at(s@, pat@, j),
        decreases n + 1 - i,
    {
        proof {
            assert(s@.subrange(i as int, i as int) =~= pat@.take(0));
        }
        let mut k: usize = 0;
        let mut hit = true;
        while k < m
            invariant
                0 <= k <= m,
                i + m <= n,
                hit == (s@.subrange(i as int, i + k) == pat@.take(k as int)),
            decreases m - k,
        {
            if s[i + k] != pat[k] {
                hit = false;
                proof {
                    assert(s@.subrange(i as int, i + k + 1)[k as int] != pat@.take(k as int + 1)[
                        k as int
                    ]);
                }
            } else {
                proof {
                    let a = s@.subrange(i as int, i + k);
                    let b = pat@.take(k as int);
                    let a1 = s@.subrange(i as int, i + k + 1);
                    let b1 = pat@.take(k as int + 1);
                    if hit {
                        assert(a1 =~= b1);
                    } else {
                        assert(!(a =~= b));
                        let w = choose|w: int| 0 <= w < k && a[w] != b[w];
                        assert(a1[w] == a[w] && b1[w] == b[w]);
                        if a1 == b1 {
                            assert(a1[w] == b1[w]);
                            assert(false);
                        }
                    }
                }
            }
            k += 1;
        }
        if hit {
            proof {
                assert(pat@.take(m as int) =~= pat@);
                lemma_first_match_unique(s@, pat@, from as int, i as int);
            }
            return Some(i);
        }
        proof {
            assert(s@.subrange(i as int, i + m) != pat@) by {
                assert(pat@.take(m as int) =~= pat@);
            }
        }
        i += 1;
    }
    proof {
        lemma_first_match(s@, pat@, from as int);
        if first_match_from(s@, pat@, from as int) >= 0 {
            assert(match_at(s@, pat@, first_match_from(s@, pat@, from as int)));
            assert(false);
        }
    }
    None
}

/// Split the characters on a separator, keeping every piece.
#[verifier::loop_isolation(false)]
pub fn split_chars(s: &Vec<char>, pat: &Vec<char>) -> (r: Vec<String>)
    requires
        pat@.len() >= 1,
    ensures
        r@.len() == split_on(s@, pat@).len(),
        forall|i: int| 0 <= i < r@.len() ==> #[trigger] r@[i]@ == split_on(s@, pat@)[i],
{
    let n = s.len();
    let m = pat.len();
    let mut out: Vec<String> = Vec::new();
    let mut start: usize = 0;
    proof {
        assert(s@.skip(0) =~= s@);
    }
    loop
        invariant
            start <= n,
            n == s@.len(),
            m == pat@.len() >= 1,
            split_on(s@, pat@).len() == out@.len() + split_on(s@.skip(start as int), pat@).len(),
            forall|i: int|
                0 <= i < out@.len() ==> #[trigger] out@[i]@ == split_on(s@, pat@)[i],
            forall|i: int|
                0 <= i < split_on(s@.skip(start as int), pat@).len() ==> split_on(
                    s@.skip(start as int),
                    pat@,
                )[i] == split_on(s@, pat@)[out@.len() + i],
        decreases n - start + 1,
    {
        let found = find_from(s, pat, start);
        proof {
            lemma_first_match(s@, pat@, start as int);
            let rest = s@.skip(start as int);
            // Relate matches of the suffix to matches of the whole.
            assert forall|k: int| 0 <= k implies match_at(rest, pat@, k) == match_at(
                s@,
                pat@,
                start + k,
            ) by {
                lemma_match_shift(s@, pat@, start as int, k);
            }
        }
        match found {
            Some(f) => {
                let ghost oldout = out@;
                let ghost oldstart = start as int;
                let ghost rest = s@.skip(start as int);
                proof {
                    lemma_first_match_unique(rest, pat@, 0, f - start);
                    assert(split_on(rest, pat@) == seq![rest.take(f - start)] + split_on(
                        rest.skip(f - start + m),
                        pat@,
                    ));
                    assert(rest.take(f - start) =~= s@.subrange(start as int, f as int));
                    assert(rest.skip(f - start + m) =~= s@.skip(f + m));
                }
                let piece = range_to_string(s, start, f);
                out.push(piece);
                start = f + m;
                proof {
                    let whole = split_on(s@, pat@);
                    let restsplit = split_on(rest, pat@);
                    let newsplit = split_on(s@.skip(start as int), pat@);
                    assert(restsplit[0] == rest.take(f - oldstart));
                    assert forall|i: int| 0 <= i < out@.len() implies #[trigger] out@[i]@
                        == whole[i] by {
                        if i < oldout.len() {
                            assert(out@[i] == oldout[i]);
                        } else {
                            assert(out@[i]@ == rest.take(f - oldstart));
                            assert(restsplit[0] == whole[oldout.len() as int]);
                        }
                    }
                    assert forall|i: int| 0 <= i < newsplit.len() implies newsplit[i] == whole[
                        out@.len() + i
                    ] by {
                        assert(newsplit[i] == restsplit[i + 1]);
                        assert(restsplit[i + 1] == whole[oldout.len() + i + 1]);
                    }
                }
            },
            None => {
                let ghost oldout = out@;
                let ghost rest = s@.skip(start as int);
                proof {
                    lemma_first_match(rest, pat@, 0);
                    if first_match_from(rest, pat@, 0) >= 0 {
                        assert(match_at(rest, pat@, first_match_from(rest, pat@, 0)));
                        assert(false);
                    }
                    assert(split_on(rest, pat@) == seq![rest]);
                    assert(s@.subrange(start as int, n as int) =~= rest);
                }
                let piece = range_to_string(s, start, n);
                out.push(piece);
                proof {
                    let whole = split_on(s@, pat@);
                    assert forall|i: int| 0 <= i < out@.len() implies #[trigger] out@[i]@
                        == whole[i] by {
                        if i < oldout.len() {
                            assert(out@[i] == oldout[i]);
                        } else {
                            assert(out@[i]@ == rest);
                            assert(split_on(rest, pat@)[0] == whole[oldout.len() as int]);
                        }
                    }
                }
                return out;
            },
        }
    }
}

/// Split the master index text into raw records: everything from the first
/// record-start marker on, split on blank lines, the possibly empty trailing
/// record kept.
pub fn parse_rfc_index(content: &str) -> (r: RFSeeResult<Vec<String>>)
    ensures
        match r {
            Ok(v) => {
                let f = first_match_from(content@, index_start_pat(), 0);
                &&& f >= 0
                &&& v@.len() == split_on(content@.skip(f), record_sep()).len()
                &&& forall|i: int|
                    0 <= i < v@.len() ==> #[trigger] v@[i]@ == split_on(
                        content@.skip(f),
                        record_sep(),
                    )[i]
            },
            Err(e) => first_match_from(content@, index_start_pat(), 0) < 0 && e is ParseError,
        },
{
    let cs = chars_of(content);
    let pat: Vec<char> = vec!['0', '0', '0', '1'];
    let sep: Vec<char> = vec!['\n', '\n'];
    proof {
        assert(pat@ =~= index_start_pat());
        assert(sep@ =~= record_sep());
    }
    match find_from(&cs, &pat, 0) {
        Some(f) => {
            proof {
                lemma_first_match(cs@, pat@, 0);
            }
            let rest = subrange_chars(&cs, f, cs.len());
            proof {
                assert(rest@ =~= cs@.skip(f as int));
            }
            Ok(split_chars(&rest, &sep))
        },
        None => {
            Err(RFSeeError::ParseError(String::from_str("no records found in the RFC index")))
        },
    }
}

/// Split a raw record at its first space into the RFC number and the title.
pub fn parse_rfc_details(record: &str) -> (r: RFSeeResult<(i32, String)>)
    ensures
        match r {
            Ok((n, t)) => {
                let f = first_match_from(record@, seq![' '], 0);
                &&& f >= 0
                &&& i32_str_ok(record@.take(f))
                &&& n as int == i32_str_val(record@.take(f))
                &&& t@ == record@.skip(f + 1)
            },
            Err(e) => {
                let f = first_match_from(record@, seq![' '], 0);
                (f < 0 || !i32_str_ok(record@.take(f))) && e is ParseError
            },
        },
{
    let cs = chars_of(record);
    let sp: Vec<char> = vec![' '];
    proof {
        assert(sp@ =~= seq![' ']);
    }
    match find_from(&cs, &sp, 0) {
        Some(f) => {
            proof {
                lemma_first_match(cs@, sp@, 0);
                assert(cs@.subrange(0, f as int) =~= cs@.take(f as int));
            }
            match parse_i32_range(&cs, 0, f) {
                Ok(n) => {
                    let end = cs.len();
                    let title = range_to_string(&cs, f + 1, end);
                    proof {
                        assert(cs@.subrange(f + 1, cs@.len() as int) =~= cs@.skip(f + 1));
                    }
                    Ok((n, title))
                },
                Err(_) => Err(
                    RFSeeError::ParseError(
                        String::from_str("the RFC record does not begin with a number"),
                    ),
                ),
            }
        },
        None => Err(
            RFSeeError::ParseError(String::from_str("the RFC record has no space after the number")),
        ),
    }
}

/// Titles with folded continuation lines: every occurrence of a newline
/// followed by five spaces becomes a single space.
pub open spec fn replace_nl(s: Seq<char>) -> Seq<char>
    decreases s.len(),
{
    if s.len() == 0 {
        Seq::empty()
    } else if s.len() >= 6 && s.take(6) == cont_pat() {
        seq![' '] + replace_nl(s.skip(6))
    } else {
        seq![s[0]] + replace_nl(s.skip(1))
    }
}

/// Fold the continuation lines of a record title into single spaces.
#[verifier::loop_isolation(false)]
pub fn normalize_title(title: &str) -> (r: String)
    ensures
        r@ == replace_nl(title@),
{
    let cs = chars_of(title);
    let n = cs.len();
    let mut out: Vec<char> = Vec::new();
    let mut i: usize = 0;
    proof {
        assert(cs@.skip(0) =~= cs@);
        assert(out@ + replace_nl(cs@) =~= replace_nl(cs@));
    }
    while i < n
        invariant
            i <= n,
            replace_nl(cs@) == out@ + replace_nl(cs@.skip(i as int)),
        decreases n - i,
    {
        let ghost rest = cs@.skip(i as int);
        let ghost oldout = out@;
        let hit = n - i >= 6 && cs[i] == '\n' && cs[i + 1] == ' ' && cs[i + 2] == ' ' && cs[i + 3]
            == ' ' && cs[i + 4] == ' ' && cs[i + 5] == ' ';
        if hit {
            proof {
                assert(rest.take(6) =~= cont_pat());
            }
            out.push(' ');
            i += 6;
            proof {
                assert(rest.skip(6) =~= cs@.skip(i as int));
                assert(oldout + (seq![' '] + replace_nl(cs@.skip(i as int))) =~= out@ + replace_nl(
                    cs@.skip(i as int),
                ));
            }
        } else {
            proof {
                if rest.len() >= 6 && rest.take(6) == cont_pat() {
                    assert(rest.take(6)[0] == cs@[i as int]);
                    assert(rest.take(6)[1] == cs@[i as int + 1]);
                    assert(rest.take(6)[2] == cs@[i as int + 2]);
                    assert(rest.take(6)[3] == cs@[i as int + 3]);
                    assert(rest.take(6)[4] == cs@[i as int + 4]);
                    assert(rest.take(6)[5] == cs@[i as int + 5]);
                    assert(false);
                }
                assert(rest[0] == cs@[i as int]);
            }
            out.push(cs[i]);
            i += 1;
            proof {
                assert(rest.skip(1) =~= cs@.skip(i as int));
                assert(oldout + (seq![cs@[i as int - 1]] + replace_nl(cs@.skip(i as int))) =~= out@
                    + replace_nl(cs@.skip(i as int)));
            }
        }
    }
    proof {
        assert(cs@.skip(n as int) =~= Seq::<char>::empty());
        assert(out@ + replace_nl(cs@.skip(n as int)) =~= out@);
    }
    string_from_chars(&out)
}

/// The scheme separator of a URL.
pub open spec fn scheme_sep() -> Seq<char> {
    seq![':', '/', '/']
}

/// Split a URL of the form scheme "://" host "/" path into its host and
/// path.
pub fn split_url(url: &str) -> (r: RFSeeResult<(String, String)>)
    ensures
        match r {
            Ok((host, path)) => {
                let f = first_match_from(url@, scheme_sep(), 0);
                let rest = url@.skip(f + 3);
                let g = first_match_from(rest, seq!['/'], 0);
                &&& f >= 0
                &&& g >= 0
                &&& host@ == rest.take(g)
                &&& path@ == rest.skip(g + 1)
            },
            Err(e) => {
                let f = first_match_from(url@, scheme_sep(), 0);
                (f < 0 || first_match_from(url@.skip(f + 3), seq!['/'], 0) < 0) && e is ParseError
            },
        },
{
    let cs = chars_of(url);
    let sep: Vec<char> = vec![':', '/', '/'];
    proof {
        assert(sep@ =~= scheme_sep());
    }
    match find_from(&cs, &sep, 0) {
        Some(f) => {
            let end = cs.len();
            proof {
                lemma_first_match(cs@, sep@, 0);
                assert(f + 3 <= cs@.len());
            }
            let rest = subrange_chars(&cs, f + 3, end);
            proof {
                assert(rest@ =~= cs@.skip(f + 3));
            }
            let slash: Vec<char> = vec!['/'];
            proof {
                assert(slash@ =~= seq!['/']);
            }
            match find_from(&rest, &slash, 0) {
                Some(g) => {
                    proof {
                        lemma_first_match(rest@, slash@, 0);
                        assert(rest@.subrange(0, g as int) =~= rest@.take(g as int));
                        assert(rest@.subrange(g + 1, rest@.len() as int) =~= rest@.skip(g + 1));
                    }
                    let host = range_to_string(&rest, 0, g);
                    let path = range_to_string(&rest, g + 1, rest.len());
                    Ok((host, path))
                },
                None => Err(
                    RFSeeError::ParseError(
                        String::from_str("the URL has no path after its host"),
                    ),
                ),
            }
        },
        None => Err(
            RFSeeError::ParseError(String::from_str("the URL has no scheme separator")),
        ),
    }
}

} // verus!

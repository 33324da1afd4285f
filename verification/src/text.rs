use vstd::prelude::*;

verus! {

// Decimal notation for the numbers that appear in records, URLs and the
// artifact: spec-level digit strings with their values, and executable
// printing and parsing proved against them.

pub open spec fn is_digit(c: char) -> bool {
    '0' <= c && c <= '9'
}

pub open spec fn all_digits(s: Seq<char>) -> bool {
    forall|i: int| 0 <= i < s.len() ==> is_digit(#[trigger] s[i])
}

/// The value of a digit string, most significant digit first.
pub open spec fn digits_val(s: Seq<char>) -> int
    decreases s.len(),
{
    if s.len() == 0 {
        0
    } else {
        digits_val(s.drop_last()) * 10 + (s.last() as int - 48)
    }
}

/// The canonical decimal digits of n: no sign, no leading zeros.
pub open spec fn dec_digits(n: nat) -> Seq<char>
    decreases n,
    via dec_digits_decreases
{
    if n < 10 {
        seq![((48 + n) as u8) as char]
    } else {
        dec_digits(n / 10).push(((48 + n % 10) as u8) as char)
    }
}

#[via_fn]
proof fn dec_digits_decreases(n: nat) {
    if n >= 10 {
        vstd::arithmetic::div_mod::lemma_div_decreases(n as int, 10);
    }
}

/// The canonical decimal notation of an integer, with a leading minus sign
/// when it is negative.
pub open spec fn int_chars(n: int) -> Seq<char> {
    if n < 0 {
        seq!['-'] + dec_digits((-n) as nat)
    } else {
        dec_digits(n as nat)
    }
}

pub proof fn lemma_digits_val_nonneg(s: Seq<char>)
    requires
        all_digits(s),
    ensures
        digits_val(s) >= 0,
    decreases s.len(),
{
    if s.len() > 0 {
        assert(all_digits(s.drop_last())) by {
            assert(forall|i: int|
                0 <= i < s.len() - 1 ==> #[trigger] s.drop_last()[i] == s[i]);
        }
        lemma_digits_val_nonneg(s.drop_last());
    }
}

/// A digit string is worth at least any of its prefixes.
pub proof fn lemma_digits_val_prefix(s: Seq<char>, i: int)
    requires
        all_digits(s),
        0 <= i <= s.len(),
    ensures
        digits_val(s.take(i)) <= digits_val(s),
    decreases s.len() - i,
{
    if i < s.len() {
        assert(all_digits(s.take(i + 1))) by {
            assert(forall|j: int| 0 <= j < i + 1 ==> #[trigger] s.take(i + 1)[j] == s[j]);
        }
        assert(s.take(i + 1).drop_last() =~= s.take(i));
        lemma_digits_val_nonneg(s.take(i + 1));
        lemma_digits_val_nonneg(s.take(i));
        lemma_digits_val_prefix(s, i + 1);
        assert(digits_val(s.take(i + 1)) == digits_val(s.take(i)) * 10 + (s[i] as int - 48));
    } else {
        assert(s.take(i) =~= s);
    }
}

/// The canonical digits of n are digits, start with no spurious zero, and
/// are worth n.
pub proof fn lemma_dec_digits(n: nat)
    ensures
        dec_digits(n).len() >= 1,
        all_digits(dec_digits(n)),
        digits_val(dec_digits(n)) == n,
        n > 0 ==> dec_digits(n)[0] != '0',
        n < 10 ==> dec_digits(n).len() == 1,
    decreases n,
{
    if n < 10 {
        let s = dec_digits(n);
        assert(s.drop_last() =~= Seq::<char>::empty());
        assert(digits_val(Seq::<char>::empty()) == 0);
        assert(s.last() as int == 48 + n);
        assert(digits_val(s) == s.last() as int - 48);
    } else {
        lemma_dec_digits(n / 10);
        let s = dec_digits(n);
        let t = dec_digits(n / 10);
        assert(s.drop_last() =~= t);
        assert(s.last() as int == 48 + n % 10);
        assert(digits_val(s) == digits_val(t) * 10 + (n % 10));
        assert((n / 10) * 10 + (n % 10) == n);
        assert(s[0] == t[0]);
    }
}

/// A nonempty digit string without a spurious leading zero is worth at
/// least one when it starts past zero, ten when it is longer.
pub proof fn lemma_digits_val_min(s: Seq<char>)
    requires
        all_digits(s),
        s.len() >= 1,
        s[0] != '0',
    ensures
        digits_val(s) >= 1,
        s.len() >= 2 ==> digits_val(s) >= 10,
    decreases s.len(),
{
    if s.len() == 1 {
        assert(s.drop_last() =~= Seq::<char>::empty());
        assert(digits_val(Seq::<char>::empty()) == 0);
        assert(is_digit(s[0]));
    } else {
        assert(all_digits(s.drop_last())) by {
            assert(forall|i: int| 0 <= i < s.len() - 1 ==> #[trigger] s.drop_last()[i] == s[i]);
        }
        lemma_digits_val_min(s.drop_last());
        assert(is_digit(s.last()));
    }
}

/// A digit string in canonical form is the canonical digits of its value.
pub proof fn lemma_canonical_digits(s: Seq<char>)
    requires
        all_digits(s),
        s.len() >= 1,
        s.len() >= 2 ==> s[0] != '0',
    ensures
        0 <= digits_val(s),
        s == dec_digits(digits_val(s) as nat),
    decreases s.len(),
{
    lemma_digits_val_nonneg(s);
    if s.len() == 1 {
        assert(s.drop_last() =~= Seq::<char>::empty());
        assert(digits_val(Seq::<char>::empty()) == 0);
        assert(is_digit(s[0]));
        assert(digits_val(s) == s[0] as int - 48);
        assert(((48 + digits_val(s)) as u8) as char == s[0]);
        assert(s =~= dec_digits(digits_val(s) as nat));
    } else {
        let t = s.drop_last();
        assert(all_digits(t)) by {
            assert(forall|i: int| 0 <= i < s.len() - 1 ==> #[trigger] t[i] == s[i]);
        }
        lemma_canonical_digits(t);
        lemma_digits_val_min(t);
        let v = digits_val(s);
        let d = s.last() as int - 48;
        assert(is_digit(s.last()));
        assert(v == digits_val(t) * 10 + d);
        vstd::arithmetic::div_mod::lemma_fundamental_div_mod_converse(
            v,
            10,
            digits_val(t),
            d,
        );
        assert(v >= 10);
        assert(((48 + v % 10) as u8) as char == s.last());
        assert(s =~= dec_digits(v as nat));
    }
}

/// Append the canonical decimal digits of n.
pub fn push_u64_digits(out: &mut Vec<char>, n: u64)
    ensures
        final(out)@ == old(out)@ + dec_digits(n as nat),
    decreases n,
{
    if n < 10 {
        out.push((48 + n as u8) as char);
        proof {
            assert(out@ =~= old(out)@ + dec_digits(n as nat));
        }
    } else {
        push_u64_digits(out, n / 10);
        out.push((48 + (n % 10) as u8) as char);
        proof {
            assert(out@ =~= old(out)@ + dec_digits(n as nat));
        }
    }
}

/// Append the canonical decimal notation of n.
pub fn push_i32_chars(out: &mut Vec<char>, n: i32)
    ensures
        final(out)@ == old(out)@ + int_chars(n as int),
{
    let wide: i64 = n as i64;
    if wide < 0 {
        out.push('-');
        push_u64_digits(out, (-wide) as u64);
        proof {
            assert(out@ =~= old(out)@ + int_chars(n as int));
        }
    } else {
        push_u64_digits(out, wide as u64);
    }
}

// The digit strings accepted as a 32-bit integer: an optional sign, then
// digits only, within range. This is what the record parser accepts.

pub open spec fn i32_body(s: Seq<char>) -> Seq<char> {
    if s.len() > 0 && (s[0] == '+' || s[0] == '-') {
        s.skip(1)
    } else {
        s
    }
}

pub open spec fn i32_str_ok(s: Seq<char>) -> bool {
    let body = i32_body(s);
    &&& body.len() > 0
    &&& all_digits(body)
    &&& if s.len() > 0 && s[0] == '-' {
        digits_val(body) <= 0x80000000
    } else {
        digits_val(body) <= 0x7fffffff
    }
}

pub open spec fn i32_str_val(s: Seq<char>) -> int {
    if s.len() > 0 && s[0] == '-' {
        -digits_val(i32_body(s))
    } else {
        digits_val(i32_body(s))
    }
}

/// Parse a decimal 32-bit integer from a character range, accepting exactly
/// an optional sign followed by in-range digits.
#[verifier::loop_isolation(false)]
pub fn parse_i32_range(s: &Vec<char>, start: usize, end: usize) -> (r: Result<i32, ()>)
    requires
        start <= end <= s@.len(),
    ensures
        match r {
            Ok(v) => i32_str_ok(s@.subrange(start as int, end as int)) && v as int == i32_str_val(
                s@.subrange(start as int, end as int),
            ),
            Err(_) => !i32_str_ok(s@.subrange(start as int, end as int)),
        },
{
    let ghost whole = s@.subrange(start as int, end as int);
    if start == end {
        return Err(());
    }
    let first = s[start];
    let neg = first == '-';
    let bstart: usize = if first == '-' || first == '+' {
        start + 1
    } else {
        start
    };
    let ghost body = i32_body(whole);
    proof {
        assert(body =~= s@.subrange(bstart as int, end as int));
    }
    if bstart == end {
        return Err(());
    }
    let mut acc: u64 = 0;
    let mut j: usize = bstart;
    while j < end
        invariant
            start <= bstart <= j <= end <= s@.len(),
            body == s@.subrange(bstart as int, end as int),
            all_digits(body.take(j - bstart)),
            acc == digits_val(body.take(j - bstart)),
            acc <= 0x80000000,
        decreases end - j,
    {
        let c = s[j];
        if c < '0' || c > '9' {
            proof {
                assert(body[j - bstart] == c);
                if i32_str_ok(whole) {
                    assert(all_digits(i32_body(whole)));
                    assert(is_digit(i32_body(whole)[j - bstart]));
                    assert(false);
                }
            }
            return Err(());
        }
        let d: u64 = (c as u32 - 48) as u64;
        acc = acc * 10 + d;
        j += 1;
        proof {
            assert(body.take(j - bstart).drop_last() =~= body.take(j - bstart - 1));
            assert(body.take(j - bstart).last() == c);
        }
        if acc > 0x80000000 {
            proof {
                assert(acc == digits_val(body.take(j - bstart)));
                if i32_str_ok(whole) {
                    assert(all_digits(i32_body(whole)));
                    assert(all_digits(body)) by {
                        assert(forall|i: int|
                            0 <= i < body.len() ==> #[trigger] body[i] == i32_body(whole)[i]);
                    }
                    lemma_digits_val_prefix(body, j - bstart);
                    assert(false);
                }
            }
            return Err(());
        }
    }
    proof {
        assert(body.take(end - bstart) =~= body);
    }
    if neg {
        Ok((-(acc as i64)) as i32)
    } else {
        if acc > 0x7fffffff {
            return Err(());
        }
        Ok(acc as i32)
    }
}

/// Collect the characters of a string slice into a vector.
pub fn chars_of(s: &str) -> (r: Vec<char>)
    ensures
        r@ == s@,
{
    let n = s.unicode_len();
    let mut r: Vec<char> = Vec::new();
    let mut i: usize = 0;
    while i < n
        invariant
            n == s@.len(),
            i <= n,
            r@ == s@.take(i as int),
        decreases n - i,
    {
        r.push(s.get_char(i));
        i += 1;
        proof {
            assert(r@ =~= s@.take(i as int));
        }
    }
    proof {
        assert(r@ =~= s@);
    }
    r
}

/// Character-wise string equality.
pub fn str_eq(a: &str, b: &str) -> (r: bool)
    ensures
        r == (a@ == b@),
{
    let na = a.unicode_len();
    let nb = b.unicode_len();
    if na != nb {
        return false;
    }
    let mut i: usize = 0;
    while i < na
        invariant
            na == a@.len(),
            na == b@.len(),
            i <= na,
            forall|j: int| 0 <= j < i ==> a@[j] == b@[j],
        decreases na - i,
    {
        if a.get_char(i) != b.get_char(i) {
            return false;
        }
        i += 1;
    }
    proof {
        assert(a@ =~= b@);
    }
    true
}

/// The characters of a range of a vector.
#[verifier::loop_isolation(false)]
pub fn subrange_chars(s: &Vec<char>, a: usize, b: usize) -> (r: Vec<char>)
    requires
        a <= b <= s@.len(),
    ensures
        r@ == s@.subrange(a as int, b as int),
{
    let mut out: Vec<char> = Vec::new();
    let mut i: usize = a;
    while i < b
        invariant
            a <= i <= b,
            out@ == s@.subrange(a as int, i as int),
        decreases b - i,
    {
        out.push(s[i]);
        i += 1;
        proof {
            assert(out@ =~= s@.subrange(a as int, i as int));
        }
    }
    out
}

/// The characters of a range of a vector, as a string.
#[verifier::loop_isolation(false)]
pub fn range_to_string(s: &Vec<char>, a: usize, b: usize) -> (r: String)
    requires
        a <= b <= s@.len(),
    ensures
        r@ == s@.subrange(a as int, b as int),
{
    let mut out: Vec<char> = Vec::new();
    let mut i: usize = a;
    while i < b
        invariant
            a <= i <= b,
            out@ == s@.subrange(a as int, i as int),
        decreases b - i,
    {
        out.push(s[i]);
        i += 1;
        proof {
            assert(out@ =~= s@.subrange(a as int, i as int));
        }
    }
    string_from_chars(&out)
}

/// Relies on `String: FromIterator<char>`: collecting chars yields the string
/// of exactly those chars.
#[verifier::external_body]
pub(crate) fn string_from_chars(v: &Vec<char>) -> (r: String)
    ensures
        r@ == v@,
{
    v.iter().collect()
}

} // verus!

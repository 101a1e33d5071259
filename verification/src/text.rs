//! Character-level helpers shared by record parsing and display truncation:
//! what counts as blank space or a digit, trimming, and the cleaning of
//! embedded line breaks.
use vstd::prelude::*;

verus! {

/// The blank characters stripped from the ends of a record's text.
pub open spec fn is_space(c: char) -> bool {
    c == ' ' || c == '\t' || c == '\n' || c == '\r'
}

/// The ten ASCII digits.
pub open spec fn is_digit(c: char) -> bool {
    '0' <= c && c <= '9'
}

/// The numeric value of one ASCII digit.
pub open spec fn digit_val(c: char) -> int {
    c as int - '0' as int
}

/// The number written by a sequence of ASCII digits, most significant first.
pub open spec fn digits_val(s: Seq<char>) -> int
    decreases s.len(),
{
    if s.len() == 0 {
        0
    } else {
        digits_val(s.drop_last()) * 10 + digit_val(s.last())
    }
}

/// True when every character of `s` is an ASCII digit.
pub open spec fn all_digits(s: Seq<char>) -> bool {
    forall|i: int| 0 <= i < s.len() ==> is_digit(s[i])
}

/// `s` without its leading blank characters.
pub open spec fn drop_leading_spaces(s: Seq<char>) -> Seq<char>
    decreases s.len(),
{
    if s.len() > 0 && is_space(s[0]) {
        drop_leading_spaces(s.skip(1))
    } else {
        s
    }
}

/// `s` without its trailing blank characters.
pub open spec fn drop_trailing_spaces(s: Seq<char>) -> Seq<char>
    decreases s.len(),
{
    if s.len() > 0 && is_space(s.last()) {
        drop_trailing_spaces(s.drop_last())
    } else {
        s
    }
}

/// `s` without blank characters at either end.
pub open spec fn trimmed(s: Seq<char>) -> Seq<char> {
    drop_trailing_spaces(drop_leading_spaces(s))
}

/// A record's text made fit for a single terminal line: carriage returns
/// vanish and line feeds become single spaces.
pub open spec fn cleaned(s: Seq<char>) -> Seq<char>
    decreases s.len(),
{
    if s.len() == 0 {
        Seq::<char>::empty()
    } else {
        let rest = cleaned(s.drop_last());
        if s.last() == '\r' {
            rest
        } else if s.last() == '\n' {
            rest.push(' ')
        } else {
            rest.push(s.last())
        }
    }
}

/// A record's text made one line and cut to at most `max_len` characters.
pub open spec fn truncated_line(s: Seq<char>, max_len: int) -> Seq<char> {
    if cleaned(s).len() <= max_len {
        cleaned(s)
    } else {
        cleaned(s).take(max_len)
    }
}

/// A sequence of digits names a number no smaller than zero.
pub proof fn lemma_digits_val_nonneg(s: Seq<char>)
    requires
        all_digits(s),
    ensures
        digits_val(s) >= 0,
    decreases s.len(),
{
    if s.len() > 0 {
        assert(all_digits(s.drop_last())) by {
            assert(forall|i: int| 0 <= i < s.len() - 1 ==> s.drop_last()[i] == s[i]);
        }
        lemma_digits_val_nonneg(s.drop_last());
        assert(is_digit(s.last()));
    }
}

/// Reading more digits never shrinks the number: the value of a prefix is
/// at most the value of the whole.
pub proof fn lemma_digits_val_prefix_le(s: Seq<char>, k: int)
    requires
        all_digits(s),
        0 <= k <= s.len(),
    ensures
        digits_val(s.take(k)) <= digits_val(s),
    decreases s.len() - k,
{
    if k == s.len() {
        assert(s.take(k) =~= s);
    } else {
        lemma_digits_val_prefix_le(s, k + 1);
        let p = s.take(k);
        let p1 = s.take(k + 1);
        assert(p1.drop_last() =~= p);
        assert(p1.last() == s[k]);
        assert(all_digits(p)) by {
            assert(forall|i: int| 0 <= i < k ==> p[i] == s[i]);
        }
        lemma_digits_val_nonneg(p);
        assert(is_digit(s[k]));
        assert(digits_val(p1) == digits_val(p) * 10 + digit_val(s[k]));
        assert(digits_val(p) * 10 >= digits_val(p));
    }
}

/// Relies on `String::from_iter` over the characters of a `Vec<char>`: the
/// collected string holds exactly those characters in order.
#[verifier::external_body]
pub(crate) fn string_from_chars(chars: &Vec<char>) -> (r: String)
    ensures
        r@ == chars@,
{
    chars.iter().collect()
}

/// The string with one character appended.
pub fn append_char(s: &str, c: char) -> (r: String)
    ensures
        r@ == s@.push(c),
{
    let n = s.unicode_len();
    let mut out: Vec<char> = Vec::new();
    let mut i: usize = 0;
    while i < n
        invariant
            0 <= i <= n,
            n == s@.len(),
            out@ == s@.take(i as int),
        decreases n - i,
    {
        out.push(s.get_char(i));
        proof {
            assert(s@.take(i + 1) =~= s@.take(i as int).push(s@[i as int]));
        }
        i = i + 1;
    }
    out.push(c);
    proof {
        assert(s@.take(n as int) =~= s@);
    }
    string_from_chars(&out)
}

/// The string with its last character removed; the empty string stays
/// empty.
pub fn drop_last_char(s: &str) -> (r: String)
    ensures
        s@.len() > 0 ==> r@ == s@.drop_last(),
        s@.len() == 0 ==> r@ == s@,
{
    let n = s.unicode_len();
    let m = if n > 0 {
        n - 1
    } else {
        0
    };
    let mut out: Vec<char> = Vec::new();
    let mut i: usize = 0;
    while i < m
        invariant
            0 <= i <= m < n || (i <= m && m == n == 0),
            n == s@.len(),
            out@ == s@.take(i as int),
        decreases m - i,
    {
        out.push(s.get_char(i));
        proof {
            assert(s@.take(i + 1) =~= s@.take(i as int).push(s@[i as int]));
        }
        i = i + 1;
    }
    proof {
        if n > 0 {
            assert(s@.take(m as int) =~= s@.drop_last());
        } else {
            assert(s@.take(0) =~= s@);
        }
    }
    string_from_chars(&out)
}

} // verus!

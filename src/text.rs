//! Textual forms of leaf values: decimal integers, quoted strings, and the
//! parsers that read them back.
use vstd::prelude::*;
use vstd::string::*;

verus! {

pub open spec fn is_digit(c: char) -> bool {
    '0' <= c && c <= '9'
}

pub open spec fn digit_value(c: char) -> nat {
    (c as int - '0' as int) as nat
}

pub open spec fn digit_char(d: nat) -> char {
    if d == 0 {
        '0'
    } else if d == 1 {
        '1'
    } else if d == 2 {
        '2'
    } else if d == 3 {
        '3'
    } else if d == 4 {
        '4'
    } else if d == 5 {
        '5'
    } else if d == 6 {
        '6'
    } else if d == 7 {
        '7'
    } else if d == 8 {
        '8'
    } else {
        '9'
    }
}

pub open spec fn all_digits(s: Seq<char>) -> bool {
    forall|i: int| 0 <= i < s.len() ==> is_digit(#[trigger] s[i])
}

/// The number that a run of decimal digits denotes.
pub open spec fn digits_value(s: Seq<char>) -> nat
    decreases s.len(),
{
    if s.len() == 0 {
        0
    } else {
        digits_value(s.drop_last()) * 10 + digit_value(s.last())
    }
}

/// The decimal digits of `n`, without leading zeros.
pub open spec fn decimal(n: nat) -> Seq<char>
    decreases n,
{
    if n < 10 {
        seq![digit_char(n)]
    } else {
        decimal(n / 10).push(digit_char(n % 10))
    }
}

/// The text of an integer: a minus sign for negative values, then its digits.
pub open spec fn int_text(v: int) -> Seq<char> {
    if v < 0 {
        seq!['-'] + decimal((-v) as nat)
    } else {
        decimal(v as nat)
    }
}

pub open spec fn digit_run(s: Seq<char>) -> bool {
    s.len() > 0 && all_digits(s)
}

/// The integer that `s` spells: an optional sign (a minus sign only where
/// `signed`), then at least one decimal digit, and nothing else.
pub open spec fn int_value_of(s: Seq<char>, signed: bool) -> Option<int> {
    if s.len() > 0 && s[0] == '-' && signed {
        if digit_run(s.drop_first()) {
            Some(-digits_value(s.drop_first()))
        } else {
            None
        }
    } else if s.len() > 0 && s[0] == '+' {
        if digit_run(s.drop_first()) {
            Some(digits_value(s.drop_first()) as int)
        } else {
            None
        }
    } else if digit_run(s) {
        Some(digits_value(s) as int)
    } else {
        None
    }
}

pub proof fn lemma_digit_char(d: nat)
    requires
        d < 10,
    ensures
        is_digit(digit_char(d)),
        digit_value(digit_char(d)) == d,
{
}

pub proof fn lemma_decimal(n: nat)
    ensures
        digit_run(decimal(n)),
        digits_value(decimal(n)) == n,
    decreases n,
{
    lemma_digit_char(n % 10);
    if n < 10 {
        let s = decimal(n);
        assert(s.drop_last() =~= Seq::<char>::empty());
        assert(digits_value(s) == digits_value(s.drop_last()) * 10 + digit_value(s.last()));
        assert(digits_value(s.drop_last()) == 0);
    } else {
        lemma_decimal(n / 10);
        let s = decimal(n);
        assert(s.drop_last() =~= decimal(n / 10));
        assert(s.last() == digit_char(n % 10));
        assert((n / 10) * 10 + n % 10 == n);
        assert(digits_value(s) == digits_value(s.drop_last()) * 10 + digit_value(s.last()));
        assert forall|i: int| 0 <= i < s.len() implies is_digit(#[trigger] s[i]) by {
            if i < s.len() - 1 {
                assert(s[i] == decimal(n / 10)[i]);
            }
        }
    }
}

/// Reading back the text of an integer gives the integer.
pub proof fn lemma_int_text_round_trip(v: int, signed: bool)
    requires
        signed || v >= 0,
    ensures
        int_value_of(int_text(v), signed) == Some(v),
{
    if v < 0 {
        lemma_decimal((-v) as nat);
        assert((seq!['-'] + decimal((-v) as nat)).drop_first() =~= decimal((-v) as nat));
    } else {
        lemma_decimal(v as nat);
        assert(is_digit(decimal(v as nat)[0]));
    }
}

proof fn lemma_digits_value_prefix(s: Seq<char>, k: int)
    requires
        all_digits(s),
        0 <= k <= s.len(),
    ensures
        digits_value(s.take(k)) <= digits_value(s),
    decreases s.len(),
{
    if k < s.len() {
        let t = s.drop_last();
        assert(all_digits(t)) by {
            assert forall|i: int| 0 <= i < t.len() implies is_digit(#[trigger] t[i]) by {
                assert(t[i] == s[i]);
            }
        }
        lemma_digits_value_prefix(t, k);
        assert(t.take(k) =~= s.take(k));
    } else {
        assert(s.take(k) =~= s);
    }
}

/// Relies on `String::push`: appends one character to the string.
#[verifier::external_body]
pub(crate) fn push_char(s: &mut String, c: char)
    ensures
        final(s)@ == old(s)@.push(c),
{
    s.push(c);
}

fn digit_to_char(d: u128) -> (c: char)
    requires
        d < 10,
    ensures
        c == digit_char(d as nat),
{
    if d == 0 {
        '0'
    } else if d == 1 {
        '1'
    } else if d == 2 {
        '2'
    } else if d == 3 {
        '3'
    } else if d == 4 {
        '4'
    } else if d == 5 {
        '5'
    } else if d == 6 {
        '6'
    } else if d == 7 {
        '7'
    } else if d == 8 {
        '8'
    } else {
        '9'
    }
}

/// Appends the decimal digits of `n` to `s`.
pub fn push_decimal(s: &mut String, n: u128)
    ensures
        final(s)@ == old(s)@ + decimal(n as nat),
    decreases n,
{
    if n >= 10 {
        push_decimal(s, n / 10);
    }
    push_char(s, digit_to_char(n % 10));
    proof {
        if n >= 10 {
            assert(decimal(n as nat) == decimal((n / 10) as nat).push(digit_char((n % 10) as nat)));
        }
    }
    assert(final(s)@ =~= old(s)@ + decimal(n as nat));
}

/// Reads the run of digits `s[start..]` as a number no larger than `limit`;
/// `None` where it is empty, holds anything but digits, or exceeds `limit`.
pub fn parse_digits(s: &str, start: usize, limit: u128) -> (r: Option<u128>)
    requires
        start <= s@.len(),
    ensures
        ({
            let rest = s@.subrange(start as int, s@.len() as int);
            match r {
                Some(m) => digit_run(rest) && m == digits_value(rest) && m <= limit,
                None => !digit_run(rest) || digits_value(rest) > limit,
            }
        }),
{
    let ghost rest = s@.subrange(start as int, s@.len() as int);
    let len = s.unicode_len();
    if start >= len {
        return None;
    }
    let mut acc: u128 = 0;
    let mut i: usize = start;
    while i < len
        invariant
            start <= i <= len,
            len == s@.len(),
            rest == s@.subrange(start as int, s@.len() as int),
            all_digits(rest.take(i - start)),
            acc == digits_value(rest.take(i - start)),
            acc <= limit,
        decreases len - i,
    {
        let c = s.get_char(i);
        if !('0' <= c && c <= '9') {
            proof {
                assert(rest[i - start] == c);
            }
            return None;
        }
        let d: u128 = (c as u32 - '0' as u32) as u128;
        let ghost pre = rest.take(i - start);
        let ghost next = rest.take(i - start + 1);
        proof {
            assert(next.drop_last() =~= pre);
            assert(next.last() == c);
            assert(all_digits(next)) by {
                assert forall|j: int| 0 <= j < next.len() implies is_digit(#[trigger] next[j]) by {
                    if j < pre.len() {
                        assert(next[j] == pre[j]);
                    }
                }
            }
        }
        if d > limit || acc > (limit - d) / 10 {
            proof {
                assert(acc * 10 + d > limit) by (nonlinear_arith)
                    requires
                        d > limit || acc > (limit - d) / 10,
                ;
                if all_digits(rest) {
                    lemma_digits_value_prefix(rest, i - start + 1);
                    assert(rest.take(i - start + 1) == next);
                }
            }
            return None;
        }
        proof {
            assert(acc * 10 + d <= limit) by (nonlinear_arith)
                requires
                    d <= limit,
                    acc <= (limit - d) / 10,
            ;
        }
        acc = acc * 10 + d;
        i = i + 1;
    }
    assert(rest.take(i - start) =~= rest);
    Some(acc)
}

pub open spec fn within(v: int, neg_limit: u128, pos_limit: u128) -> bool {
    -(neg_limit as int) <= v <= pos_limit as int
}

/// Reads `s` as an integer between `-neg_limit` and `pos_limit`, returned as
/// its sign (`true` for a leading minus) and its magnitude.
pub fn parse_int(s: &str, signed: bool, neg_limit: u128, pos_limit: u128) -> (r: Option<(bool, u128)>)
    ensures
        match r {
            Some((neg, m)) => int_value_of(s@, signed) == Some(if neg { -(m as int) } else { m as int })
                && within(if neg { -(m as int) } else { m as int }, neg_limit, pos_limit),
            None => match int_value_of(s@, signed) {
                Some(v) => !within(v, neg_limit, pos_limit),
                None => true,
            },
        },
{
    let len = s.unicode_len();
    proof {
        assert(s@.subrange(0, s@.len() as int) =~= s@);
        if s@.len() > 0 {
            assert(s@.subrange(1, s@.len() as int) =~= s@.drop_first());
        }
    }
    if len > 0 && signed && s.get_char(0) == '-' {
        match parse_digits(s, 1, neg_limit) {
            Some(m) => Some((true, m)),
            None => None,
        }
    } else if len > 0 && s.get_char(0) == '+' {
        match parse_digits(s, 1, pos_limit) {
            Some(m) => Some((false, m)),
            None => None,
        }
    } else {
        match parse_digits(s, 0, pos_limit) {
            Some(m) => Some((false, m)),
            None => None,
        }
    }
}

pub open spec fn escape_char(c: char) -> Seq<char> {
    if c == '"' || c == '\\' {
        seq!['\\', c]
    } else {
        seq![c]
    }
}

/// `s` with a backslash put before each quote and each backslash.
pub open spec fn escaped(s: Seq<char>) -> Seq<char>
    decreases s.len(),
{
    if s.len() == 0 {
        Seq::empty()
    } else {
        escape_char(s[0]) + escaped(s.drop_first())
    }
}

/// The quoted form in which a string leaf is shown.
pub open spec fn quoted(s: Seq<char>) -> Seq<char> {
    seq!['"'] + escaped(s) + seq!['"']
}

/// `t` with each backslash dropped and the character after it kept as it is.
pub open spec fn unescaped(t: Seq<char>) -> Seq<char>
    decreases t.len(),
{
    if t.len() == 0 {
        Seq::empty()
    } else if t[0] == '\\' && t.len() >= 2 {
        seq![t[1]] + unescaped(t.subrange(2, t.len() as int))
    } else {
        seq![t[0]] + unescaped(t.drop_first())
    }
}

/// The text inside a pair of enclosing quotes, unescaped; any other text as it is.
pub open spec fn strip_quotes(s: Seq<char>) -> Seq<char> {
    if s.len() >= 2 && s[0] == '"' && s.last() == '"' {
        unescaped(s.subrange(1, s.len() - 1))
    } else {
        s
    }
}

pub proof fn lemma_unescape_escaped(s: Seq<char>)
    ensures
        unescaped(escaped(s)) == s,
    decreases s.len(),
{
    if s.len() == 0 {
        assert(unescaped(escaped(s)) =~= s);
    } else {
        let e = escaped(s);
        let tail = escaped(s.drop_first());
        lemma_unescape_escaped(s.drop_first());
        if s[0] == '"' || s[0] == '\\' {
            assert(e.subrange(2, e.len() as int) =~= tail);
            assert(e[1] == s[0]);
        } else {
            assert(e.drop_first() =~= tail);
        }
        assert(seq![s[0]] + s.drop_first() =~= s);
    }
}

/// Stripping the quoted form of a string gives the string back.
pub proof fn lemma_strip_quoted(s: Seq<char>)
    ensures
        strip_quotes(quoted(s)) == s,
{
    let q = quoted(s);
    assert(q.subrange(1, q.len() - 1) =~= escaped(s));
    lemma_unescape_escaped(s);
}

/// The quoted form of `s`.
pub fn quote_text(s: &str) -> (r: String)
    ensures
        r@ == quoted(s@),
{
    let len = s.unicode_len();
    let mut r = String::new();
    push_char(&mut r, '"');
    let mut i: usize = 0;
    assert(s@.subrange(0, len as int) =~= s@);
    while i < len
        invariant
            i <= len,
            len == s@.len(),
            r@ + escaped(s@.subrange(i as int, len as int)) == seq!['"'] + escaped(s@),
        decreases len - i,
    {
        let c = s.get_char(i);
        let ghost before = r@;
        let ghost rest = s@.subrange(i as int, len as int);
        assert(rest.drop_first() =~= s@.subrange(i + 1, len as int));
        assert(rest[0] == c);
        if c == '"' || c == '\\' {
            push_char(&mut r, '\\');
        }
        push_char(&mut r, c);
        assert(r@ == before + escape_char(c));
        assert(before + escaped(rest) =~= r@ + escaped(s@.subrange(i + 1, len as int)));
        i = i + 1;
    }
    push_char(&mut r, '"');
    assert(r@ =~= quoted(s@));
    r
}

/// The text inside `s` where it stands between two quotes, with its escapes
/// undone; otherwise `s` itself.
pub fn strip_debug_quotes(s: &str) -> (r: String)
    ensures
        r@ == strip_quotes(s@),
{
    let len = s.unicode_len();
    if !(len >= 2 && s.get_char(0) == '"' && s.get_char(len - 1) == '"') {
        return String::from_str(s);
    }
    let end = len - 1;
    let ghost inner = s@.subrange(1, end as int);
    let mut r = String::new();
    let mut i: usize = 1;
    assert(s@.subrange(1, end as int) =~= inner);
    while i < end
        invariant
            1 <= i <= end,
            end == len - 1,
            len == s@.len(),
            inner == s@.subrange(1, end as int),
            r@ + unescaped(s@.subrange(i as int, end as int)) == unescaped(inner),
        decreases end - i,
    {
        let ghost before = r@;
        let ghost rest = s@.subrange(i as int, end as int);
        let c = s.get_char(i);
        assert(rest[0] == c);
        if c == '\\' && i + 1 < end {
            let d = s.get_char(i + 1);
            assert(rest[1] == d);
            assert(rest.subrange(2, rest.len() as int) =~= s@.subrange(i + 2, end as int));
            push_char(&mut r, d);
            assert(before + unescaped(rest) =~= r@ + unescaped(s@.subrange(i + 2, end as int)));
            i = i + 2;
        } else {
            assert(rest.drop_first() =~= s@.subrange(i + 1, end as int));
            push_char(&mut r, c);
            assert(before + unescaped(rest) =~= r@ + unescaped(s@.subrange(i + 1, end as int)));
            i = i + 1;
        }
    }
    assert(r@ =~= unescaped(inner));
    r
}

} // verus!

//! Decimal text for record ids: what a well-formed signed decimal string is,
//! which number it denotes, and verified conversions in both directions.

use vstd::prelude::*;

verus! {

/// Is `c` one of the ten decimal digit characters?
pub open spec fn is_digit(c: char) -> bool {
    48 <= c as u32 <= 57
}

/// The numeric value of a digit character; zero for anything else.
pub open spec fn digit_val(c: char) -> nat {
    if is_digit(c) {
        (c as u32 - 48) as nat
    } else {
        0
    }
}

/// The digit character for a value below ten.
pub open spec fn digit_char(d: int) -> char {
    if d == 0 {
        '0'
    } else if d == 1 {
        '1'
    } else if d == 2 {
        '2'
    } else if d == 3 {
        '3'
    } else if d == 4 {
        '4'
    } else if d == 5 {
        '5'
    } else if d == 6 {
        '6'
    } else if d == 7 {
        '7'
    } else if d == 8 {
        '8'
    } else {
        '9'
    }
}

/// The text with a single leading sign character, if any, removed.
pub open spec fn digits_of(s: Seq<char>) -> Seq<char> {
    if s.len() > 0 && (s[0] == '+' || s[0] == '-') {
        s.drop_first()
    } else {
        s
    }
}

/// Every character of `s` is a decimal digit.
pub open spec fn all_digits(s: Seq<char>) -> bool {
    forall|i: int| 0 <= i < s.len() ==> is_digit(#[trigger] s[i])
}

/// The unsigned value denoted by a sequence of digit characters.
pub open spec fn dec_val(s: Seq<char>) -> nat
    decreases s.len(),
{
    if s.len() == 0 {
        0
    } else {
        dec_val(s.drop_last()) * 10 + digit_val(s.last())
    }
}

/// The signed value denoted by decimal text with an optional leading sign.
pub open spec fn signed_val(s: Seq<char>) -> int {
    if s.len() > 0 && s[0] == '-' {
        -(dec_val(s.drop_first()) as int)
    } else {
        dec_val(digits_of(s)) as int
    }
}

/// Is `s` exactly the text that `i64` parsing accepts: an optional sign,
/// then one or more digits, denoting a value in `i64`'s range?
pub open spec fn valid_i64_text(s: Seq<char>) -> bool {
    &&& digits_of(s).len() > 0
    &&& all_digits(digits_of(s))
    &&& i64::MIN <= signed_val(s) <= i64::MAX
}

/// The canonical decimal rendering of a value below ten, ..., below one
/// hundred, and so on: most significant digit first, no leading zeros.
pub open spec fn u_dec(m: nat) -> Seq<char>
    decreases m,
{
    if m < 10 {
        seq![digit_char(m as int)]
    } else {
        u_dec(m / 10).push(digit_char((m % 10) as int))
    }
}

/// The canonical decimal rendering of a signed value.
pub open spec fn dec_str(n: int) -> Seq<char> {
    if n < 0 {
        seq!['-'] + u_dec((-n) as nat)
    } else {
        u_dec(n as nat)
    }
}

/// A digit character denotes its own value and is neither a separator,
/// a line break, nor a sign.
pub proof fn lemma_digit_char(d: int)
    requires
        0 <= d < 10,
    ensures
        is_digit(digit_char(d)),
        digit_val(digit_char(d)) == d,
        digit_char(d) != ',',
        digit_char(d) != '\n',
        digit_char(d) != '-',
        digit_char(d) != '+',
{
}

/// Digits are distinct from the separator and line-break characters.
pub proof fn lemma_digit_not_special(c: char)
    requires
        is_digit(c),
    ensures
        c != ',',
        c != '\n',
        c != '-',
        c != '+',
{
}

/// The value of a digit string only grows as more digits are appended.
pub proof fn lemma_dec_val_prefix(s: Seq<char>, k: int)
    requires
        0 <= k <= s.len(),
    ensures
        dec_val(s.take(k)) <= dec_val(s),
    decreases s.len() - k,
{
    if k == s.len() {
        assert(s.take(k) =~= s);
    } else {
        assert(s.take(k + 1).drop_last() =~= s.take(k));
        assert(dec_val(s.take(k + 1)) == dec_val(s.take(k)) * 10 + digit_val(s.take(k + 1).last()));
        lemma_dec_val_prefix(s, k + 1);
    }
}

/// The canonical rendering of an unsigned value is a non-empty digit string
/// that denotes the value it was made from.
pub proof fn lemma_u_dec(m: nat)
    ensures
        u_dec(m).len() > 0,
        all_digits(u_dec(m)),
        dec_val(u_dec(m)) == m,
    decreases m,
{
    if m < 10 {
        lemma_digit_char(m as int);
        assert(u_dec(m) == seq![digit_char(m as int)]);
        assert(u_dec(m).drop_last() =~= Seq::<char>::empty());
        assert(u_dec(m).last() == digit_char(m as int));
        assert(dec_val(Seq::<char>::empty()) == 0);
        assert(dec_val(u_dec(m)) == dec_val(u_dec(m).drop_last()) * 10 + digit_val(u_dec(m).last()));
    } else {
        lemma_u_dec(m / 10);
        lemma_digit_char((m % 10) as int);
        assert(u_dec(m).drop_last() =~= u_dec(m / 10));
        assert(u_dec(m).last() == digit_char((m % 10) as int));
        assert(dec_val(u_dec(m)) == (m / 10) * 10 + (m % 10));
    }
}

/// The canonical rendering of any `i64` value is valid decimal text, denotes
/// that value, and contains no separator or line-break characters.
pub proof fn lemma_dec_str(n: int)
    requires
        i64::MIN <= n <= i64::MAX,
    ensures
        valid_i64_text(dec_str(n)),
        signed_val(dec_str(n)) == n,
        dec_str(n).len() > 0,
        forall|i: int|
            0 <= i < dec_str(n).len() ==> #[trigger] dec_str(n)[i] != ',' && dec_str(n)[i] != '\n',
{
    if n < 0 {
        lemma_u_dec((-n) as nat);
        let s = dec_str(n);
        assert(s[0] == '-');
        assert(s.drop_first() =~= u_dec((-n) as nat));
        assert forall|i: int| 0 <= i < s.len() implies #[trigger] s[i] != ',' && s[i] != '\n' by {
            if i > 0 {
                assert(s[i] == u_dec((-n) as nat)[i - 1]);
                lemma_digit_not_special(s[i]);
            }
        }
    } else {
        lemma_u_dec(n as nat);
        let s = dec_str(n);
        assert(is_digit(s[0]));
        lemma_digit_not_special(s[0]);
        assert(digits_of(s) =~= s);
        assert forall|i: int| 0 <= i < s.len() implies #[trigger] s[i] != ',' && s[i] != '\n' by {
            lemma_digit_not_special(s[i]);
        }
    }
}

/// Parses decimal text as an `i64`: accepts exactly an optional sign followed
/// by one or more digits denoting a value in range, as `valid_i64_text` says.
pub fn parse_i64(s: &str) -> (r: Option<i64>)
    ensures
        r is Some <==> valid_i64_text(s@),
        r matches Some(v) ==> v as int == signed_val(s@),
{
    let n = s.unicode_len();
    if n == 0 {
        return None;
    }
    let c0 = s.get_char(0);
    let neg = c0 == '-';
    let start: usize = if c0 == '-' || c0 == '+' {
        1
    } else {
        0
    };
    let ghost digits = digits_of(s@);
    proof {
        assert(digits =~= s@.subrange(start as int, n as int));
    }
    if n == start {
        return None;
    }
    let mut acc: u128 = 0;
    let mut i: usize = start;
    while i < n
        invariant
            start <= i <= n,
            n == s@.len(),
            0 < n,
            start == if s@[0] == '-' || s@[0] == '+' { 1int } else { 0int },
            neg == (s@[0] == '-'),
            digits == digits_of(s@),
            digits =~= s@.subrange(start as int, n as int),
            forall|k: int| 0 <= k < i - start ==> is_digit(#[trigger] digits[k]),
            acc == dec_val(digits.take(i - start)),
            acc <= 9223372036854775808u128,
        decreases n - i,
    {
        let c = s.get_char(i);
        let d32 = c as u32;
        proof {
            assert(digits[i - start] == s@[i as int]);
        }
        if d32 < 48 || d32 > 57 {
            proof {
                assert(!is_digit(digits[i - start]));
            }
            return None;
        }
        let d = (d32 - 48) as u128;
        proof {
            assert(digits.take(i - start + 1).drop_last() =~= digits.take(i - start));
            assert(digits.take(i - start + 1).last() == s@[i as int]);
            assert(digit_val(s@[i as int]) == d);
        }
        acc = acc * 10 + d;
        if acc > 9223372036854775808u128 {
            proof {
                lemma_dec_val_prefix(digits, i - start + 1);
                assert(dec_val(digits) >= acc);
            }
            return None;
        }
        i += 1;
    }
    proof {
        assert(digits.take(i - start) =~= digits);
    }
    if neg {
        proof {
            assert(signed_val(s@) == -(acc as int));
        }
        let v = (-(acc as i128)) as i64;
        Some(v)
    } else {
        if acc >= 9223372036854775808u128 {
            proof {
                assert(signed_val(s@) > i64::MAX);
            }
            return None;
        }
        proof {
            assert(signed_val(s@) == acc as int);
        }
        Some(acc as i64)
    }
}

/// The digit character below ten, as a one-character string slice.
fn digit_str(d: u64) -> (r: &'static str)
    requires
        d < 10,
    ensures
        r@ == seq![digit_char(d as int)],
{
    proof {
        reveal_strlit("0");
        reveal_strlit("1");
        reveal_strlit("2");
        reveal_strlit("3");
        reveal_strlit("4");
        reveal_strlit("5");
        reveal_strlit("6");
        reveal_strlit("7");
        reveal_strlit("8");
        reveal_strlit("9");
        assert("0"@ =~= seq![digit_char(0)]);
        assert("1"@ =~= seq![digit_char(1)]);
        assert("2"@ =~= seq![digit_char(2)]);
        assert("3"@ =~= seq![digit_char(3)]);
        assert("4"@ =~= seq![digit_char(4)]);
        assert("5"@ =~= seq![digit_char(5)]);
        assert("6"@ =~= seq![digit_char(6)]);
        assert("7"@ =~= seq![digit_char(7)]);
        assert("8"@ =~= seq![digit_char(8)]);
        assert("9"@ =~= seq![digit_char(9)]);
    }
    match d {
        0 => "0",
        1 => "1",
        2 => "2",
        3 => "3",
        4 => "4",
        5 => "5",
        6 => "6",
        7 => "7",
        8 => "8",
        _ => "9",
    }
}

/// Appends the canonical decimal rendering of an unsigned value.
fn push_u64(out: &mut String, m: u64)
    ensures
        final(out)@ == old(out)@ + u_dec(m as nat),
    decreases m,
{
    if m < 10 {
        let ds = digit_str(m);
        out.append(ds);
        proof {
            assert(out@ =~= old(out)@ + u_dec(m as nat));
        }
    } else {
        push_u64(out, m / 10);
        let ds = digit_str(m % 10);
        out.append(ds);
        proof {
            assert((m / 10) as nat == (m as nat) / 10);
            assert((m % 10) as nat == (m as nat) % 10);
            assert(out@ =~= old(out)@ + u_dec(m as nat));
        }
    }
}

/// Appends the canonical decimal rendering of a signed value.
pub fn push_i64(out: &mut String, n: i64)
    ensures
        final(out)@ == old(out)@ + dec_str(n as int),
{
    if n < 0 {
        out.append("-");
        proof {
            reveal_strlit("-");
            assert("-"@ =~= seq!['-']);
        }
        let m: u64 = (-(n as i128)) as u64;
        push_u64(out, m);
        proof {
            assert(out@ =~= old(out)@ + dec_str(n as int));
        }
    } else {
        push_u64(out, n as u64);
    }
}

} // verus!

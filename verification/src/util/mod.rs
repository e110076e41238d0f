//! Small helpers on strings and numbers shared by the whole library.
use vstd::prelude::*;
use vstd::string::*;

verus! {

/// The decimal digit character for `d < 10`.
pub open spec fn digit_char(d: nat) -> char {
    if d == 0 { '0' }
    else if d == 1 { '1' }
    else if d == 2 { '2' }
    else if d == 3 { '3' }
    else if d == 4 { '4' }
    else if d == 5 { '5' }
    else if d == 6 { '6' }
    else if d == 7 { '7' }
    else if d == 8 { '8' }
    else { '9' }
}

/// The decimal representation of a natural number, without leading zeros.
pub open spec fn nat_decimal(n: nat) -> Seq<char>
    decreases n,
{
    if n < 10 {
        seq![digit_char(n)]
    } else {
        nat_decimal(n / 10).push(digit_char(n % 10))
    }
}

/// The decimal representation of an integer, with a leading `-` when negative.
pub open spec fn int_decimal(n: int) -> Seq<char> {
    if n < 0 {
        seq!['-'] + nat_decimal((-n) as nat)
    } else {
        nat_decimal(n as nat)
    }
}

/// The number a string of decimal digits stands for, read from the left.
pub open spec fn decimal_value(s: Seq<char>) -> int
    decreases s.len(),
{
    if s.len() == 0 {
        0
    } else {
        decimal_value(s.drop_last()) * 10 + (s.last() as int - '0' as int)
    }
}

/// The digit character for `d < 10` stands for `d`.
proof fn lemma_digit_value(d: nat)
    requires
        d < 10,
    ensures
        digit_char(d) as int - '0' as int == d,
        '0' <= digit_char(d) <= '9',
{
    assert(('0' as int) == 48 && ('1' as int) == 49 && ('2' as int) == 50 && ('3' as int) == 51 && ('4' as int) == 52
        && ('5' as int) == 53 && ('6' as int) == 54 && ('7' as int) == 55 && ('8' as int) == 56 && ('9' as int) == 57);
}

/// The decimal text of a natural number is a non-empty string of the digits
/// `0` to `9`, with no leading zero but for zero itself, that reads back as
/// the number; that of a negative integer is `-` followed by the text of
/// its size.
pub proof fn law_decimal_reads_back(n: nat, i: int)
    ensures
        nat_decimal(n).len() > 0,
        forall|j: int| 0 <= j < nat_decimal(n).len() ==> '0' <= #[trigger] nat_decimal(n)[j] <= '9',
        decimal_value(nat_decimal(n)) == n,
        nat_decimal(n)[0] == '0' ==> n == 0,
        i < 0 ==> int_decimal(i) == seq!['-'] + nat_decimal((-i) as nat),
        i >= 0 ==> int_decimal(i) == nat_decimal(i as nat),
    decreases n,
{
    lemma_digit_value(n % 10);
    if n >= 10 {
        assert((n / 10) * 10 + n % 10 == n);
        law_decimal_reads_back(n / 10, i);
        let s = nat_decimal(n);
        assert(s.drop_last() =~= nat_decimal(n / 10));
        assert(s[0] == nat_decimal(n / 10)[0]);
        assert(s.last() == digit_char(n % 10));
        assert(decimal_value(s) == decimal_value(s.drop_last()) * 10 + (s.last() as int - '0' as int));
    } else {
        let s = nat_decimal(n);
        assert(s.drop_last() =~= Seq::<char>::empty());
        assert(decimal_value(s) == decimal_value(s.drop_last()) * 10 + (s.last() as int - '0' as int));
    }
}

/// The digit `d < 10` as a string.
fn digit_str(d: u64) -> (r: &'static str)
    requires
        d < 10,
    ensures
        r@ == seq![digit_char(d as nat)],
{
    proof {
        reveal_strlit("0");
        reveal_strlit("1");
        reveal_strlit("2");
        reveal_strlit("3");
        reveal_strlit("4");
        reveal_strlit("5");
        reveal_strlit("6");
        reveal_strlit("7");
        reveal_strlit("8");
        reveal_strlit("9");
    }
    if d == 0 {
        "0"
    } else if d == 1 {
        "1"
    } else if d == 2 {
        "2"
    } else if d == 3 {
        "3"
    } else if d == 4 {
        "4"
    } else if d == 5 {
        "5"
    } else if d == 6 {
        "6"
    } else if d == 7 {
        "7"
    } else if d == 8 {
        "8"
    } else {
        "9"
    }
}

/// Appends the decimal representation of `n` to `s`.
fn push_decimal(s: &mut String, n: u64)
    ensures
        final(s)@ == old(s)@ + nat_decimal(n as nat),
    decreases n,
{
    if n < 10 {
        s.append(digit_str(n));
    } else {
        push_decimal(s, n / 10);
        s.append(digit_str(n % 10));
        proof {
            assert(nat_decimal(n as nat) == nat_decimal((n / 10) as nat).push(digit_char((n % 10) as nat)));
            assert(old(s)@ + nat_decimal((n / 10) as nat) + seq![digit_char((n % 10) as nat)] =~= old(s)@ + nat_decimal(
                n as nat));
        }
    }
}

/// The decimal representation of `v`, as `i32::to_string` gives it.
pub(crate) fn i32_to_string(v: i32) -> (r: String)
    ensures
        r@ == int_decimal(v as int),
{
    let mut s = String::new();
    if v < 0 {
        proof {
            reveal_strlit("-");
        }
        s.append("-");
        let m: i64 = -(v as i64);
        push_decimal(&mut s, m as u64);
        proof {
            assert(s@ =~= seq!['-'] + nat_decimal((-(v as int)) as nat));
        }
    } else {
        push_decimal(&mut s, v as u64);
        proof {
            assert(s@ =~= nat_decimal(v as nat));
        }
    }
    s
}

/// The decimal representation of `v`, as `usize::to_string` gives it.
pub(crate) fn usize_to_string(v: usize) -> (r: String)
    ensures
        r@ == nat_decimal(v as nat),
{
    let mut s = String::new();
    push_decimal(&mut s, v as u64);
    proof {
        assert(s@ =~= nat_decimal(v as nat));
    }
    s
}

/// What `format!("{:?}", s)` gives for a string: the string in double
/// quotes, with the escapes of `str`'s `Debug` (which leaves a single quote
/// as it is).
pub uninterp spec fn debug_quoted(s: Seq<char>) -> Seq<char>;

/// `<str as Debug>::fmt`: the quoted, escaped form of `s`.
#[verifier::external_body]
pub(crate) fn debug_string(s: &str) -> (r: String)
    ensures
        r@ == debug_quoted(s@),
{
    format!("{:?}", s)
}

/// Appends `other` to `s`.
pub fn push_str(s: &mut String, other: &str)
    ensures
        final(s)@ == old(s)@ + other@,
{
    s.append(other);
}

} // verus!

//! Decimal text.

use vstd::prelude::*;

verus! {

/// The text of one decimal digit.
pub open spec fn digit(n: nat) -> Seq<char> {
    seq![('0' as int + n) as char]
}

pub fn digit_text(n: u64) -> (r: &'static str)
    requires
        n < 10,
    ensures
        r@ == digit(n as nat),
{
    proof {
        reveal_strlit("0");
        reveal_strlit("1");
        reveal_strlit("2");
        reveal_strlit("3");
        reveal_strlit("4");
        reveal_strlit("5");
        reveal_strlit("6");
        reveal_strlit("7");
        reveal_strlit("8");
        reveal_strlit("9");
    }
    match n {
        0 => "0",
        1 => "1",
        2 => "2",
        3 => "3",
        4 => "4",
        5 => "5",
        6 => "6",
        7 => "7",
        8 => "8",
        _ => "9",
    }
}

/// A natural number in decimal, without leading zeros.
pub open spec fn decimal(n: nat) -> Seq<char>
    decreases n,
{
    if n < 10 {
        digit(n)
    } else {
        decimal(n / 10) + digit(n % 10)
    }
}

pub fn decimal_text(n: u64) -> (r: String)
    ensures
        r@ == decimal(n as nat),
    decreases n,
{
    if n < 10 {
        digit_text(n).to_owned()
    } else {
        decimal_text(n / 10).concat(digit_text(n % 10))
    }
}

/// The value of a decimal digit.
pub open spec fn digit_value(c: char) -> Option<nat> {
    if '0' <= c <= '9' {
        Some((c as int - '0' as int) as nat)
    } else {
        None
    }
}

/// The value of a text of digits, read from the left.
pub open spec fn digits_value(text: Seq<char>) -> Option<nat>
    decreases text.len(),
{
    if text.len() == 0 {
        Some(0)
    } else {
        match (digits_value(text.drop_last()), digit_value(text.last())) {
            (Some(high), Some(low)) => Some(high * 10 + low),
            _ => None,
        }
    }
}

/// The value of a text that is digits, at least one, behind an optional plus
/// sign.
pub open spec fn natural_value(text: Seq<char>) -> Option<nat> {
    let digits = if text.len() > 0 && text[0] == '+' {
        text.skip(1)
    } else {
        text
    };
    if digits.len() == 0 {
        None
    } else {
        digits_value(digits)
    }
}

/// The value of a text as a `u32`: there is one where it is a natural number that
/// fits.
pub open spec fn u32_value(text: Seq<char>) -> Option<u32> {
    match natural_value(text) {
        Some(n) => if n <= u32::MAX {
            Some(n as u32)
        } else {
            None
        },
        None => None,
    }
}

fn read_digit(c: char) -> (r: Option<u32>)
    ensures
        r is Some <==> digit_value(c) is Some,
        r is Some ==> r->0 == digit_value(c)->0 && r->0 < 10,
{
    if '0' <= c && c <= '9' {
        Some(c as u32 - '0' as u32)
    } else {
        None
    }
}

/// A text of digits has a value that does not shrink as more digits follow.
proof fn lemma_digits_grow(text: Seq<char>, n: int)
    requires
        0 <= n <= text.len(),
        digits_value(text) is Some,
    ensures
        digits_value(text.take(n)) is Some,
        digits_value(text.take(n))->0 <= digits_value(text)->0,
    decreases text.len() - n,
{
    if n < text.len() {
        lemma_digits_grow(text, n + 1);
        assert(text.take(n + 1).drop_last() =~= text.take(n));
    } else {
        assert(text.take(n) =~= text);
    }
}

pub fn parse_u32(text: &str) -> (r: Option<u32>)
    ensures
        r == u32_value(text@),
{
    let length: usize = text.unicode_len();
    let start: usize = if length > 0 && text.get_char(0) == '+' {
        1
    } else {
        0
    };
    let ghost digits = text@.skip(start as int);
    assert(digits =~= if text@.len() > 0 && text@[0] == '+' {
        text@.skip(1)
    } else {
        text@
    });
    if start == length {
        return None;
    }
    let mut value: u32 = 0;
    let mut i: usize = start;
    while i < length
        invariant
            start <= i <= length,
            length == text@.len(),
            digits == text@.skip(start as int),
            start < length,
            natural_value(text@) == digits_value(digits),
            digits_value(digits.take(i - start)) == Some(value as nat),
        decreases length - i,
    {
        let ghost seen = digits.take(i - start);
        let ghost more = digits.take(i + 1 - start);
        assert(more.drop_last() =~= seen);
        assert(more.last() == text@[i as int]);
        proof {
            if digits_value(digits) is Some {
                lemma_digits_grow(digits, i + 1 - start);
            }
        }
        match read_digit(text.get_char(i)) {
            None => {
                return None;
            },
            Some(low) => {
                match value.checked_mul(10) {
                    None => {
                        return None;
                    },
                    Some(high) => {
                        match high.checked_add(low) {
                            None => {
                                return None;
                            },
                            Some(next) => {
                                value = next;
                            },
                        }
                    },
                }
            },
        }
        i = i + 1;
    }
    assert(digits.take(length - start) =~= digits);
    Some(value)
}

pub proof fn lemma_decimal_reads_back(n: nat)
    ensures
        decimal(n).len() > 0,
        digits_value(decimal(n)) == Some(n),
        '0' <= decimal(n)[0] <= '9',
    decreases n,
{
    if n < 10 {
        assert(decimal(n).drop_last() =~= Seq::empty());
        assert(decimal(n).last() == ('0' as int + n) as char);
        assert(digits_value(decimal(n).drop_last()) == Some(0nat));
    } else {
        lemma_decimal_reads_back(n / 10);
        assert(decimal(n).drop_last() =~= decimal(n / 10));
        assert(decimal(n).last() == ('0' as int + n % 10) as char);
    }
}

/// Law: the decimal text of a `u32` reads back as that number.
pub proof fn law_decimal_reads_back(n: u32)
    ensures
        u32_value(decimal(n as nat)) == Some(n),
{
    lemma_decimal_reads_back(n as nat);
}

/// Law: what a text reads as.  One digit reads as itself, a further digit makes a number
/// ten times as large and adds itself, and no text with anything else in it reads as a
/// number.  A plus sign in front changes nothing, but is no number by itself.
pub proof fn law_numbers_are_read_by_digits(text: Seq<char>, c: char)
    ensures
        natural_value(Seq::<char>::empty()) is None,
        natural_value(seq!['+']) is None,
        '0' <= c <= '9' ==> natural_value(seq![c]) == Some((c as int - '0' as int) as nat),
        !('0' <= c <= '9') ==> natural_value(text.push(c)) is None,
        '0' <= c <= '9' && natural_value(text) is Some ==> natural_value(text.push(c)) == Some(
            (natural_value(text)->0 * 10 + (c as int - '0' as int)) as nat,
        ),
        text.len() > 0 && natural_value(text) is None && text != seq!['+'] ==> natural_value(
            text.push(c),
        ) is None,
        text.len() > 0 && text[0] != '+' ==> natural_value(seq!['+'] + text) == natural_value(text),
        natural_value(text) matches Some(n) ==> u32_value(text) == if n <= 4294967295 {
            Some(n as u32)
        } else {
            None
        },
        natural_value(text) is None ==> u32_value(text) is None,
{
    let none = Seq::<char>::empty();
    assert(digits_value(none) == Some(0nat));
    assert(seq!['+'].skip(1) =~= none);
    assert(seq![c].drop_last() =~= none);
    assert(seq![c].last() == c);
    assert((seq!['+'] + text).skip(1) =~= text);
    let longer = text.push(c);
    assert(longer.drop_last() =~= text);
    if text.len() > 0 && text[0] == '+' {
        assert(longer.skip(1).drop_last() =~= text.skip(1));
        assert(longer.skip(1) =~= text.skip(1).push(c));
        if text.len() == 1 {
            assert(text =~= seq!['+']);
        }
    }
    if text.len() == 0 {
        assert(longer =~= seq![c]);
        assert(text =~= none);
        if c == '+' {
            assert(longer.skip(1) =~= none);
        }
    }
}

/// Law: a decimal text is digits only, and has no zeros in front.
pub proof fn law_decimals_are_digits(n: nat)
    ensures
        decimal(n).len() > 0,
        forall|i: int| 0 <= i < decimal(n).len() ==> '0' <= #[trigger] decimal(n)[i] <= '9',
        decimal(n).len() > 1 ==> decimal(n)[0] != '0',
        n > 0 ==> decimal(n)[0] != '0',
        digits_value(decimal(n)) == Some(n),
    decreases n,
{
    lemma_decimal_reads_back(n);
    if n >= 10 {
        law_decimals_are_digits(n / 10);
        let front = decimal(n / 10);
        assert forall|i: int| 0 <= i < decimal(n).len() implies '0' <= #[trigger] decimal(n)[i]
            <= '9' by {
            if i < front.len() {
                assert(decimal(n)[i] == front[i]);
            }
        }
    }
}

} // verus!

//! Numbers as text, in base ten and in base sixteen: written out, and read
//! back.

use vstd::prelude::*;
use vstd::string::StringExecFns;
use vstd::string::StrSliceExecFns;

verus! {

/// The character that stands for a digit below sixteen.
pub open spec fn digit_char(digit: nat) -> char {
    if digit == 0 {
        '0'
    } else if digit == 1 {
        '1'
    } else if digit == 2 {
        '2'
    } else if digit == 3 {
        '3'
    } else if digit == 4 {
        '4'
    } else if digit == 5 {
        '5'
    } else if digit == 6 {
        '6'
    } else if digit == 7 {
        '7'
    } else if digit == 8 {
        '8'
    } else if digit == 9 {
        '9'
    } else if digit == 10 {
        'a'
    } else if digit == 11 {
        'b'
    } else if digit == 12 {
        'c'
    } else if digit == 13 {
        'd'
    } else if digit == 14 {
        'e'
    } else {
        'f'
    }
}

/// The digit that a character stands for, in either case of the letters, if
/// it stands for one below sixteen.
pub open spec fn char_digit(c: char) -> Option<nat> {
    if c == '0' {
        Some(0)
    } else if c == '1' {
        Some(1)
    } else if c == '2' {
        Some(2)
    } else if c == '3' {
        Some(3)
    } else if c == '4' {
        Some(4)
    } else if c == '5' {
        Some(5)
    } else if c == '6' {
        Some(6)
    } else if c == '7' {
        Some(7)
    } else if c == '8' {
        Some(8)
    } else if c == '9' {
        Some(9)
    } else if c == 'a' || c == 'A' {
        Some(10)
    } else if c == 'b' || c == 'B' {
        Some(11)
    } else if c == 'c' || c == 'C' {
        Some(12)
    } else if c == 'd' || c == 'D' {
        Some(13)
    } else if c == 'e' || c == 'E' {
        Some(14)
    } else if c == 'f' || c == 'F' {
        Some(15)
    } else {
        None
    }
}

/// Whether a character is a digit of the base.
pub open spec fn is_digit(c: char, radix: nat) -> bool {
    char_digit(c) is Some && char_digit(c)->0 < radix
}

/// Whether the base is ten or sixteen.
pub open spec fn is_base(radix: nat) -> bool {
    radix == 10 || radix == 16
}

/// A number written out in a base: its digits, the most significant first,
/// without leading zeros; letters in lower case.
pub open spec fn digits(n: nat, radix: nat) -> Seq<char>
    decreases n,
{
    if !is_base(radix) || n < radix {
        seq![digit_char(n)]
    } else {
        digits(n / radix, radix).push(digit_char(n % radix))
    }
}

/// Whether all characters of a text are digits of the base.
pub open spec fn all_digits(text: Seq<char>, radix: nat) -> bool {
    forall|i: int| 0 <= i < text.len() ==> is_digit(#[trigger] text[i], radix)
}

/// The number that a text of digits stands for in a base.
pub open spec fn number(text: Seq<char>, radix: nat) -> nat
    decreases text.len(),
{
    if text.len() == 0 {
        0
    } else {
        number(text.drop_last(), radix) * radix + char_digit(text.last()).unwrap_or(0)
    }
}

/// What a text reads as, as a number in a base that is at most `max`: the
/// text may begin with one plus sign, and is digits of the base after that,
/// at least one; the number that the digits stand for is read where it is
/// at most `max`. Anything else does not read as a number.
pub open spec fn numeral(text: Seq<char>, radix: nat, max: nat) -> Option<nat> {
    let body = if text.len() > 0 && text[0] == '+' {
        text.drop_first()
    } else {
        text
    };
    if body.len() > 0 && all_digits(body, radix) && number(body, radix) <= max {
        Some(number(body, radix))
    } else {
        None
    }
}

/// What is written out reads back as the number that was written: it is
/// digits of the base, at least one, and stands for that number.
pub proof fn lemma_digits_read_back(n: nat, radix: nat)
    requires
        is_base(radix),
    ensures
        digits(n, radix).len() > 0,
        all_digits(digits(n, radix), radix),
        number(digits(n, radix), radix) == n,
    decreases n,
{
    let text = digits(n, radix);
    if n < radix {
        assert(text.drop_last() =~= Seq::<char>::empty());
        assert(number(text.drop_last(), radix) == 0);
        assert(number(text, radix) == 0 * radix + char_digit(text.last()).unwrap_or(0));
        assert(0 * radix == 0) by (nonlinear_arith);
    } else {
        let high = n / radix;
        let low = n % radix;
        lemma_digits_read_back(high, radix);
        assert(text.drop_last() =~= digits(high, radix));
        assert(text.last() == digit_char(low));
        assert(high * radix + low == n) by (nonlinear_arith)
            requires
                high == n / radix,
                low == n % radix,
                radix > 0,
        ;
        assert forall|i: int| 0 <= i < text.len() implies is_digit(#[trigger] text[i], radix) by {
            if i < text.len() - 1 {
                assert(text[i] == digits(high, radix)[i]);
            }
        }
    }
}

/// A number of up to a given number of digits, with one more digit after it,
/// is at least the number without.
proof fn lemma_number_grows(text: Seq<char>, radix: nat, upto: int)
    requires
        is_base(radix),
        0 <= upto <= text.len(),
    ensures
        number(text.subrange(0, upto), radix) <= number(text, radix),
    decreases text.len() - upto,
{
    if upto < text.len() {
        lemma_number_grows(text, radix, upto + 1);
        let longer = text.subrange(0, upto + 1);
        assert(longer.drop_last() =~= text.subrange(0, upto));
        let shorter = number(text.subrange(0, upto), radix);
        assert(shorter * radix >= shorter) by (nonlinear_arith)
            requires
                radix >= 1,
        ;
    } else {
        assert(text.subrange(0, upto) =~= text);
    }
}

/// The text of one digit.
fn digit_text(digit: u128) -> (text: &'static str)
    requires
        digit < 16,
    ensures
        text@ == seq![digit_char(digit as nat)],
{
    proof {
        reveal_strlit("0");
        reveal_strlit("1");
        reveal_strlit("2");
        reveal_strlit("3");
        reveal_strlit("4");
        reveal_strlit("5");
        reveal_strlit("6");
        reveal_strlit("7");
        reveal_strlit("8");
        reveal_strlit("9");
        reveal_strlit("a");
        reveal_strlit("b");
        reveal_strlit("c");
        reveal_strlit("d");
        reveal_strlit("e");
        reveal_strlit("f");
    }
    let text = if digit == 0 {
        "0"
    } else if digit == 1 {
        "1"
    } else if digit == 2 {
        "2"
    } else if digit == 3 {
        "3"
    } else if digit == 4 {
        "4"
    } else if digit == 5 {
        "5"
    } else if digit == 6 {
        "6"
    } else if digit == 7 {
        "7"
    } else if digit == 8 {
        "8"
    } else if digit == 9 {
        "9"
    } else if digit == 10 {
        "a"
    } else if digit == 11 {
        "b"
    } else if digit == 12 {
        "c"
    } else if digit == 13 {
        "d"
    } else if digit == 14 {
        "e"
    } else {
        "f"
    };
    assert(text@ =~= seq![digit_char(digit as nat)]);
    text
}

/// Writes a number out in base ten or sixteen at the end of a text.
pub fn write_number(out: &mut String, n: u128, radix: u128)
    requires
        is_base(radix as nat),
    ensures
        final(out)@ == old(out)@ + digits(n as nat, radix as nat),
    decreases n,
{
    if n >= radix {
        write_number(out, n / radix, radix);
    }
    out.append(digit_text(n % radix));
    proof {
        let high = digits((n / radix) as nat, radix as nat);
        let low = seq![digit_char((n % radix) as nat)];
        if n >= radix {
            assert(old(out)@ + high + low =~= old(out)@ + high.push(low[0]));
        }
    }
}

/// The digit that a character stands for, if it stands for one below
/// sixteen.
fn digit_of(c: char) -> (digit: Option<u128>)
    ensures
        match digit {
            Some(d) => char_digit(c) == Some(d as nat) && d < 16,
            None => char_digit(c) is None,
        },
{
    if c == '0' {
        Some(0)
    } else if c == '1' {
        Some(1)
    } else if c == '2' {
        Some(2)
    } else if c == '3' {
        Some(3)
    } else if c == '4' {
        Some(4)
    } else if c == '5' {
        Some(5)
    } else if c == '6' {
        Some(6)
    } else if c == '7' {
        Some(7)
    } else if c == '8' {
        Some(8)
    } else if c == '9' {
        Some(9)
    } else if c == 'a' || c == 'A' {
        Some(10)
    } else if c == 'b' || c == 'B' {
        Some(11)
    } else if c == 'c' || c == 'C' {
        Some(12)
    } else if c == 'd' || c == 'D' {
        Some(13)
    } else if c == 'e' || c == 'E' {
        Some(14)
    } else if c == 'f' || c == 'F' {
        Some(15)
    } else {
        None
    }
}

/// Reads a stretch of a text as a number in base ten or sixteen that is at
/// most `max`.
pub fn read_number(text: &str, from: usize, to: usize, radix: u128, max: u128) -> (n: Option<u128>)
    requires
        is_base(radix as nat),
        from <= to <= text@.len(),
    ensures
        match n {
            Some(n) => numeral(text@.subrange(from as int, to as int), radix as nat, max as nat)
                == Some(n as nat),
            None => numeral(text@.subrange(from as int, to as int), radix as nat, max as nat)
                is None,
        },
{
    let ghost piece = text@.subrange(from as int, to as int);
    let start = if from < to && text.get_char(from) == '+' {
        from + 1
    } else {
        from
    };
    let ghost body = text@.subrange(start as int, to as int);
    proof {
        if from < to {
            assert(piece[0] == text@[from as int]);
        }
        if start > from {
            assert(body =~= piece.drop_first());
        } else {
            assert(body =~= piece);
        }
    }
    if start == to {
        return None;
    }
    let ghost goal = numeral(piece, radix as nat, max as nat);
    assert(goal == if all_digits(body, radix as nat) && number(body, radix as nat) <= max {
        Some(number(body, radix as nat))
    } else {
        None
    });
    let mut value: u128 = 0;
    let mut i: usize = start;
    assert(body.subrange(0, 0) =~= Seq::<char>::empty());
    while i < to
        invariant
            start <= i <= to <= text@.len(),
            is_base(radix as nat),
            body == text@.subrange(start as int, to as int),
            piece == text@.subrange(from as int, to as int),
            goal == numeral(piece, radix as nat, max as nat),
            goal == if all_digits(body, radix as nat) && number(body, radix as nat) <= max {
                Some(number(body, radix as nat))
            } else {
                None
            },
            all_digits(body.subrange(0, i - start), radix as nat),
            value == number(body.subrange(0, i - start), radix as nat),
            value <= max,
        decreases to - i,
    {
        let c = text.get_char(i);
        let ghost seen = body.subrange(0, i - start);
        let ghost next = body.subrange(0, i - start + 1);
        proof {
            assert(next.drop_last() =~= seen);
            assert(next.last() == c);
            assert(body[i - start] == c);
            lemma_number_grows(body, radix as nat, i - start + 1);
        }
        let digit = match digit_of(c) {
            Some(digit) => digit,
            None => {
                assert(!is_digit(body[i - start], radix as nat));
                return None;
            },
        };
        if digit >= radix {
            assert(!is_digit(body[i - start], radix as nat));
            return None;
        }
        proof {
            assert forall|k: int| 0 <= k < next.len() implies is_digit(
                #[trigger] next[k],
                radix as nat,
            ) by {
                if k < seen.len() {
                    assert(next[k] == seen[k]);
                }
            }
            assert(number(next, radix as nat) == value * radix + digit);
        }
        let shifted = match value.checked_mul(radix) {
            Some(shifted) => shifted,
            None => {
                return None;
            },
        };
        let grown = match shifted.checked_add(digit) {
            Some(grown) => grown,
            None => {
                return None;
            },
        };
        if grown > max {
            return None;
        }
        value = grown;
        i += 1;
    }
    assert(body.subrange(0, i - start) =~= body);
    Some(value)
}

/// The position of the first hyphen of a text at or after a position, or
/// the length of the text where there is none.
pub open spec fn hyphen_from(text: Seq<char>, from: int) -> int
    decreases text.len() - from,
{
    if from >= text.len() || from < 0 {
        text.len() as int
    } else if text[from] == '-' {
        from
    } else {
        hyphen_from(text, from + 1)
    }
}

/// The position of the first hyphen of a text at or after a position, or
/// the length of the text where there is none.
pub fn find_hyphen(text: &str, from: usize) -> (at: usize)
    requires
        from <= text@.len(),
    ensures
        at == hyphen_from(text@, from as int),
        from <= at <= text@.len(),
{
    let len = text.unicode_len();
    let mut at: usize = from;
    while at < len
        invariant
            from <= at <= len,
            len == text@.len(),
            hyphen_from(text@, at as int) == hyphen_from(text@, from as int),
        decreases len - at,
    {
        if text.get_char(at) == '-' {
            return at;
        }
        at += 1;
    }
    at
}

/// The first hyphen at or after a position is the one before which, from
/// that position on, there is none; where there is none at all, it is the
/// length of the text.
pub proof fn lemma_hyphen_from(text: Seq<char>, from: int, at: int)
    requires
        0 <= from <= at <= text.len(),
        forall|k: int| from <= k < at ==> text[k] != '-',
        at < text.len() ==> text[at] == '-',
    ensures
        hyphen_from(text, from) == at,
    decreases at - from,
{
    if from < at {
        lemma_hyphen_from(text, from + 1, at);
    }
}

/// What is written out holds no hyphen and no plus sign.
pub proof fn lemma_digits_plain(n: nat, radix: nat, i: int)
    requires
        is_base(radix),
        0 <= i < digits(n, radix).len(),
    ensures
        digits(n, radix)[i] != '-',
        digits(n, radix)[i] != '+',
{
    lemma_digits_read_back(n, radix);
    assert(is_digit(digits(n, radix)[i], radix));
}

} // verus!

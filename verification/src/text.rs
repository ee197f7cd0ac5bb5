//! Decimal numbers and padded columns of text.
use vstd::prelude::*;

verus! {

/// The character of a decimal digit.
pub open spec fn digit_char(d: nat) -> char {
    (48 + d) as char
}

/// `n` in decimal, without leading zeros.
pub open spec fn decimal(n: nat) -> Seq<char>
    decreases n,
{
    if n < 10 {
        seq![digit_char(n)]
    } else {
        decimal(n / 10).push(digit_char(n % 10))
    }
}

/// `count` times the character `c`.
pub open spec fn repeated(c: char, count: int) -> Seq<char> {
    Seq::new(
        if count > 0 {
            count as nat
        } else {
            0
        },
        |i: int| c,
    )
}

/// `x` in decimal, with zeros between the sign and the digits to fill `width`
/// characters.
pub open spec fn integer(x: int, width: nat) -> Seq<char> {
    if x < 0 {
        let digits = decimal((-x) as nat);
        seq!['-'] + repeated('0', width - 1 - digits.len()) + digits
    } else {
        let digits = decimal(x as nat);
        repeated('0', width - digits.len()) + digits
    }
}

/// `s` at the left of a column of `width` characters.
pub open spec fn left_aligned(s: Seq<char>, width: nat) -> Seq<char> {
    s + repeated(' ', width - s.len())
}

/// `s` at the right of a column of `width` characters.
pub open spec fn right_aligned(s: Seq<char>, width: nat) -> Seq<char> {
    repeated(' ', width - s.len()) + s
}

fn digit(d: u64) -> (s: &'static str)
    requires
        d < 10,
    ensures
        s@ == seq![digit_char(d as nat)],
{
    proof {
        reveal_strlit("0");
        reveal_strlit("1");
        reveal_strlit("2");
        reveal_strlit("3");
        reveal_strlit("4");
        reveal_strlit("5");
        reveal_strlit("6");
        reveal_strlit("7");
        reveal_strlit("8");
        reveal_strlit("9");
    }
    if d == 0 {
        "0"
    } else if d == 1 {
        "1"
    } else if d == 2 {
        "2"
    } else if d == 3 {
        "3"
    } else if d == 4 {
        "4"
    } else if d == 5 {
        "5"
    } else if d == 6 {
        "6"
    } else if d == 7 {
        "7"
    } else if d == 8 {
        "8"
    } else {
        "9"
    }
}

/// Appends `n` in decimal.
pub fn push_decimal(out: &mut String, n: u64)
    ensures
        final(out)@ == old(out)@ + decimal(n as nat),
    decreases n,
{
    if n >= 10 {
        push_decimal(out, n / 10);
    }
    out.append(digit(n % 10));
}

/// The number of digits of `n`.
fn decimal_length(n: u64) -> (len: usize)
    ensures
        len == decimal(n as nat).len(),
        1 <= len <= 20,
{
    let mut rest: u64 = n;
    let mut len: usize = 1;
    proof {
        assert(vstd::arithmetic::power::pow(10, 20) == 100_000_000_000_000_000_000) by {
            reveal_with_fuel(vstd::arithmetic::power::pow, 21);
        }
        lemma_decimal_length(n as nat, 20);
    }
    while rest >= 10
        invariant
            len + decimal(rest as nat).len() == decimal(n as nat).len() + 1,
            1 <= decimal(rest as nat).len(),
            decimal(n as nat).len() <= 20,
            1 <= len,
        decreases rest,
    {
        proof {
            lemma_decimal_nonempty((rest / 10) as nat);
        }
        rest = rest / 10;
        len = len + 1;
    }
    len
}

pub(crate) proof fn lemma_decimal_nonempty(n: nat)
    ensures
        decimal(n).len() >= 1,
    decreases n,
{
}

proof fn lemma_decimal_length(n: nat, digits: nat)
    requires
        digits >= 1,
        n < vstd::arithmetic::power::pow(10, digits),
    ensures
        1 <= decimal(n).len() <= digits,
    decreases digits,
{
    reveal(vstd::arithmetic::power::pow);
    if digits == 1 {
        assert(vstd::arithmetic::power::pow(10, 1) == 10) by {
            reveal_with_fuel(vstd::arithmetic::power::pow, 3);
        }
    } else if n >= 10 {
        lemma_decimal_length(n / 10, (digits - 1) as nat);
    }
}

/// Appends `count` times the text `s` of one character.
fn push_repeated(out: &mut String, s: &str, count: usize)
    requires
        s@.len() == 1,
    ensures
        final(out)@ == old(out)@ + repeated(s@[0], count as int),
{
    let mut i: usize = 0;
    assert(out@ =~= old(out)@ + repeated(s@[0], 0));
    while i < count
        invariant
            i <= count,
            s@.len() == 1,
            out@ == old(out)@ + repeated(s@[0], i as int),
        decreases count - i,
    {
        out.append(s);
        assert(out@ =~= old(out)@ + repeated(s@[0], i + 1));
        i = i + 1;
    }
}

/// Appends `x` in decimal, with zeros between the sign and the digits to fill
/// `width` characters.
pub fn push_integer(out: &mut String, x: i64, width: usize)
    ensures
        final(out)@ == old(out)@ + integer(x as int, width as nat),
{
    proof {
        reveal_strlit("-");
        reveal_strlit("0");
    }
    let negative = x < 0;
    let n: u64 = if negative {
        (-(x + 1)) as u64 + 1
    } else {
        x as u64
    };
    let mut used: usize = decimal_length(n);
    if negative {
        out.append("-");
        used = used + 1;
    }
    let zeros: usize = if used < width {
        width - used
    } else {
        0
    };
    push_repeated(out, "0", zeros);
    push_decimal(out, n);
    assert(out@ =~= old(out)@ + integer(x as int, width as nat));
}

/// Appends `s` at the left of a column of `width` characters.
pub fn push_left_aligned(out: &mut String, s: &str, width: usize)
    ensures
        final(out)@ == old(out)@ + left_aligned(s@, width as nat),
{
    proof {
        reveal_strlit(" ");
    }
    let len = s.unicode_len();
    out.append(s);
    if len < width {
        push_repeated(out, " ", width - len);
    }
    assert(out@ =~= old(out)@ + left_aligned(s@, width as nat));
}

/// Appends `s` at the right of a column of `width` characters.
pub fn push_right_aligned(out: &mut String, s: &str, width: usize)
    ensures
        final(out)@ == old(out)@ + right_aligned(s@, width as nat),
{
    proof {
        reveal_strlit(" ");
    }
    let len = s.unicode_len();
    if len < width {
        push_repeated(out, " ", width - len);
    }
    out.append(s);
    assert(out@ =~= old(out)@ + right_aligned(s@, width as nat));
}

/// The number that decimal digits stand for.
pub open spec fn value(s: Seq<char>) -> int
    decreases s.len(),
{
    if s.len() == 0 {
        0
    } else {
        10 * value(s.drop_last()) + (s.last() as int - 48)
    }
}

/// Whether there are only decimal digits.
pub open spec fn is_digits(s: Seq<char>) -> bool {
    forall|i: int| 0 <= i < s.len() ==> '0' <= #[trigger] s[i] <= '9'
}

proof fn lemma_decimal_value(n: nat)
    ensures
        is_digits(decimal(n)),
        value(decimal(n)) == n,
    decreases n,
{
    reveal_with_fuel(value, 2);
    if n >= 10 {
        lemma_decimal_value(n / 10);
        assert(decimal(n).drop_last() =~= decimal(n / 10));
    } else {
        assert(decimal(n).drop_last().len() == 0);
    }
}

proof fn lemma_leading_zeros(count: int, s: Seq<char>)
    ensures
        value(repeated('0', count) + s) == value(s),
    decreases
            s.len(),
            if count > 0 {
                count
            } else {
                0
            },
{
    let all = repeated('0', count) + s;
    if s.len() > 0 {
        lemma_leading_zeros(count, s.drop_last());
        assert(all.drop_last() =~= repeated('0', count) + s.drop_last());
    } else if count > 0 {
        lemma_leading_zeros(count - 1, s);
        assert(all.drop_last() =~= repeated('0', count - 1) + s);
    } else {
        assert(all =~= s);
    }
}

/// The text of an integer is digits, with a minus sign in front where it is
/// negative.
pub proof fn law_integer_shape(x: int, width: nat)
    ensures
        integer(x, width).len() >= 1,
        x >= 0 ==> is_digits(integer(x, width)),
        x < 0 ==> integer(x, width)[0] == '-' && is_digits(integer(x, width).skip(1)),
{
    let n = (if x < 0 {
        -x
    } else {
        x
    }) as nat;
    lemma_decimal_nonempty(n);
    lemma_decimal_value(n);
}

/// Two integers have the same text only if they are the same.
pub proof fn law_integers_differ_in_text(x: int, y: int, width: nat)
    requires
        integer(x, width) == integer(y, width),
    ensures
        x == y,
{
    law_integer_shape(x, width);
    law_integer_shape(y, width);
    let s = integer(x, width);
    assert(s[0] == integer(y, width)[0]);
    if x < 0 {
        let dx = decimal((-x) as nat);
        lemma_decimal_value((-x) as nat);
        lemma_leading_zeros(width - 1 - dx.len(), dx);
        assert(s.skip(1) =~= repeated('0', width - 1 - dx.len()) + dx);
        if y < 0 {
            let dy = decimal((-y) as nat);
            lemma_decimal_value((-y) as nat);
            lemma_leading_zeros(width - 1 - dy.len(), dy);
            assert(s.skip(1) =~= repeated('0', width - 1 - dy.len()) + dy);
        }
    } else {
        let dx = decimal(x as nat);
        lemma_decimal_value(x as nat);
        lemma_leading_zeros(width - dx.len(), dx);
        if y >= 0 {
            let dy = decimal(y as nat);
            lemma_decimal_value(y as nat);
            lemma_leading_zeros(width - dy.len(), dy);
        }
    }
}

proof fn lemma_no_leading_zero(n: nat)
    requires
        n > 0,
    ensures
        decimal(n).len() >= 1,
        decimal(n)[0] != '0',
    decreases n,
{
    if n >= 10 {
        lemma_no_leading_zero(n / 10);
    }
}

/// The decimal digits of a number stand for it, and there is no zero in front of them.
pub proof fn law_decimal_reads_back(n: nat)
    ensures
        is_digits(decimal(n)),
        value(decimal(n)) == n,
        decimal(n).len() >= 1,
        decimal(n).len() > 1 ==> decimal(n)[0] != '0',
{
    lemma_decimal_value(n);
    lemma_decimal_nonempty(n);
    if n > 0 {
        lemma_no_leading_zero(n);
    }
}

/// The text of an integer stands for it: a minus sign where it is negative, then its
/// digits, with as many zeros in front of them as the width asks for and no more.
pub proof fn law_integer_reads_back(x: int, width: nat)
    ensures
        ({
            let s = integer(x, width);
            let (size, digits) = if x < 0 {
                (-x, s.skip(1))
            } else {
                (x, s)
            };
            &&& x < 0 ==> s[0] == '-'
            &&& is_digits(digits)
            &&& value(digits) == size
            &&& s.len() >= width
            &&& s.len() > width ==> digits == decimal(size as nat)
        }),
{
    law_integer_shape(x, width);
    let s = integer(x, width);
    if x < 0 {
        let d = decimal((-x) as nat);
        lemma_decimal_value((-x) as nat);
        lemma_leading_zeros(width - 1 - d.len(), d);
        assert(s.skip(1) =~= repeated('0', width - 1 - d.len()) + d);
        if s.len() > width {
            assert(s.skip(1) =~= d);
        }
    } else {
        let d = decimal(x as nat);
        lemma_decimal_value(x as nat);
        lemma_leading_zeros(width - d.len(), d);
        if s.len() > width {
            assert(s =~= d);
        }
    }
}

/// A column holds its text, at the left or at the right, and spaces up to its width.
pub proof fn law_columns_are_filled_with_spaces(s: Seq<char>, width: nat)
    ensures
        ({
            let (l, r) = (left_aligned(s, width), right_aligned(s, width));
            &&& l.len() == r.len()
            &&& l.len() == if s.len() > width {
                s.len()
            } else {
                width
            }
            &&& l.take(s.len() as int) == s
            &&& forall|i: int| s.len() <= i < l.len() ==> #[trigger] l[i] == ' '
            &&& r.skip(r.len() - s.len()) == s
            &&& forall|i: int| 0 <= i < r.len() - s.len() ==> #[trigger] r[i] == ' '
        }),
{
    let (l, r) = (left_aligned(s, width), right_aligned(s, width));
    assert(l.take(s.len() as int) =~= s);
    assert(r.skip(r.len() - s.len()) =~= s);
}

} // verus!

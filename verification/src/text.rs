//! Numbers as decimal text, and padding.

use vstd::prelude::*;
use vstd::string::*;

verus! {

/// The character of a decimal digit.
pub open spec fn digit(d: nat) -> char {
    if d == 0 {
        '0'
    } else if d == 1 {
        '1'
    } else if d == 2 {
        '2'
    } else if d == 3 {
        '3'
    } else if d == 4 {
        '4'
    } else if d == 5 {
        '5'
    } else if d == 6 {
        '6'
    } else if d == 7 {
        '7'
    } else if d == 8 {
        '8'
    } else {
        '9'
    }
}

/// The decimal text of a number.
pub open spec fn decimal(n: nat) -> Seq<char>
    decreases n,
{
    if n < 10 {
        seq![digit(n)]
    } else {
        decimal(n / 10).push(digit(n % 10))
    }
}

/// `count` copies of a character.
pub open spec fn run_of(c: char, count: nat) -> Seq<char> {
    Seq::new(count, |i: int| c)
}

/// The decimal text of a number, filled up with `c` on the left to `width` characters.
pub open spec fn right_aligned(n: nat, c: char, width: nat) -> Seq<char> {
    if decimal(n).len() < width {
        run_of(c, (width - decimal(n).len()) as nat) + decimal(n)
    } else {
        decimal(n)
    }
}

/// `s` comes before `t` in dictionary order.
pub open spec fn sorts_before(s: Seq<char>, t: Seq<char>) -> bool {
    exists|k: int|
        {
            &&& 0 <= k <= s.len()
            &&& k < t.len()
            &&& #[trigger] s.take(k) == t.take(k)
            &&& k < s.len() ==> s[k] < t[k]
        }
}

/// The text of one digit.
fn digit_text(d: u64) -> (text: &'static str)
    requires
        d < 10,
    ensures
        text@ == seq![digit(d as nat)],
{
    proof {
        reveal_strlit("0");
        reveal_strlit("1");
        reveal_strlit("2");
        reveal_strlit("3");
        reveal_strlit("4");
        reveal_strlit("5");
        reveal_strlit("6");
        reveal_strlit("7");
        reveal_strlit("8");
        reveal_strlit("9");
    }
    let text: &'static str = match d {
        0 => "0",
        1 => "1",
        2 => "2",
        3 => "3",
        4 => "4",
        5 => "5",
        6 => "6",
        7 => "7",
        8 => "8",
        _ => "9",
    };
    assert(text@ =~= seq![digit(d as nat)]);
    text
}

/// Appends the decimal text of `n`.
pub fn push_decimal(out: &mut String, n: u64)
    ensures
        final(out)@ == old(out)@ + decimal(n as nat),
    decreases n,
{
    if n >= 10 {
        push_decimal(out, n / 10);
    }
    out.append(digit_text(n % 10));
    assert(out@ =~= old(out)@ + decimal(n as nat));
}

/// The number of characters in the decimal text of `n`.
pub fn decimal_width(n: u64) -> (width: usize)
    ensures
        width == decimal(n as nat).len(),
{
    let mut width: usize = 1;
    let mut rest: u64 = n;
    while rest >= 10
        invariant
            1 <= width,
            width + decimal(rest as nat).len() == decimal(n as nat).len() + 1,
        decreases rest,
    {
        proof {
            lemma_decimal_fits(n as nat);
        }
        rest = rest / 10;
        width = width + 1;
    }
    width
}

/// Appends `count` copies of the one-character text `unit`.
fn push_run(out: &mut String, unit: &str, count: usize)
    requires
        unit@.len() == 1,
    ensures
        final(out)@ == old(out)@ + run_of(unit@[0], count as nat),
{
    let mut i: usize = 0;
    assert(out@ =~= old(out)@ + run_of(unit@[0], 0));
    while i < count
        invariant
            unit@.len() == 1,
            i <= count,
            out@ == old(out)@ + run_of(unit@[0], i as nat),
        decreases count - i,
    {
        out.append(unit);
        i = i + 1;
        assert(out@ =~= old(out)@ + run_of(unit@[0], i as nat));
    }
}

/// Appends `count` spaces.
pub fn push_spaces(out: &mut String, count: usize)
    ensures
        final(out)@ == old(out)@ + run_of(' ', count as nat),
{
    proof {
        reveal_strlit(" ");
    }
    push_run(out, " ", count);
}

/// Appends the decimal text of `n`, filled up with spaces on the left to `width` characters.
pub fn push_right_aligned(out: &mut String, n: u64, width: usize)
    ensures
        final(out)@ == old(out)@ + right_aligned(n as nat, ' ', width as nat),
{
    let own: usize = decimal_width(n);
    if own < width {
        push_spaces(out, width - own);
    }
    push_decimal(out, n);
    assert(out@ =~= old(out)@ + right_aligned(n as nat, ' ', width as nat));
}

/// Appends the decimal text of `n`, filled up with zeros on the left to `width` characters.
pub fn push_zero_padded(out: &mut String, n: u64, width: usize)
    ensures
        final(out)@ == old(out)@ + right_aligned(n as nat, '0', width as nat),
{
    let own: usize = decimal_width(n);
    if own < width {
        proof {
            reveal_strlit("0");
        }
        push_run(out, "0", width - own);
    }
    push_decimal(out, n);
    assert(out@ =~= old(out)@ + right_aligned(n as nat, '0', width as nat));
}

spec fn power_of_ten(k: nat) -> nat
    decreases k,
{
    if k == 0 {
        1
    } else {
        10 * power_of_ten((k - 1) as nat)
    }
}

proof fn lemma_decimal_len(n: nat, k: nat)
    requires
        n < power_of_ten(k),
        k > 0,
    ensures
        decimal(n).len() <= k,
    decreases k,
{
    if n >= 10 {
        assert(k > 1) by {
            if k == 1 {
                assert(power_of_ten(0) == 1);
            }
        }
        lemma_decimal_len(n / 10, (k - 1) as nat);
    }
}

/// A machine word has no more than twenty decimal digits.
pub proof fn lemma_decimal_fits(n: nat)
    requires
        n <= u64::MAX,
    ensures
        decimal(n).len() <= 20,
{
    reveal_with_fuel(power_of_ten, 21);
    lemma_decimal_len(n, 20);
}

/// The decimal text of a larger number is not shorter.
pub proof fn larger_numbers_are_not_shorter(m: nat, n: nat)
    requires
        m <= n,
    ensures
        1 <= decimal(m).len() <= decimal(n).len(),
    decreases n,
{
    if m >= 10 {
        larger_numbers_are_not_shorter(m / 10, n / 10);
    } else if n >= 10 {
        larger_numbers_are_not_shorter(0, n / 10);
    }
}

/// No two numbers have the same decimal text.
pub proof fn decimal_is_injective(m: nat, n: nat)
    requires
        decimal(m) == decimal(n),
    ensures
        m == n,
    decreases m,
{
    let s = decimal(m);
    let t = decimal(n);
    larger_numbers_are_not_shorter(0, m / 10);
    larger_numbers_are_not_shorter(0, n / 10);
    assert(s[s.len() - 1] == digit(m % 10));
    assert(t[t.len() - 1] == digit(n % 10));
    assert(m % 10 == n % 10);
    assert(m >= 10 <==> s.len() > 1);
    assert(n >= 10 <==> t.len() > 1);
    if m >= 10 && n >= 10 {
        assert(s.drop_last() =~= decimal(m / 10));
        assert(t.drop_last() =~= decimal(n / 10));
        decimal_is_injective(m / 10, n / 10);
    }
}

proof fn lemma_padded_step(n: nat, width: nat)
    requires
        decimal(n).len() <= width,
        2 <= width,
    ensures
        decimal(n / 10).len() <= width - 1,
        right_aligned(n, '0', width) == right_aligned(n / 10, '0', (width - 1) as nat).push(
            digit(n % 10),
        ),
        right_aligned(n, '0', width).len() == width,
{
    if n < 10 {
        assert(n / 10 == 0);
        assert(decimal(0).len() == 1);
    }
    assert(right_aligned(n, '0', width) =~= right_aligned(n / 10, '0', (width - 1) as nat).push(
        digit(n % 10),
    ));
}

/// Zero-padded numbers of one width stand in dictionary order.
pub proof fn padded_numbers_sort(m: nat, n: nat, width: nat)
    requires
        m < n,
        decimal(n).len() <= width,
    ensures
        sorts_before(right_aligned(m, '0', width), right_aligned(n, '0', width)),
        right_aligned(m, '0', width).len() == width,
        right_aligned(n, '0', width).len() == width,
    decreases width,
{
    larger_numbers_are_not_shorter(m, n);
    let s = right_aligned(m, '0', width);
    let t = right_aligned(n, '0', width);
    if width < 2 {
        assert(n < 10) by {
            if n >= 10 {
                larger_numbers_are_not_shorter(10, n);
                assert(decimal(10) == decimal(1).push(digit(0)));
            }
        }
        assert(s.take(0) =~= t.take(0));
    } else {
        lemma_padded_step(m, width);
        lemma_padded_step(n, width);
        let shorter = (width - 1) as nat;
        if m / 10 < n / 10 {
            padded_numbers_sort(m / 10, n / 10, shorter);
            let a = right_aligned(m / 10, '0', shorter);
            let b = right_aligned(n / 10, '0', shorter);
            let k = choose|k: int|
                {
                    &&& 0 <= k <= a.len()
                    &&& k < b.len()
                    &&& #[trigger] a.take(k) == b.take(k)
                    &&& k < a.len() ==> a[k] < b[k]
                };
            assert(s.take(k) =~= a.take(k));
            assert(t.take(k) =~= b.take(k));
            assert(s.take(k) == t.take(k));
        } else {
            assert(m / 10 == n / 10);
            assert(m % 10 < n % 10);
            assert(s.take(width - 1) =~= t.take(width - 1));
        }
    }
}

/// The decimal text of a number is made of digits, has no needless zero in front, and read digit by
/// digit is the number.
pub proof fn decimal_reads_back(n: nat)
    ensures
        decimal(n).len() > 0,
        forall|i: int| 0 <= i < decimal(n).len() ==> '0' <= #[trigger] decimal(n)[i] <= '9',
        n > 0 ==> decimal(n)[0] != '0',
        decimal(n).fold_left(0int, |value: int, c: char| 10 * value + (c as int - '0' as int)) == n,
    decreases n,
{
    let read = |value: int, c: char| 10 * value + (c as int - '0' as int);
    let last = (n % 10) as nat;
    assert(digit(last) as int - '0' as int == last);
    if n < 10 {
        let front = decimal(n).drop_last();
        assert(front.len() == 0);
        assert(front.fold_left(0int, read) == 0);
        assert(decimal(n).last() == digit(n));
    } else {
        decimal_reads_back(n / 10);
        assert(decimal(n).drop_last() =~= decimal(n / 10));
        assert(decimal(n).last() == digit(last));
    }
}

/// A number that is filled up on the left ends in its own digits, has nothing but the filling before
/// them, and is as wide as asked for unless its digits alone are wider.
pub proof fn filling_stands_on_the_left(n: nat, c: char, width: nat)
    ensures
        right_aligned(n, c, width).len() == (if decimal(n).len() < width {
            width
        } else {
            decimal(n).len()
        }),
        right_aligned(n, c, width).skip(
            right_aligned(n, c, width).len() - decimal(n).len(),
        ) == decimal(n),
        forall|i: int|
            0 <= i < right_aligned(n, c, width).len() - decimal(n).len()
                ==> #[trigger] right_aligned(n, c, width)[i] == c,
{
    let filled = right_aligned(n, c, width);
    assert(filled.skip(filled.len() - decimal(n).len()) =~= decimal(n));
}

/// A run of a character is that character as often as asked for, and nothing else.
pub proof fn run_is_one_character(c: char, count: nat)
    ensures
        run_of(c, count).len() == count,
        forall|i: int| 0 <= i < count ==> #[trigger] run_of(c, count)[i] == c,
{
}

} // verus!

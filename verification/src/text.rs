//! Text helpers: decimal numerals and lookups in lists of names.
use vstd::prelude::*;

verus! {

/// The numeral of a digit.
pub open spec fn digit(d: nat) -> Seq<char> {
    if d == 0 {
        "0"@
    } else if d == 1 {
        "1"@
    } else if d == 2 {
        "2"@
    } else if d == 3 {
        "3"@
    } else if d == 4 {
        "4"@
    } else if d == 5 {
        "5"@
    } else if d == 6 {
        "6"@
    } else if d == 7 {
        "7"@
    } else if d == 8 {
        "8"@
    } else {
        "9"@
    }
}

/// The decimal numeral of `n`, without leading zeros.
pub open spec fn decimal(n: nat) -> Seq<char>
    decreases n,
{
    if n < 10 {
        digit(n)
    } else {
        decimal(n / 10) + digit(n % 10)
    }
}

fn digit_str(d: usize) -> (r: &'static str)
    requires
        d < 10,
    ensures
        r@ == digit(d as nat),
{
    if d == 0 {
        "0"
    } else if d == 1 {
        "1"
    } else if d == 2 {
        "2"
    } else if d == 3 {
        "3"
    } else if d == 4 {
        "4"
    } else if d == 5 {
        "5"
    } else if d == 6 {
        "6"
    } else if d == 7 {
        "7"
    } else if d == 8 {
        "8"
    } else {
        "9"
    }
}

/// Appends the decimal numeral of `n` to `out`.
pub fn push_decimal(out: &mut String, n: usize)
    ensures
        final(out)@ == old(out)@ + decimal(n as nat),
        numeral_value(final(out)@.skip(old(out)@.len() as int)) == n,
    decreases n,
{
    if n >= 10 {
        push_decimal(out, n / 10);
    }
    out.append(digit_str(n % 10));
    assert(old(out)@ + decimal(n as nat) =~= old(out)@ + (if n >= 10 { decimal((n / 10) as nat) } else { Seq::empty() }) + digit((n % 10) as nat));
    proof {
        lemma_decimal_is_numeral(n as nat);
        assert(out@.skip(old(out)@.len() as int) =~= decimal(n as nat));
    }
}

/// Whether `names` holds a string equal to `name`.
pub fn contains_name(names: &Vec<String>, name: &str) -> (r: bool)
    ensures
        r == names@.map_values(|s: String| s@).contains(name@),
{
    let ghost views = names@.map_values(|s: String| s@);
    let mut i: usize = 0;
    while i < names.len()
        invariant
            i <= names@.len(),
            views == names@.map_values(|s: String| s@),
            forall|j: int| 0 <= j < i ==> views[j] != name@,
        decreases names@.len() - i,
    {
        if names[i].as_str().to_owned() == name.to_owned() {
            assert(views[i as int] == name@);
            return true;
        }
        i = i + 1;
    }
    false
}

/// The value of a decimal digit character; -1 for any other character.
pub open spec fn digit_value(c: char) -> int {
    if c == '0' {
        0
    } else if c == '1' {
        1
    } else if c == '2' {
        2
    } else if c == '3' {
        3
    } else if c == '4' {
        4
    } else if c == '5' {
        5
    } else if c == '6' {
        6
    } else if c == '7' {
        7
    } else if c == '8' {
        8
    } else if c == '9' {
        9
    } else {
        -1
    }
}

/// The number a string of decimal digits stands for, read most significant first.
pub open spec fn numeral_value(s: Seq<char>) -> int
    decreases s.len(),
{
    if s.len() == 0 {
        0
    } else {
        numeral_value(s.drop_last()) * 10 + digit_value(s.last())
    }
}

proof fn lemma_digit_is_one_character(d: nat)
    requires
        d < 10,
    ensures
        digit(d).len() == 1,
        digit_value(digit(d)[0]) == d,
{
    reveal_strlit("0");
    reveal_strlit("1");
    reveal_strlit("2");
    reveal_strlit("3");
    reveal_strlit("4");
    reveal_strlit("5");
    reveal_strlit("6");
    reveal_strlit("7");
    reveal_strlit("8");
    reveal_strlit("9");
}

/// The numeral `decimal(n)` is the standard base-10 numeral of `n`: it is not
/// empty, every character is a digit, read back it is worth `n`, and it has
/// no leading zero.
pub proof fn lemma_decimal_is_numeral(n: nat)
    ensures
        decimal(n).len() > 0,
        forall|k: int| 0 <= k < decimal(n).len() ==> 0 <= #[trigger] digit_value(decimal(n)[k]) <= 9,
        numeral_value(decimal(n)) == n,
        decimal(n).len() > 1 ==> decimal(n)[0] != '0',
    decreases n,
{
    if n < 10 {
        lemma_digit_is_one_character(n);
        let s = decimal(n);
        assert(s.drop_last() =~= Seq::<char>::empty());
        assert(numeral_value(s) == numeral_value(s.drop_last()) * 10 + digit_value(s.last()));
        assert(numeral_value(s.drop_last()) == 0);
    } else {
        let q = n / 10;
        let r = n % 10;
        lemma_decimal_is_numeral(q);
        lemma_digit_is_one_character(r);
        let a = decimal(q);
        let s = decimal(n);
        assert(s == a + digit(r));
        assert(s.drop_last() =~= a);
        assert(s.last() == digit(r)[0]);
        assert(n == q * 10 + r);
        assert(numeral_value(s) == numeral_value(a) * 10 + digit_value(digit(r)[0]));
        assert forall|k: int| 0 <= k < s.len() implies 0 <= #[trigger] digit_value(s[k]) <= 9 by {
            if k < a.len() {
                assert(s[k] == a[k]);
            }
        }
        if a.len() == 1 {
            assert(q >= 1);
            if a[0] == '0' {
                assert(numeral_value(a) == numeral_value(a.drop_last()) * 10 + digit_value(a.last()));
                assert(a.drop_last() =~= Seq::<char>::empty());
            }
        }
        assert(s[0] == a[0]);
    }
}

} // verus!

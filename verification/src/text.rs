//! Character-sequence models shared by the geometry parser: decimal digit
//! strings and splitting a sequence on a separator character.

use vstd::prelude::*;

verus! {

/// A decimal digit character.
pub open spec fn is_digit_char(c: char) -> bool {
    48 <= c as int && c as int <= 57
}

/// The numeric value of a decimal digit character.
pub open spec fn digit_value(c: char) -> int {
    c as int - 48
}

/// Every character of `s` is a decimal digit.
pub open spec fn all_digits(s: Seq<char>) -> bool {
    forall|i: int| 0 <= i < s.len() ==> is_digit_char(#[trigger] s[i])
}

/// The number denoted by a digit string, most significant digit first.
pub open spec fn digits_value(s: Seq<char>) -> int
    decreases s.len(),
{
    if s.len() == 0 {
        0
    } else {
        digits_value(s.drop_last()) * 10 + digit_value(s.last())
    }
}

pub proof fn lemma_digits_value_nonneg(s: Seq<char>)
    requires
        all_digits(s),
    ensures
        digits_value(s) >= 0,
    decreases s.len(),
{
    if s.len() > 0 {
        assert(all_digits(s.drop_last()));
        lemma_digits_value_nonneg(s.drop_last());
    }
}

/// Appending a digit multiplies the value by ten and adds the digit.
pub proof fn lemma_digits_value_push(s: Seq<char>, c: char)
    ensures
        digits_value(s.push(c)) == digits_value(s) * 10 + digit_value(c),
{
    assert(s.push(c).drop_last() =~= s);
    assert(s.push(c).last() == c);
}

/// The value of a digit string is no less than the value of any of its
/// prefixes.
pub proof fn lemma_digits_value_take_le(s: Seq<char>, k: int)
    requires
        all_digits(s),
        0 <= k <= s.len(),
    ensures
        digits_value(s.take(k)) <= digits_value(s),
    decreases s.len() - k,
{
    if k < s.len() {
        assert(s.take(k + 1).drop_last() =~= s.take(k));
        assert(s.take(k + 1).last() == s[k]);
        assert(all_digits(s.take(k)));
        lemma_digits_value_nonneg(s.take(k));
        assert(digits_value(s.take(k + 1)) == digits_value(s.take(k)) * 10 + digit_value(s[k]));
        lemma_digits_value_take_le(s, k + 1);
    } else {
        assert(s.take(k) =~= s);
    }
}

/// The character for a single decimal digit.
pub open spec fn digit_char(d: int) -> char {
    if d == 0 {
        '0'
    } else if d == 1 {
        '1'
    } else if d == 2 {
        '2'
    } else if d == 3 {
        '3'
    } else if d == 4 {
        '4'
    } else if d == 5 {
        '5'
    } else if d == 6 {
        '6'
    } else if d == 7 {
        '7'
    } else if d == 8 {
        '8'
    } else {
        '9'
    }
}

/// The decimal rendering of a nonnegative number, most significant digit
/// first and without leading zeros (except for zero itself).
pub open spec fn decimal_digits(n: int) -> Seq<char>
    decreases n,
{
    if n < 10 {
        seq![digit_char(n)]
    } else {
        decimal_digits(n / 10) + seq![digit_char(n % 10)]
    }
}

/// The decimal rendering of `n` is a nonempty digit string that denotes `n`
/// and contains no separator character `x`.
pub proof fn lemma_decimal_digits_correct(n: int)
    requires
        n >= 0,
    ensures
        all_digits(decimal_digits(n)),
        decimal_digits(n).len() >= 1,
        digits_value(decimal_digits(n)) == n,
        forall|i: int| 0 <= i < decimal_digits(n).len() ==> decimal_digits(n)[i] != 'x',
    decreases n,
{
    if n < 10 {
        assert(seq![digit_char(n)].drop_last() =~= Seq::<char>::empty());
        assert(seq![digit_char(n)].last() == digit_char(n));
        assert(digits_value(Seq::<char>::empty()) == 0);
        assert(digit_value(digit_char(n)) == n);
        assert(digits_value(decimal_digits(n)) == n);
    } else {
        lemma_decimal_digits_correct(n / 10);
        let s = decimal_digits(n / 10);
        let c = digit_char(n % 10);
        assert(decimal_digits(n) =~= s.push(c));
        lemma_digits_value_push(s, c);
        assert(digits_value(s.push(c)) == n);
        assert(forall|i: int|
            0 <= i < s.push(c).len() ==> #[trigger] s.push(c)[i] == (if i < s.len() {
                s[i]
            } else {
                c
            }));
    }
}

/// Splitting a character sequence on a separator, as `str::split` does: the
/// result always has at least one component, and an empty input yields one
/// empty component.
pub open spec fn split_on_char(s: Seq<char>, sep: char) -> Seq<Seq<char>>
    decreases s.len(),
{
    if s.len() == 0 {
        seq![Seq::<char>::empty()]
    } else if s[0] == sep {
        seq![Seq::<char>::empty()] + split_on_char(s.drop_first(), sep)
    } else {
        let rest = split_on_char(s.drop_first(), sep);
        seq![seq![s[0]] + rest[0]] + rest.drop_first()
    }
}

pub proof fn lemma_split_nonempty(s: Seq<char>, sep: char)
    ensures
        split_on_char(s, sep).len() >= 1,
    decreases s.len(),
{
    if s.len() > 0 {
        lemma_split_nonempty(s.drop_first(), sep);
    }
}

/// A sequence free of the separator splits into the single component that is
/// the sequence itself.
pub proof fn lemma_split_no_sep(s: Seq<char>, sep: char)
    requires
        forall|i: int| 0 <= i < s.len() ==> s[i] != sep,
    ensures
        split_on_char(s, sep) == seq![s],
    decreases s.len(),
{
    if s.len() == 0 {
        assert(s =~= Seq::<char>::empty());
    } else {
        assert(forall|i: int|
            0 <= i < s.drop_first().len() ==> #[trigger] s.drop_first()[i] != sep);
        lemma_split_no_sep(s.drop_first(), sep);
        let rest = split_on_char(s.drop_first(), sep);
        assert(rest == seq![s.drop_first()]);
        assert(seq![s[0]] + s.drop_first() =~= s);
        assert(rest.drop_first() =~= Seq::<Seq<char>>::empty());
        assert(split_on_char(s, sep) =~= seq![s]);
    }
}

/// Splitting at the first occurrence of the separator: the first component is
/// everything before it, and the rest is the split of everything after it.
pub proof fn lemma_split_first_sep(s: Seq<char>, sep: char, i: int)
    requires
        0 <= i < s.len(),
        s[i] == sep,
        forall|j: int| 0 <= j < i ==> s[j] != sep,
    ensures
        split_on_char(s, sep) == seq![s.take(i)] + split_on_char(s.skip(i + 1), sep),
    decreases i,
{
    if i == 0 {
        assert(s.take(0) =~= Seq::<char>::empty());
        assert(s.skip(1) =~= s.drop_first());
        assert(split_on_char(s, sep) =~= seq![s.take(0)] + split_on_char(s.skip(1), sep));
    } else {
        let t = s.drop_first();
        assert(t[i - 1] == sep);
        assert(forall|j: int| 0 <= j < i - 1 ==> #[trigger] t[j] != sep);
        lemma_split_first_sep(t, sep, i - 1);
        let rest = split_on_char(t, sep);
        lemma_split_nonempty(t.skip(i), sep);
        assert(rest == seq![t.take(i - 1)] + split_on_char(t.skip(i), sep));
        assert(rest[0] == t.take(i - 1));
        assert(seq![s[0]] + t.take(i - 1) =~= s.take(i));
        assert(t.skip(i) =~= s.skip(i + 1));
        assert(rest.drop_first() =~= split_on_char(s.skip(i + 1), sep));
        assert(split_on_char(s, sep) =~= seq![s.take(i)] + split_on_char(s.skip(i + 1), sep));
    }
}

} // verus!

//! Decimal numerals: the digit string of an unsigned integer, its value,
//! and the round trip between the two. The metadata codec prints and reads
//! record sizes with these, and collision resolution builds its integer
//! prefixes from them.

use vstd::prelude::*;

verus! {

/// The character for one decimal digit value.
pub open spec fn digit_char(d: int) -> char
    recommends
        0 <= d < 10,
{
    ((48 + d) as u8) as char
}

/// The decimal numeral of `n`: most significant digit first, no leading zeros.
pub open spec fn dec_digits(n: nat) -> Seq<char>
    decreases n,
{
    if n < 10 {
        seq![digit_char(n as int)]
    } else {
        dec_digits(n / 10) + seq![digit_char((n % 10) as int)]
    }
}

/// Whether `c` is a decimal digit.
pub open spec fn is_digit(c: char) -> bool {
    48 <= c as int && c as int <= 57
}

/// The value of one digit character.
pub open spec fn digit_val(c: char) -> int {
    c as int - 48
}

/// The value of a digit string, most significant digit first.
pub open spec fn dec_val(s: Seq<char>) -> int
    decreases s.len(),
{
    if s.len() == 0 {
        0
    } else {
        dec_val(s.drop_last()) * 10 + digit_val(s.last())
    }
}

/// How many leading characters of `s` are digits.
pub open spec fn digit_prefix_len(s: Seq<char>) -> nat
    decreases s.len(),
{
    if s.len() == 0 || !is_digit(s[0]) {
        0
    } else {
        1 + digit_prefix_len(s.skip(1))
    }
}

/// The numeral of `n` consists of digits only, and reads back as `n`.
pub proof fn lemma_dec_digits_val(n: nat)
    ensures
        dec_digits(n).len() >= 1,
        forall|i: int| 0 <= i < dec_digits(n).len() ==> is_digit(#[trigger] dec_digits(n)[i]),
        dec_val(dec_digits(n)) == n,
    decreases n,
{
    if n < 10 {
        let d = digit_char(n as int);
        assert(dec_digits(n) == seq![d]);
        assert(is_digit(d));
        assert(seq![d].drop_last() =~= Seq::<char>::empty());
        assert(seq![d].last() == d);
        assert(dec_val(seq![d]) == dec_val(Seq::<char>::empty()) * 10 + digit_val(d));
    } else {
        lemma_dec_digits_val(n / 10);
        let pre = dec_digits(n / 10);
        let d = digit_char((n % 10) as int);
        assert(dec_digits(n) == pre + seq![d]);
        assert((pre + seq![d]).drop_last() =~= pre);
        assert((pre + seq![d]).last() == d);
        assert(dec_val(dec_digits(n)) == dec_val(pre) * 10 + digit_val(d));
        assert(n / 10 * 10 + n % 10 == n) by (nonlinear_arith);
    }
}

/// Distinct integers have distinct numerals.
pub proof fn lemma_dec_digits_injective(a: nat, b: nat)
    requires
        dec_digits(a) == dec_digits(b),
    ensures
        a == b,
{
    lemma_dec_digits_val(a);
    lemma_dec_digits_val(b);
}

/// In a digit string followed by a non-digit, the digit prefix is exactly
/// the digit string.
pub proof fn lemma_digit_prefix_of_concat(s: Seq<char>, t: Seq<char>)
    requires
        forall|i: int| 0 <= i < s.len() ==> is_digit(#[trigger] s[i]),
        t.len() > 0,
        !is_digit(t[0]),
    ensures
        digit_prefix_len(s + t) == s.len(),
    decreases s.len(),
{
    if s.len() == 0 {
        assert(s + t == t);
    } else {
        assert((s + t)[0] == s[0]);
        assert((s + t).skip(1) == s.skip(1) + t);
        lemma_digit_prefix_of_concat(s.skip(1), t);
    }
}

/// The digit prefix consists of digits and is never longer than the string.
pub proof fn lemma_digit_prefix_len_bound(s: Seq<char>)
    ensures
        digit_prefix_len(s) <= s.len(),
        forall|i: int| 0 <= i < digit_prefix_len(s) ==> is_digit(#[trigger] s[i]),
    decreases s.len(),
{
    if s.len() == 0 || !is_digit(s[0]) {
    } else {
        lemma_digit_prefix_len_bound(s.skip(1));
        assert forall|i: int| 0 <= i < digit_prefix_len(s) implies is_digit(#[trigger] s[i]) by {
            if i > 0 {
                assert(s.skip(1)[i - 1] == s[i]);
            }
        }
    }
}

/// The digit prefix ends exactly at the first non-digit.
pub proof fn lemma_digit_prefix_len_is(s: Seq<char>, l: int)
    requires
        0 <= l <= s.len(),
        forall|i: int| 0 <= i < l ==> is_digit(#[trigger] s[i]),
        l == s.len() || !is_digit(s[l]),
    ensures
        digit_prefix_len(s) == l,
    decreases l,
{
    if l == 0 {
    } else {
        assert(is_digit(s[0]));
        assert forall|i: int| 0 <= i < l - 1 implies is_digit(#[trigger] s.skip(1)[i]) by {
            assert(s.skip(1)[i] == s[i + 1]);
        }
        if l < s.len() {
            assert(s.skip(1)[l - 1] == s[l]);
        }
        lemma_digit_prefix_len_is(s.skip(1), l - 1);
    }
}

/// Reading more digits never shrinks the value.
pub proof fn lemma_dec_val_monotone(s: Seq<char>, k: int, m: int)
    requires
        0 <= k <= m <= s.len(),
        forall|i: int| 0 <= i < m ==> is_digit(#[trigger] s[i]),
    ensures
        dec_val(s.take(k)) <= dec_val(s.take(m)),
    decreases m - k,
{
    if k < m {
        lemma_dec_val_monotone(s, k, m - 1);
        assert(forall|i: int| 0 <= i < s.take(m - 1).len() ==> is_digit(#[trigger] s.take(m - 1)[i]));
        lemma_dec_val_nonneg(s.take(m - 1));
        assert(s.take(m).drop_last() =~= s.take(m - 1));
        assert(s.take(m).last() == s[m - 1]);
        assert(dec_val(s.take(m)) == dec_val(s.take(m - 1)) * 10 + digit_val(s[m - 1]));
        assert(dec_val(s.take(m - 1)) * 10 >= dec_val(s.take(m - 1))) by (nonlinear_arith)
            requires
                dec_val(s.take(m - 1)) >= 0,
        ;
    }
}

/// A digit string's value is not negative.
pub proof fn lemma_dec_val_nonneg(s: Seq<char>)
    requires
        forall|i: int| 0 <= i < s.len() ==> is_digit(#[trigger] s[i]),
    ensures
        dec_val(s) >= 0,
    decreases s.len(),
{
    if s.len() > 0 {
        assert(forall|i: int| 0 <= i < s.drop_last().len() ==> is_digit(
            #[trigger] s.drop_last()[i],
        ));
        lemma_dec_val_nonneg(s.drop_last());
        assert(dec_val(s.drop_last()) * 10 >= 0) by (nonlinear_arith)
            requires
                dec_val(s.drop_last()) >= 0,
        ;
    }
}

/// Appends the decimal numeral of `n` to `out`.
pub fn push_dec(n: u64, out: &mut Vec<char>)
    ensures
        final(out)@ == old(out)@ + dec_digits(n as nat),
    decreases n,
{
    if n >= 10 {
        push_dec(n / 10, out);
    }
    let d: u8 = 48 + (n % 10) as u8;
    out.push(d as char);
    proof {
        if n >= 10 {
            assert(out@ == old(out)@ + dec_digits((n / 10) as nat) + seq![
                digit_char((n % 10) as int),
            ]);
            assert(dec_digits(n as nat) == dec_digits((n as nat) / 10) + seq![
                digit_char(((n as nat) % 10) as int),
            ]);
            assert((n / 10) as nat == (n as nat) / 10);
            assert((n % 10) as int == (n as nat) % 10);
        } else {
            assert(dec_digits(n as nat) == seq![digit_char(n as int)]);
        }
        assert(out@ == old(out)@ + dec_digits(n as nat));
    }
}

} // verus!

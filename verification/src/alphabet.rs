//! The sixteen-character alphabet and the numbers written in it.
use vstd::prelude::*;

verus! {

/// Code point of `'A'`, the character that stands for digit 0.
pub const CHAR_CODE_A: u32 = 65;

/// Code point of `'R'`, the character that stands for digit 10.
pub const CHAR_CODE_R: u32 = 82;

/// What has to be taken from the code point of a character of the second
/// range to get its digit.
pub const CHAR_R_OFFSET: u32 = CHAR_CODE_R - 10;

/// One more than the largest decoded group: groups are reduced modulo this.
pub open spec fn group_modulus() -> nat {
    0x1_0000_0000
}

/// Whether `c` is one of the sixteen characters of the alphabet:
/// `A` to `J` and `R` to `W`.
pub open spec fn is_digit(c: char) -> bool {
    ('A' <= c && c <= 'J') || ('R' <= c && c <= 'W')
}

/// The digit that `c` stands for: `A` to `J` are 0 to 9 and `R` to `W` are
/// 10 to 15. Every other character stands for none.
pub open spec fn digit_value(c: char) -> Option<u32> {
    if 'A' <= c && c <= 'J' {
        Some((c as u32 - 'A' as u32) as u32)
    } else if 'R' <= c && c <= 'W' {
        Some((c as u32 - 'R' as u32 + 10) as u32)
    } else {
        None
    }
}

/// The digit of `c` as a number, 0 where `c` has none.
pub open spec fn digit_of(c: char) -> nat {
    match digit_value(c) {
        Some(d) => d as nat,
        None => 0,
    }
}

/// The number that `digits` writes in base 16, most significant digit
/// first. It is not bounded: a long run writes a large number.
pub open spec fn base16(digits: Seq<char>) -> nat
    decreases digits.len(),
{
    if digits.len() == 0 {
        0
    } else {
        base16(digits.drop_last()) * 16 + digit_of(digits.last())
    }
}

/// The value of a group as the matcher reports it: the number that its
/// characters write, reduced modulo 2^32. A group of up to eight characters
/// is reported as it is written; of a longer one only the last eight count.
pub open spec fn group_value(digits: Seq<char>) -> u32 {
    (base16(digits) % group_modulus()) as u32
}

/// 16 to the power of `n`.
pub open spec fn pow16(n: nat) -> nat
    decreases n,
{
    if n == 0 {
        1
    } else {
        16 * pow16((n - 1) as nat)
    }
}

/// Maps one character to its digit, or to `None` where the character is not
/// part of the alphabet.
pub fn char_to_number(character: char) -> (r: Option<u32>)
    ensures
        r == digit_value(character),
        r is Some <==> is_digit(character),
        r matches Some(d) ==> d < 16,
{
    if 'A' <= character && character <= 'J' {
        Some(character as u32 - CHAR_CODE_A)
    } else if 'R' <= character && character <= 'W' {
        Some(character as u32 - CHAR_R_OFFSET)
    } else {
        None
    }
}

/// Writing `low` behind `high` shifts the number that `high` writes by as
/// many digits as `low` has, and adds the number that `low` writes.
pub proof fn lemma_base16_concat(high: Seq<char>, low: Seq<char>)
    ensures
        base16(high + low) == base16(high) * pow16(low.len()) + base16(low),
    decreases low.len(),
{
    if low.len() == 0 {
        assert(high + low =~= high);
        assert(base16(high) * 1 == base16(high));
    } else {
        assert((high + low).drop_last() =~= high + low.drop_last());
        assert((high + low).last() == low.last());
        lemma_base16_concat(high, low.drop_last());
        let h = base16(high);
        let p = pow16(low.drop_last().len());
        assert(pow16(low.len()) == 16 * p);
        assert(h * (16 * p) == (h * p) * 16) by (nonlinear_arith);
    }
}

/// The first digit of a run of `n` digits weighs 16 to the power of
/// `n - 1`; by induction the digit at `i` weighs 16 to the power of
/// `n - 1 - i`, and the number written is the sum of the weighted digits.
pub proof fn lemma_base16_weights(digits: Seq<char>)
    requires
        digits.len() > 0,
    ensures
        base16(digits) == digit_of(digits[0]) * pow16((digits.len() - 1) as nat) + base16(
            digits.drop_first(),
        ),
{
    let first = seq![digits[0]];
    assert(first.drop_last() =~= Seq::<char>::empty());
    assert(base16(first) == digit_of(digits[0])) by {
        reveal_with_fuel(base16, 2);
    }
    assert(first + digits.drop_first() =~= digits);
    lemma_base16_concat(first, digits.drop_first());
}

/// Powers of 16 grow with the exponent.
pub proof fn lemma_pow16_monotonic(m: nat, n: nat)
    requires
        m <= n,
    ensures
        pow16(m) <= pow16(n),
    decreases n,
{
    if m < n {
        lemma_pow16_monotonic(m, (n - 1) as nat);
    }
}

/// A run of `n` digits writes a number below 16 to the power of `n`.
pub proof fn lemma_base16_bound(digits: Seq<char>)
    ensures
        base16(digits) < pow16(digits.len()),
    decreases digits.len(),
{
    if digits.len() > 0 {
        lemma_base16_bound(digits.drop_last());
    }
}

/// A group of at most eight characters is reported as it is written.
pub proof fn lemma_group_value_exact(digits: Seq<char>)
    requires
        digits.len() <= 8,
    ensures
        group_value(digits) == base16(digits),
{
    lemma_base16_bound(digits);
    lemma_pow16_monotonic(digits.len(), 8);
    reveal_with_fuel(pow16, 9);
}

/// Appending one digit to a run multiplies the reported value by 16 and
/// adds the digit, all modulo 2^32.
pub proof fn lemma_group_value_push(digits: Seq<char>, c: char)
    ensures
        group_value(digits.push(c)) as nat == (group_value(digits) as nat * 16 + digit_of(c))
            % group_modulus(),
{
    assert(digits.push(c).drop_last() =~= digits);
    let b = base16(digits);
    assert(base16(digits.push(c)) == b * 16 + digit_of(c));
    assert((b * 16 + digit_of(c)) % 0x1_0000_0000 == ((b % 0x1_0000_0000) * 16 + digit_of(c))
        % 0x1_0000_0000);
}

} // verus!

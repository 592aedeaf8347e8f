//! Reading unsigned numbers from text.

use vstd::prelude::*;

verus! {

/// The value of the digit `b` in base `radix`: `0` to `9`, then the letters
/// of either case from ten on.
pub open spec fn digit_value(b: u8, radix: nat) -> Option<nat> {
    let v: int = if 0x30 <= b <= 0x39 {
        b - 0x30
    } else if 0x61 <= b <= 0x7A {
        b - 0x61 + 10
    } else if 0x41 <= b <= 0x5A {
        b - 0x41 + 10
    } else {
        36
    };
    if v < radix {
        Some(v as nat)
    } else {
        None
    }
}

/// The value of a run of digits in base `radix`, the first digit weighing
/// most; `None` where one of them is no digit.
pub open spec fn digits_value(digits: Seq<u8>, radix: nat) -> Option<nat>
    decreases digits.len(),
{
    if digits.len() == 0 {
        Some(0nat)
    } else {
        match (digits_value(digits.drop_last(), radix), digit_value(digits.last(), radix)) {
            (Some(high), Some(low)) => Some(high * radix + low),
            _ => None,
        }
    }
}

/// The digits of `text`: what follows one `+` at its front, if there is one.
pub open spec fn unsigned_digits(text: Seq<u8>) -> Seq<u8> {
    if text.len() > 0 && text[0] == 0x2B {
        text.skip(1)
    } else {
        text
    }
}

/// The number that `text` spells in base `radix`: an optional `+`, then at
/// least one digit and nothing else, with a value of at most `max`.
pub open spec fn parse_number(text: Seq<u8>, radix: nat, max: nat) -> Option<nat> {
    let digits = unsigned_digits(text);
    if digits.len() == 0 {
        None
    } else {
        match digits_value(digits, radix) {
            Some(v) => if v <= max {
                Some(v)
            } else {
                None
            },
            None => None,
        }
    }
}

/// Where a run of digits has a value, so has each of its prefixes, and the
/// value of the prefix is not higher.
pub proof fn lemma_prefix_value(digits: Seq<u8>, radix: nat, k: int)
    requires
        0 <= k <= digits.len(),
        radix >= 1,
    ensures
        digits_value(digits, radix) is Some ==> digits_value(digits.take(k), radix) is Some
            && digits_value(digits.take(k), radix)->Some_0 <= digits_value(digits, radix)->Some_0,
    decreases digits.len(),
{
    if k == digits.len() {
        assert(digits.take(k) =~= digits);
    } else {
        assert(digits.drop_last().take(k) =~= digits.take(k));
        lemma_prefix_value(digits.drop_last(), radix, k);
        if digits_value(digits, radix) is Some {
            let high = digits_value(digits.drop_last(), radix)->Some_0;
            assert(high * radix >= high) by (nonlinear_arith)
                requires
                    radix >= 1,
                    high >= 0,
            ;
        }
    }
}

/// The value of the digit `b` in base `radix`.
pub fn digit_of(b: u8, radix: u64) -> (r: Option<u64>)
    requires
        radix <= 36,
    ensures
        match digit_value(b, radix as nat) {
            Some(v) => r == Some(v as u64),
            None => r is None,
        },
        r is Some ==> r->Some_0 < radix,
{
    let v: u64 = if 0x30 <= b && b <= 0x39 {
        (b - 0x30) as u64
    } else if 0x61 <= b && b <= 0x7A {
        (b - 0x61) as u64 + 10
    } else if 0x41 <= b && b <= 0x5A {
        (b - 0x41) as u64 + 10
    } else {
        36
    };
    if v < radix {
        Some(v)
    } else {
        None
    }
}

/// Reads `text` as an unsigned number in base `radix` of at most `max`.
pub fn parse_unsigned(text: &[u8], radix: u64, max: u64) -> (r: Option<u64>)
    requires
        2 <= radix <= 36,
    ensures
        match parse_number(text@, radix as nat, max as nat) {
            Some(v) => r == Some(v as u64),
            None => r is None,
        },
{
    let first: usize = if text.len() > 0 && text[0] == 0x2B {
        1
    } else {
        0
    };
    if first == text.len() {
        return None;
    }
    let ghost digits = unsigned_digits(text@);
    let mut value: u64 = 0;
    let mut i: usize = first;
    while i < text.len()
        invariant
            first <= i <= text.len(),
            2 <= radix <= 36,
            digits == unsigned_digits(text@),
            digits.len() == text@.len() - first,
            forall|j: int| 0 <= j < digits.len() ==> digits[j] == text@[j + first],
            digits_value(digits.take(i - first), radix as nat) == Some(value as nat),
            value <= max,
        decreases text.len() - i,
    {
        let ghost upto = digits.take(i - first + 1);
        proof {
            assert(upto.drop_last() =~= digits.take(i - first));
            assert(upto.last() == text@[i as int]);
            lemma_prefix_value(digits, radix as nat, i - first + 1);
            assert(digits_value(upto, radix as nat) == match (
                digits_value(upto.drop_last(), radix as nat),
                digit_value(upto.last(), radix as nat),
            ) {
                (Some(high), Some(low)) => Some(high * radix as nat + low),
                _ => None,
            });
        }
        let digit = match digit_of(text[i], radix) {
            Some(digit) => digit,
            None => {
                return None;
            },
        };
        assert(value * radix + digit <= 0xFFFF_FFFF_FFFF_FFFF * 36 + 36) by (nonlinear_arith)
            requires
                value <= 0xFFFF_FFFF_FFFF_FFFF,
                radix <= 36,
                digit < 36,
        ;
        let next: u128 = value as u128 * radix as u128 + digit as u128;
        if next > max as u128 {
            return None;
        }
        value = next as u64;
        i = i + 1;
    }
    proof {
        assert(digits.take(i - first) =~= digits);
    }
    Some(value)
}

} // verus!

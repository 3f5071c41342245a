//! UUIDs: drawing fresh ones and writing them out.

use vstd::prelude::*;
use vstd::arithmetic::div_mod::{lemma_mod_breakdown, lemma_small_mod};
use crate::types::DevUuid;

verus! {

/// The lower-case hexadecimal digit for a value below 16.
pub open spec fn hex_digit(n: int) -> char {
    if n == 0 {
        '0'
    } else if n == 1 {
        '1'
    } else if n == 2 {
        '2'
    } else if n == 3 {
        '3'
    } else if n == 4 {
        '4'
    } else if n == 5 {
        '5'
    } else if n == 6 {
        '6'
    } else if n == 7 {
        '7'
    } else if n == 8 {
        '8'
    } else if n == 9 {
        '9'
    } else if n == 10 {
        'a'
    } else if n == 11 {
        'b'
    } else if n == 12 {
        'c'
    } else if n == 13 {
        'd'
    } else if n == 14 {
        'e'
    } else {
        'f'
    }
}

/// 16 to the power `k`.
pub open spec fn pow16(k: nat) -> nat
    decreases k,
{
    if k == 0 {
        1
    } else {
        16 * pow16((k - 1) as nat)
    }
}

/// The `k`-th hexadecimal digit of `uuid`, counted from the least
/// significant one.
pub open spec fn nibble(uuid: DevUuid, k: nat) -> int {
    (uuid as int / pow16(k) as int) % 16
}

/// The simple form of a UUID: its 32 hexadecimal digits in lower case, the
/// most significant first, with no hyphens.
pub open spec fn simple_form(uuid: DevUuid) -> Seq<char> {
    Seq::new(32, |i: int| hex_digit(nibble(uuid, (31 - i) as nat)))
}

/// Draws a random version-4 UUID with `uuid::Uuid::new_v4` and returns its
/// value. Nothing is claimed of the value: it is random.
#[verifier::external_body]
pub(crate) fn fresh_uuid() -> (r: DevUuid) {
    uuid::Uuid::new_v4().as_u128()
}

/// Writes a UUID in its simple form, with `uuid::Uuid::simple` and the
/// `Display` impl of `uuid::fmt::Simple`: 32 lower-case hexadecimal digits,
/// the most significant first.
#[verifier::external_body]
pub(crate) fn simple_string(uuid: DevUuid) -> (r: String)
    ensures
        r@ == simple_form(uuid),
{
    uuid::Uuid::from_u128(uuid).simple().to_string()
}

/// The number that the `k` least significant hexadecimal digits of `uuid`
/// write.
pub open spec fn low_digits(uuid: DevUuid, k: nat) -> int {
    uuid as int % pow16(k) as int
}

proof fn lemma_pow16_positive(k: nat)
    ensures
        pow16(k) > 0,
    decreases k,
{
    if k > 0 {
        lemma_pow16_positive((k - 1) as nat);
    }
}

proof fn lemma_low_digits_step(uuid: DevUuid, k: nat)
    ensures
        low_digits(uuid, k + 1) == low_digits(uuid, k) + pow16(k) * nibble(uuid, k),
{
    lemma_pow16_positive(k);
    lemma_mod_breakdown(uuid as int, pow16(k) as int, 16);
    assert(pow16(k + 1) == pow16(k) * 16) by {
        assert(pow16(k + 1) == 16 * pow16(k));
    }
}

proof fn lemma_low_digits_same(a: DevUuid, b: DevUuid, k: nat)
    requires
        forall|j: nat| j < k ==> nibble(a, j) == nibble(b, j),
    ensures
        low_digits(a, k) == low_digits(b, k),
    decreases k,
{
    if k > 0 {
        lemma_low_digits_same(a, b, (k - 1) as nat);
        lemma_low_digits_step(a, (k - 1) as nat);
        lemma_low_digits_step(b, (k - 1) as nat);
    }
}

proof fn lemma_pow16_of_32()
    ensures
        pow16(32) == 0x1_0000_0000_0000_0000_0000_0000_0000_0000,
{
    assert(pow16(4) == 0x1_0000) by {
        reveal_with_fuel(pow16, 5);
    }
    assert(pow16(8) == 0x1_0000_0000) by {
        reveal_with_fuel(pow16, 5);
    }
    assert(pow16(12) == 0x1_0000_0000_0000) by {
        reveal_with_fuel(pow16, 5);
    }
    assert(pow16(16) == 0x1_0000_0000_0000_0000) by {
        reveal_with_fuel(pow16, 5);
    }
    assert(pow16(20) == 0x1_0000_0000_0000_0000_0000) by {
        reveal_with_fuel(pow16, 5);
    }
    assert(pow16(24) == 0x1_0000_0000_0000_0000_0000_0000) by {
        reveal_with_fuel(pow16, 5);
    }
    assert(pow16(28) == 0x1_0000_0000_0000_0000_0000_0000_0000) by {
        reveal_with_fuel(pow16, 5);
    }
    assert(pow16(32) == 0x1_0000_0000_0000_0000_0000_0000_0000_0000) by {
        reveal_with_fuel(pow16, 5);
    }
}

/// Two UUIDs with the same simple form are the same UUID: under their
/// simple forms, different UUIDs never meet.
pub proof fn lemma_simple_form_injective(a: DevUuid, b: DevUuid)
    requires
        simple_form(a) == simple_form(b),
    ensures
        a == b,
{
    assert forall|j: nat| j < 32 implies nibble(a, j) == nibble(b, j) by {
        lemma_pow16_positive(j);
        let i: int = 31 - j;
        assert(simple_form(a)[i] == hex_digit(nibble(a, (31 - i) as nat)));
        assert(simple_form(b)[i] == hex_digit(nibble(b, (31 - i) as nat)));
        assert(0 <= nibble(a, j) < 16);
        assert(0 <= nibble(b, j) < 16);
    }
    lemma_low_digits_same(a, b, 32);
    lemma_pow16_of_32();
    lemma_small_mod(a as nat, pow16(32));
    lemma_small_mod(b as nat, pow16(32));
}

} // verus!

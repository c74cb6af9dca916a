//! Record identity codec: a key is a 64-bit unsigned integer, written as
//! decimal ASCII in filename contexts and as eight little-endian bytes in
//! fixed-width binary contexts. Both encodings round-trip losslessly, so two
//! keys are equal exactly when their encodings are equal.

use vstd::prelude::*;

verus! {

/// The decimal-ASCII encoding of `n`: most significant digit first, no
/// leading zeros, `"0"` for zero.
pub open spec fn spec_decimal(n: nat) -> Seq<u8>
    decreases n,
{
    if n < 10 {
        seq![(48 + n) as u8]
    } else {
        spec_decimal(n / 10).push((48 + n % 10) as u8)
    }
}

/// Whether `b` is an ASCII decimal digit.
pub open spec fn is_digit(b: u8) -> bool {
    48 <= b <= 57
}

/// The value of a sequence of ASCII digits, most significant first.
pub open spec fn spec_digits_value(s: Seq<u8>) -> nat
    decreases s.len(),
{
    if s.len() == 0 {
        0
    } else {
        (spec_digits_value(s.drop_last()) * 10 + (s.last() - 48)) as nat
    }
}

/// A canonical decimal key name: non-empty, all digits, no leading zero
/// (except the single digit `"0"`), and a value that fits in a `u64`.
pub open spec fn is_canonical_decimal(s: Seq<u8>) -> bool {
    &&& s.len() > 0
    &&& forall|i: int| 0 <= i < s.len() ==> is_digit(s[i])
    &&& (s.len() > 1 ==> s[0] != 48)
    &&& spec_digits_value(s) <= u64::MAX
}

/// What parsing a filename back into a key yields: the key whose canonical
/// decimal form the name is, or nothing.
pub open spec fn spec_parse_decimal(s: Seq<u8>) -> Option<u64> {
    if is_canonical_decimal(s) {
        Some(spec_digits_value(s) as u64)
    } else {
        None
    }
}

/// Writes the decimal digits of `n` onto the end of `out`.
pub fn push_decimal(n: u64, out: &mut Vec<u8>)
    ensures
        final(out)@ == old(out)@ + spec_decimal(n as nat),
    decreases n,
{
    if n < 10 {
        out.push((48 + n) as u8);
    } else {
        push_decimal(n / 10, out);
        out.push((48 + n % 10) as u8);
    }
}

/// The decimal-ASCII filename of `key`.
pub fn encode_decimal(key: u64) -> (r: Vec<u8>)
    ensures
        r@ == spec_decimal(key as nat),
{
    let mut out: Vec<u8> = Vec::new();
    push_decimal(key, &mut out);
    out
}

/// Parses a filename back into a key. Returns `None` for anything that is not
/// the canonical decimal form of a `u64`: empty, a non-digit byte, a leading
/// zero, or a value past `u64::MAX`.
pub fn parse_decimal(name: &Vec<u8>) -> (r: Option<u64>)
    ensures
        r == spec_parse_decimal(name@),
{
    if name.len() == 0 {
        return None;
    }
    if name.len() > 1 && name[0] == 48 {
        return None;
    }
    let mut acc: u64 = 0;
    let mut i: usize = 0;
    while i < name.len()
        invariant
            0 <= i <= name@.len(),
            name@.len() > 0,
            name@.len() > 1 ==> name@[0] != 48,
            forall|j: int| 0 <= j < i ==> is_digit(name@[j]),
            acc == spec_digits_value(name@.take(i as int)),
        decreases name@.len() - i,
    {
        let b = name[i];
        if b < 48 || b > 57 {
            assert(!is_digit(name@[i as int]));
            return None;
        }
        let d = (b - 48) as u64;
        if acc > (u64::MAX - d) / 10 {
            proof {
                lemma_digits_value_widen(name@, i as int);
                assert(acc * 10 + d > u64::MAX);
                assert(spec_digits_value(name@.take(i as int + 1)) > u64::MAX);
                if forall|j: int| 0 <= j < name@.len() ==> is_digit(name@[j]) {
                    lemma_digits_value_monotone(name@, i as int + 1);
                    assert(spec_digits_value(name@) > u64::MAX);
                }
            }
            return None;
        }
        proof {
            lemma_digits_value_widen(name@, i as int);
            assert(acc * 10 + d <= u64::MAX);
        }
        acc = acc * 10 + d;
        i = i + 1;
    }
    proof {
        assert(name@.take(name@.len() as int) =~= name@);
    }
    Some(acc)
}

/// Unfolds `spec_digits_value` one step when the last byte is a digit.
proof fn lemma_digits_value_step(s: Seq<u8>)
    requires
        s.len() > 0,
        is_digit(s.last()),
    ensures
        spec_digits_value(s) == spec_digits_value(s.drop_last()) * 10 + (s.last() - 48),
{
    assert(spec_digits_value(s.drop_last()) * 10 + (s.last() - 48) >= 0);
}

/// Extending a digit prefix by one digit multiplies its value by ten and adds
/// the new digit.
proof fn lemma_digits_value_widen(s: Seq<u8>, i: int)
    requires
        0 <= i < s.len(),
        is_digit(s[i]),
    ensures
        spec_digits_value(s.take(i + 1)) == spec_digits_value(s.take(i)) * 10 + (s[i] - 48),
{
    assert(s.take(i + 1).drop_last() =~= s.take(i));
    assert(s.take(i + 1).last() == s[i]);
    lemma_digits_value_step(s.take(i + 1));
}

/// A digit string's value is at least the value of any of its prefixes.
proof fn lemma_digits_value_monotone(s: Seq<u8>, i: int)
    requires
        0 <= i <= s.len(),
        forall|j: int| 0 <= j < s.len() ==> is_digit(s[j]),
    ensures
        spec_digits_value(s) >= spec_digits_value(s.take(i)),
    decreases s.len() - i,
{
    if i == s.len() {
        assert(s.take(i) =~= s);
    } else {
        lemma_digits_value_widen(s, i);
        assert(spec_digits_value(s.take(i + 1)) >= spec_digits_value(s.take(i)));
        lemma_digits_value_monotone(s, i + 1);
    }
}

/// The decimal encoding is canonical: digits only, no leading zero, and its
/// value is the encoded key.
pub proof fn lemma_decimal_canonical(n: nat)
    requires
        n <= u64::MAX,
    ensures
        is_canonical_decimal(spec_decimal(n)),
        spec_digits_value(spec_decimal(n)) == n,
        spec_decimal(n).len() >= 1,
        n > 0 ==> spec_decimal(n)[0] != 48,
    decreases n,
{
    if n < 10 {
        let s = spec_decimal(n);
        assert(s =~= seq![(48 + n) as u8]);
        assert(s.last() == (48 + n) as u8);
        assert(s[0] == (48 + n) as u8);
        assert(is_digit(s.last()));
        lemma_digits_value_step(s);
        assert(s.drop_last() =~= Seq::<u8>::empty());
        assert(spec_digits_value(Seq::<u8>::empty()) == 0);
        assert(spec_digits_value(s) == n);
    } else {
        lemma_decimal_canonical(n / 10);
        let p = spec_decimal(n / 10);
        let s = spec_decimal(n);
        assert(s == p.push((48 + n % 10) as u8));
        assert(s.drop_last() =~= p);
        assert(s.last() == (48 + n % 10) as u8);
        assert(is_digit(s.last()));
        lemma_digits_value_step(s);
        assert(spec_digits_value(s) == spec_digits_value(p) * 10 + n % 10);
        assert(spec_digits_value(s) == (n / 10) * 10 + n % 10);
        assert((n / 10) * 10 + n % 10 == n) by (nonlinear_arith);
        assert(s[0] == p[0]);
        assert(forall|i: int| 0 <= i < s.len() ==> is_digit(s[i])) by {
            assert(forall|i: int| 0 <= i < p.len() ==> is_digit(#[trigger] s[i]));
            assert(is_digit(s[s.len() - 1]));
        }
    }
}

/// Round trip: parsing the decimal filename of a key yields the key back.
pub proof fn lemma_decimal_round_trip(key: u64)
    ensures
        spec_parse_decimal(spec_decimal(key as nat)) == Some(key),
{
    lemma_decimal_canonical(key as nat);
}

/// Two keys are equal exactly when their decimal filenames are equal.
pub proof fn lemma_decimal_injective(a: u64, b: u64)
    ensures
        spec_decimal(a as nat) == spec_decimal(b as nat) <==> a == b,
{
    if spec_decimal(a as nat) == spec_decimal(b as nat) {
        lemma_decimal_round_trip(a);
        lemma_decimal_round_trip(b);
    }
}

/// The eight little-endian bytes of `key`, the fixed-width binary form used
/// for storage addressing.
pub fn key_to_le_bytes(key: u64) -> (r: Vec<u8>)
    ensures
        r@ == vstd::bytes::spec_u64_to_le_bytes(key),
        r@.len() == 8,
{
    proof {
        vstd::bytes::lemma_auto_spec_u64_to_from_le_bytes();
    }
    vstd::bytes::u64_to_le_bytes(key)
}

/// Reassembles a key from its eight little-endian bytes; `None` unless the
/// input is exactly eight bytes long.
pub fn key_from_le_bytes(bytes: &Vec<u8>) -> (r: Option<u64>)
    ensures
        bytes@.len() == 8 ==> r == Some(vstd::bytes::spec_u64_from_le_bytes(bytes@)),
        bytes@.len() != 8 ==> r is None,
{
    if bytes.len() != 8 {
        return None;
    }
    Some(vstd::bytes::u64_from_le_bytes(bytes.as_slice()))
}

/// Round trip: the binary form of a key reassembles to the key, and two keys
/// are equal exactly when their binary forms are equal.
pub proof fn lemma_le_bytes_round_trip(a: u64, b: u64)
    ensures
        vstd::bytes::spec_u64_from_le_bytes(vstd::bytes::spec_u64_to_le_bytes(a)) == a,
        vstd::bytes::spec_u64_to_le_bytes(a) == vstd::bytes::spec_u64_to_le_bytes(b) <==> a == b,
{
    vstd::bytes::lemma_auto_spec_u64_to_from_le_bytes();
}

} // verus!

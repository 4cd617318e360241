//! Tokens: the base-64 notation of non-negative integers, most significant
//! digit first, without padding.

use vstd::prelude::*;
use vstd::arithmetic::power::pow;
use vstd::arithmetic::power::lemma_pow1;
use vstd::arithmetic::power::lemma_pow_adds;
use crate::alphabet::BASE64_CHARS;
use crate::alphabet::symbol;
use crate::alphabet::is_symbol;
use crate::alphabet::digit_value;
use crate::alphabet::value_of;
use crate::alphabet::lemma_symbol_bijection;

verus! {

/// The token of `n`: its base-64 digits, most significant first. Zero is the
/// single symbol `'0'`; no other token starts with `'0'`.
pub open spec fn encode(n: nat) -> Seq<u8>
    decreases n,
{
    if n < 64 {
        seq![symbol(n as int)]
    } else {
        encode(n / 64).push(symbol((n % 64) as int))
    }
}

/// The number that a sequence of symbols denotes in base 64, most
/// significant digit first.
pub open spec fn decode(s: Seq<u8>) -> nat
    decreases s.len(),
{
    if s.len() == 0 {
        0
    } else {
        decode(s.drop_last()) * 64 + digit_value(s.last()) as nat
    }
}

/// Whether `s` is a token: at least one symbol, nothing but symbols, and no
/// leading `'0'` unless it is the only symbol.
pub open spec fn is_token(s: Seq<u8>) -> bool {
    &&& s.len() >= 1
    &&& forall|i: int| 0 <= i < s.len() ==> is_symbol(#[trigger] s[i])
    &&& s.len() > 1 ==> s[0] != 48
}

/// Every encoding is a token.
pub proof fn lemma_encode_is_token(n: nat)
    ensures
        is_token(encode(n)),
        n >= 1 ==> encode(n)[0] != 48,
    decreases n,
{
    lemma_symbol_bijection();
    if n >= 64 {
        lemma_encode_is_token(n / 64);
        let head = encode(n / 64);
        let all = encode(n);
        assert(all[0] == head[0]);
        assert forall|i: int| 0 <= i < all.len() implies is_symbol(#[trigger] all[i]) by {
            if i < head.len() {
                assert(all[i] == head[i]);
            }
        }
    }
}

/// Round trip: decoding the token of `n` gives `n` back.
pub proof fn lemma_decode_encode(n: nat)
    ensures
        decode(encode(n)) == n,
    decreases n,
{
    lemma_symbol_bijection();
    if n < 64 {
        let s = encode(n);
        assert(s.drop_last() =~= Seq::<u8>::empty());
        assert(decode(s.drop_last()) == 0);
    } else {
        lemma_decode_encode(n / 64);
        let head = encode(n / 64);
        assert(encode(n).drop_last() =~= head);
    }
}

/// A sequence of symbols that does not start with `'0'` denotes a number
/// that is not zero.
proof fn lemma_decode_positive(s: Seq<u8>)
    requires
        s.len() >= 1,
        forall|i: int| 0 <= i < s.len() ==> is_symbol(#[trigger] s[i]),
        s[0] != 48,
    ensures
        decode(s) >= 1,
    decreases s.len(),
{
    lemma_symbol_bijection();
    if s.len() == 1 {
        assert(s.drop_last() =~= Seq::<u8>::empty());
        assert(decode(s.drop_last()) == 0);
        assert(is_symbol(s[0]));
    } else {
        let head = s.drop_last();
        assert(head[0] == s[0]);
        lemma_decode_positive(head);
    }
}

/// Round trip the other way: a token is the encoding of the number it
/// denotes.
pub proof fn lemma_encode_decode(s: Seq<u8>)
    requires
        is_token(s),
    ensures
        encode(decode(s)) == s,
    decreases s.len(),
{
    lemma_symbol_bijection();
    let head = s.drop_last();
    let v = digit_value(s.last());
    assert(is_symbol(s.last()));
    if s.len() == 1 {
        assert(head =~= Seq::<u8>::empty());
        assert(decode(head) == 0);
        assert(encode(decode(s)) =~= s);
    } else {
        assert(head[0] == s[0]);
        lemma_decode_positive(head);
        lemma_encode_decode(head);
        assert(decode(s) == decode(head) * 64 + v);
        assert(decode(s) / 64 == decode(head));
        assert(decode(s) % 64 == v);
        assert(encode(decode(s)) =~= s);
    }
}

/// Encoding is injective: two numbers with the same token are equal.
pub proof fn lemma_encode_injective(a: nat, b: nat)
    requires
        encode(a) == encode(b),
    ensures
        a == b,
{
    lemma_decode_encode(a);
    lemma_decode_encode(b);
}

/// A longer sequence of symbols denotes no less than any of its prefixes.
proof fn lemma_decode_prefix(s: Seq<u8>, k: int)
    requires
        0 <= k <= s.len(),
    ensures
        decode(s.take(k)) <= decode(s),
    decreases s.len() - k,
{
    if k == s.len() {
        assert(s.take(k) =~= s);
    } else {
        lemma_decode_prefix(s, k + 1);
        assert(s.take(k + 1).drop_last() =~= s.take(k));
    }
}

/// The numbers with exactly `d` digits are those from `64^(d-1)` up to, not
/// including, `64^d`; for one digit they start at zero.
pub proof fn lemma_encode_len(n: nat, d: nat)
    requires
        d >= 1,
        n < pow(64, d),
        d > 1 ==> pow(64, (d - 1) as nat) <= n,
    ensures
        encode(n).len() == d,
    decreases d,
{
    lemma_pow1(64);
    if d == 1 {
    } else {
        let e = (d - 1) as nat;
        lemma_pow_adds(64, e, 1);
        assert(pow(64, d) == pow(64, e) * 64);
        if e == 1 {
        } else {
            lemma_pow_adds(64, (e - 1) as nat, 1);
            assert(pow(64, e) == pow(64, (e - 1) as nat) * 64);
        }
        assert(n >= 64);
        lemma_encode_len(n / 64, e);
    }
}

/// The token of `n`.
pub fn to_base64_string(n: i64) -> (token: Vec<u8>)
    requires
        0 <= n,
    ensures
        token@ == encode(n as nat),
{
    // Digits come out least significant first.
    let mut digits: Vec<u8> = Vec::new();
    let mut rest: i64 = n;
    loop
        invariant_except_break
            0 <= rest,
            encode(n as nat) == encode(rest as nat) + digits@.reverse(),
        ensures
            encode(n as nat) == digits@.reverse(),
        decreases rest,
    {
        let remainder: usize = (rest % 64) as usize;
        let ghost before = rest;
        let ghost collected = digits@;
        rest = rest / 64;
        digits.push(BASE64_CHARS[remainder]);
        proof {
            let c = symbol(remainder as int);
            assert(digits@.reverse() =~= seq![c] + collected.reverse());
            if before < 64 {
                assert(encode(before as nat) + collected.reverse() =~= digits@.reverse());
            } else {
                assert(encode(before as nat) + collected.reverse() =~= encode(rest as nat)
                    + digits@.reverse());
            }
        }
        if rest == 0 {
            break;
        }
    }
    let mut token: Vec<u8> = Vec::with_capacity(digits.len());
    let mut i: usize = digits.len();
    while i > 0
        invariant
            i <= digits.len(),
            token@ == digits@.reverse().take(digits.len() - i),
        decreases i,
    {
        i = i - 1;
        token.push(digits[i]);
        assert(token@ =~= digits@.reverse().take(digits.len() - i));
    }
    assert(token@ =~= digits@.reverse());
    token
}

/// The number whose token `token` is, if it is the token of a number that
/// fits in `i64`.
pub fn from_base64_string(token: &[u8]) -> (r: Option<i64>)
    ensures
        match r {
            Some(n) => 0 <= n && encode(n as nat) == token@,
            None => forall|n: nat| n <= i64::MAX ==> encode(n) != token@,
        },
{
    let len: usize = token.len();
    if len == 0 || (len > 1 && token[0] == 48) {
        proof {
            assert forall|n: nat| n <= i64::MAX implies encode(n) != token@ by {
                lemma_encode_is_token(n);
            }
        }
        return None;
    }
    let mut value: i64 = 0;
    let mut i: usize = 0;
    while i < len
        invariant
            len == token@.len(),
            0 <= i <= len,
            0 <= value,
            value == decode(token@.take(i as int)),
            forall|j: int| 0 <= j < i ==> is_symbol(#[trigger] token@[j]),
        decreases len - i,
    {
        let ghost prefix = token@.take(i as int + 1);
        proof {
            assert(prefix.drop_last() =~= token@.take(i as int));
            assert(prefix.last() == token@[i as int]);
        }
        match value_of(token[i]) {
            None => {
                proof {
                    assert forall|n: nat| n <= i64::MAX implies encode(n) != token@ by {
                        lemma_encode_is_token(n);
                    }
                }
                return None;
            },
            Some(v) => {
                let digit: i64 = v as i64;
                if value > (i64::MAX - digit) / 64 {
                    proof {
                        lemma_decode_prefix(token@, i as int + 1);
                        assert forall|n: nat| n <= i64::MAX implies encode(n) != token@ by {
                            lemma_decode_encode(n);
                        }
                    }
                    return None;
                }
                value = value * 64 + digit;
            },
        }
        i = i + 1;
    }
    proof {
        assert(token@.take(len as int) =~= token@);
        lemma_encode_decode(token@);
    }
    Some(value)
}

} // verus!

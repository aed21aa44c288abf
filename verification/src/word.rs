//! Arithmetic on 32-byte words read as big-endian unsigned integers.
//!
//! The host store addresses its slots by 32-byte keys. A record occupies the
//! slot at the hash of its key and the slots that follow it, so keys are
//! treated as 256-bit integers that can be incremented. The increment wraps
//! around at `2^256`.
use vstd::arithmetic::div_mod::{
    lemma_breakdown, lemma_div_denominator, lemma_fundamental_div_mod, lemma_mod_equivalence,
    lemma_small_mod,
};
use vstd::prelude::*;

verus! {

/// `256^n`.
pub open spec fn pow256(n: nat) -> nat
    decreases n,
{
    if n == 0 {
        1
    } else {
        256 * pow256((n - 1) as nat)
    }
}

/// The number that the bytes `s` spell, most significant byte first.
pub open spec fn be_value(s: Seq<u8>) -> nat
    decreases s.len(),
{
    if s.len() == 0 {
        0
    } else {
        be_value(s.drop_last()) * 256 + s.last() as nat
    }
}

/// The `width` least significant base-256 digits of `value`, most significant
/// first. This is the big-endian form of `value` modulo `256^width`.
pub open spec fn be_bytes(value: nat, width: nat) -> Seq<u8>
    decreases width,
{
    if width == 0 {
        Seq::empty()
    } else {
        be_bytes(value / 256, (width - 1) as nat).push((value % 256) as u8)
    }
}

/// The word that lies `offset` slots after `word`, wrapping around at `2^256`.
pub open spec fn word_add(word: Seq<u8>, offset: nat) -> Seq<u8> {
    be_bytes(be_value(word) + offset, 32)
}

/// The all-zero word, which is what an unwritten slot holds.
pub open spec fn zero_word() -> Seq<u8> {
    Seq::new(32, |i: int| 0u8)
}

/// Every power of 256 is positive.
pub proof fn lemma_pow256_positive(n: nat)
    ensures
        pow256(n) > 0,
    decreases n,
{
    if n > 0 {
        lemma_pow256_positive((n - 1) as nat);
    }
}

/// `256^8` is `2^64`, so `256^32` exceeds every `usize`.
pub proof fn lemma_pow256_32_large()
    ensures
        pow256(8) == 0x1_0000_0000_0000_0000,
        pow256(32) >= 0x1_0000_0000_0000_0000,
        pow256(32) == pow256(8) * pow256(24),
{
    reveal_with_fuel(pow256, 9);
    assert(pow256(8) == 0x1_0000_0000_0000_0000);
    lemma_pow256_mul(8, 24);
    lemma_pow256_positive(24);
    assert(pow256(8) * pow256(24) >= pow256(8)) by (nonlinear_arith)
        requires
            pow256(24) >= 1,
    ;
}

/// The power of a sum is the product of the powers.
pub proof fn lemma_pow256_mul(a: nat, b: nat)
    ensures
        pow256(a + b) == pow256(a) * pow256(b),
    decreases a,
{
    if a == 0 {
        assert(pow256(0) == 1);
    } else {
        lemma_pow256_mul((a - 1) as nat, b);
        assert(pow256(a + b) == 256 * pow256((a - 1 + b) as nat));
        assert(256 * (pow256((a - 1) as nat) * pow256(b)) == (256 * pow256((a - 1) as nat))
            * pow256(b)) by (nonlinear_arith);
    }
}

/// The first few powers of 256.
pub proof fn lemma_pow256_small()
    ensures
        pow256(0) == 1,
        pow256(1) == 0x100,
        pow256(2) == 0x1_0000,
        pow256(4) == 0x1_0000_0000,
        pow256(8) == 0x1_0000_0000_0000_0000,
{
    reveal_with_fuel(pow256, 9);
}

/// A larger exponent gives a power that is no smaller.
pub proof fn lemma_pow256_monotonic(a: nat, b: nat)
    requires
        a <= b,
    ensures
        pow256(a) <= pow256(b),
{
    lemma_pow256_mul(a, (b - a) as nat);
    lemma_pow256_positive((b - a) as nat);
    lemma_pow256_positive(a);
    assert(pow256(a) * pow256((b - a) as nat) >= pow256(a)) by (nonlinear_arith)
        requires
            pow256((b - a) as nat) >= 1,
            pow256(a) >= 1,
    ;
}

/// The digits of a number at a width are as many as the width.
pub proof fn lemma_be_bytes_len(value: nat, width: nat)
    ensures
        be_bytes(value, width).len() == width,
    decreases width,
{
    if width > 0 {
        lemma_be_bytes_len(value / 256, (width - 1) as nat);
    }
}

/// The number that `s` spells is below `256` to the length of `s`.
pub proof fn lemma_be_value_bound(s: Seq<u8>)
    ensures
        be_value(s) < pow256(s.len()),
    decreases s.len(),
{
    if s.len() > 0 {
        lemma_be_value_bound(s.drop_last());
    }
}

/// Reading back the digits of `value` gives `value` modulo `256^width`.
pub proof fn lemma_be_value_of_be_bytes(value: nat, width: nat)
    ensures
        be_value(be_bytes(value, width)) == value % pow256(width),
    decreases width,
{
    lemma_pow256_positive(width);
    if width == 0 {
        assert(value % 1 == 0);
    } else {
        let w1 = (width - 1) as nat;
        let s = be_bytes(value, width);
        lemma_be_bytes_len(value / 256, w1);
        lemma_be_value_of_be_bytes(value / 256, w1);
        lemma_pow256_positive(w1);
        assert(s.drop_last() =~= be_bytes(value / 256, w1));
        assert(s.last() == (value % 256) as u8);
        lemma_breakdown(value as int, 256, pow256(w1) as int);
        assert(be_value(s) == ((value / 256) % pow256(w1)) * 256 + value % 256);
    }
}

/// Spelling out the number that `s` spells gives `s` back.
pub proof fn lemma_be_bytes_of_be_value(s: Seq<u8>)
    ensures
        be_bytes(be_value(s), s.len()) == s,
    decreases s.len(),
{
    if s.len() == 0 {
        assert(be_bytes(be_value(s), 0) =~= s);
    } else {
        let v = be_value(s);
        let p = be_value(s.drop_last());
        lemma_be_bytes_of_be_value(s.drop_last());
        assert(v == p * 256 + s.last() as nat);
        assert(v / 256 == p && v % 256 == s.last() as nat) by (nonlinear_arith)
            requires
                v == p * 256 + s.last() as nat,
                0 <= s.last() as nat,
                (s.last() as nat) < 256,
        ;
        assert(be_bytes(v, s.len()) =~= s);
    }
}

/// The digits of `value` depend only on `value` modulo `256^width`.
pub proof fn lemma_be_bytes_mod(value: nat, width: nat)
    ensures
        be_bytes(value, width) == be_bytes(value % pow256(width), width),
{
    lemma_pow256_positive(width);
    let r = value % pow256(width);
    lemma_be_bytes_len(value, width);
    lemma_be_value_of_be_bytes(value, width);
    lemma_be_bytes_of_be_value(be_bytes(value, width));
}

/// Two numbers have the same digits exactly when they agree modulo `256^width`.
pub proof fn lemma_be_bytes_injective(a: nat, b: nat, width: nat)
    ensures
        be_bytes(a, width) == be_bytes(b, width) <==> a % pow256(width) == b % pow256(width),
{
    lemma_be_value_of_be_bytes(a, width);
    lemma_be_value_of_be_bytes(b, width);
    lemma_be_bytes_mod(a, width);
    lemma_be_bytes_mod(b, width);
}

/// Words at different offsets from one base differ, as long as the offsets are
/// less than `2^256` apart.
pub proof fn lemma_word_add_distinct(word: Seq<u8>, i: nat, j: nat)
    requires
        i < j,
        j - i < pow256(32),
    ensures
        word_add(word, i) != word_add(word, j),
{
    let m = pow256(32) as int;
    let a = (be_value(word) + i) as int;
    let b = (be_value(word) + j) as int;
    lemma_be_bytes_injective(a as nat, b as nat, 32);
    if a % m == b % m {
        lemma_mod_equivalence(b, a, m);
        lemma_small_mod((j - i) as nat, m as nat);
        assert(false);
    }
}

/// Offsets add up: stepping `i` slots and then `j` more is stepping `i + j`.
pub proof fn lemma_word_add_add(word: Seq<u8>, i: nat, j: nat)
    ensures
        word_add(word_add(word, i), j) == word_add(word, i + j),
        word_add(word, i).len() == 32,
{
    let m = pow256(32);
    lemma_pow256_positive(32);
    let base = be_value(word) + i;
    lemma_be_bytes_len(base, 32);
    lemma_be_value_of_be_bytes(base, 32);
    lemma_be_bytes_injective(base % m + j, base + j, 32);
    lemma_mod_equivalence((base + j) as int, (base % m + j) as int, m as int);
    lemma_fundamental_div_mod(base as int, m as int);
    assert((base + j) - (base % m + j) == m * (base / m));
    assert((m * (base / m)) as int % (m as int) == 0) by (nonlinear_arith)
        requires
            m > 0,
    ;
}

/// A word with offset zero is itself.
pub proof fn lemma_word_add_zero(word: Seq<u8>)
    requires
        word.len() == 32,
    ensures
        word_add(word, 0) == word,
{
    lemma_be_bytes_of_be_value(word);
}

/// The number spelt by two byte strings laid end to end.
pub proof fn lemma_be_value_concat(a: Seq<u8>, b: Seq<u8>)
    ensures
        be_value(a + b) == be_value(a) * pow256(b.len()) + be_value(b),
    decreases b.len(),
{
    if b.len() == 0 {
        assert(a + b =~= a);
        assert(be_value(a) * 1 == be_value(a));
    } else {
        let b1 = b.drop_last();
        lemma_be_value_concat(a, b1);
        assert((a + b).drop_last() =~= a + b1);
        assert((a + b).last() == b.last());
        assert((be_value(a) * pow256(b1.len()) + be_value(b1)) * 256 == be_value(a) * (256
            * pow256(b1.len())) + be_value(b1) * 256) by (nonlinear_arith);
    }
}

/// The word that follows `word`: its value plus one, wrapping around.
pub fn word_succ(word: &[u8; 32]) -> (next: [u8; 32])
    ensures
        next@ == word_add(word@, 1),
{
    let mut out: [u8; 32] = *word;
    let mut i: usize = 32;
    let mut carry: bool = true;
    proof {
        assert(out@.subrange(32, 32) =~= Seq::<u8>::empty());
        assert(word@.subrange(32, 32) =~= Seq::<u8>::empty());
        assert(pow256(0) == 1);
    }
    while i > 0 && carry
        invariant
            i <= 32,
            out@.len() == 32,
            out@.subrange(0, i as int) == word@.subrange(0, i as int),
            be_value(out@.subrange(i as int, 32)) + (if carry {
                pow256((32 - i) as nat)
            } else {
                0
            }) == be_value(word@.subrange(i as int, 32)) + 1,
        decreases i,
    {
        let ghost old_out = out@;
        let ghost old_i = i;
        i = i - 1;
        let b: u8 = out[i];
        proof {
            assert(old_out[i as int] == word@[i as int]) by {
                assert(old_out.subrange(0, old_i as int)[i as int] == word@.subrange(
                    0,
                    old_i as int,
                )[i as int]);
            }
        }
        if b == 255 {
            out[i] = 0;
        } else {
            out[i] = b + 1;
            carry = false;
        }
        proof {
            let k = (32 - old_i) as nat;
            let tail_old = old_out.subrange(old_i as int, 32);
            let tail_new = out@.subrange(i as int, 32);
            let wtail_old = word@.subrange(old_i as int, 32);
            let wtail_new = word@.subrange(i as int, 32);
            assert(out@.subrange(0, i as int) =~= word@.subrange(0, i as int)) by {
                assert forall|j: int| 0 <= j < i implies out@[j] == word@[j] by {
                    assert(old_out.subrange(0, old_i as int)[j] == word@.subrange(
                        0,
                        old_i as int,
                    )[j]);
                }
            }
            assert(tail_new =~= seq![out@[i as int]] + tail_old);
            assert(wtail_new =~= seq![word@[i as int]] + wtail_old);
            lemma_be_value_concat(seq![out@[i as int]], tail_old);
            lemma_be_value_concat(seq![word@[i as int]], wtail_old);
            assert(be_value(seq![out@[i as int]]) == out@[i as int] as nat) by {
                reveal_with_fuel(be_value, 2);
                assert(seq![out@[i as int]].drop_last() =~= Seq::<u8>::empty());
            }
            assert(be_value(seq![word@[i as int]]) == word@[i as int] as nat) by {
                reveal_with_fuel(be_value, 2);
                assert(seq![word@[i as int]].drop_last() =~= Seq::<u8>::empty());
            }
            assert(pow256(k + 1) == 256 * pow256(k));
            let p = pow256(k);
            let ob = out@[i as int] as nat;
            let wb = word@[i as int] as nat;
            assert(wb == b as nat);
            if b == 255 {
                assert(0 * p + be_value(tail_old) + 256 * p == 255 * p + (be_value(tail_old)
                    + p)) by (nonlinear_arith);
            } else {
                assert((wb + 1) * p + be_value(tail_old) == wb * p + (be_value(tail_old) + p))
                    by (nonlinear_arith);
            }
        }
    }
    proof {
        let hi = word@.subrange(0, i as int);
        let lo_w = word@.subrange(i as int, 32);
        let lo_o = out@.subrange(i as int, 32);
        assert(word@ =~= hi + lo_w);
        assert(out@ =~= hi + lo_o);
        lemma_be_value_concat(hi, lo_w);
        lemma_be_value_concat(hi, lo_o);
        lemma_be_value_bound(out@);
        lemma_be_bytes_of_be_value(out@);
        lemma_pow256_positive(32);
        let m = pow256(32);
        let target = be_value(word@) + 1;
        if carry {
            assert(i == 0);
            assert(hi =~= Seq::<u8>::empty());
            assert(be_value(hi) * m == 0) by (nonlinear_arith)
                requires
                    be_value(hi) == 0,
            ;
            assert(be_value(out@) + m == target);
            lemma_small_mod(be_value(out@), m);
            lemma_mod_equivalence(target as int, be_value(out@) as int, m as int);
            assert((target - be_value(out@)) % (m as int) == 0) by {
                assert(target - be_value(out@) == m);
                assert(m as int % m as int == 0) by (nonlinear_arith)
                    requires
                        m > 0,
                ;
            }
            lemma_be_bytes_mod(target, 32);
        } else {
            assert(be_value(out@) == target);
        }
    }
    out
}

/// The word that spells `len`: the form in which a record's length is stored.
pub fn length_word(len: usize) -> (word: [u8; 32])
    ensures
        word@ == be_bytes(len as nat, 32),
{
    let mut out: [u8; 32] = [0u8; 32];
    let mut rest: usize = len;
    let mut i: usize = 32;
    proof {
        assert(out@.subrange(32, 32) =~= be_bytes(len as nat, 0));
        assert(pow256(0) == 1);
    }
    while i > 0
        invariant
            i <= 32,
            out@.len() == 32,
            out@.subrange(i as int, 32) == be_bytes(len as nat, (32 - i) as nat),
            rest as nat == len as nat / pow256((32 - i) as nat),
        decreases i,
    {
        let ghost old_out = out@;
        let ghost k = (32 - i) as nat;
        i = i - 1;
        out[i] = (rest % 256) as u8;
        proof {
            lemma_be_bytes_digit(len as nat, k);
            assert(out@.subrange(i as int, 32) =~= seq![out@[i as int]] + old_out.subrange(
                i as int + 1,
                32,
            ));
        }
        rest = rest / 256;
    }
    proof {
        assert(out@.subrange(0, 32) =~= out@);
    }
    out
}

/// Growing the width by one puts the next digit in front.
pub proof fn lemma_be_bytes_digit(value: nat, width: nat)
    ensures
        be_bytes(value, width + 1) == seq![((value / pow256(width)) % 256) as u8] + be_bytes(
            value,
            width,
        ),
        (value / pow256(width)) / 256 == value / pow256(width + 1),
    decreases width,
{
    lemma_pow256_positive(width);
    lemma_div_denominator(value as int, pow256(width) as int, 256);
    assert(pow256(width) * 256 == pow256(width + 1)) by {
        assert(pow256(width + 1) == 256 * pow256(width));
    }
    if width == 0 {
        assert(be_bytes(value, 0) =~= Seq::<u8>::empty());
        assert(be_bytes(value / 256, 0) =~= Seq::<u8>::empty());
        assert(value / 1 == value);
        assert(be_bytes(value, 1) =~= seq![(value % 256) as u8] + be_bytes(value, 0));
    } else {
        let w1 = (width - 1) as nat;
        lemma_be_bytes_digit(value / 256, w1);
        lemma_pow256_positive(w1);
        lemma_div_denominator(value as int, 256, pow256(w1) as int);
        assert(256 * pow256(w1) == pow256(width));
        assert((value / 256) / pow256(w1) == value / pow256(width));
        let d = ((value / pow256(width)) % 256) as u8;
        assert(be_bytes(value / 256, width) == seq![d] + be_bytes(value / 256, w1));
        assert(be_bytes(value, width + 1) =~= seq![d] + be_bytes(value, width));
    }
}

/// The length that `word` spells, where it fits in a `usize`.
pub fn word_length(word: &[u8; 32]) -> (len: Option<usize>)
    ensures
        match len {
            Some(n) => n as nat == be_value(word@),
            None => be_value(word@) > usize::MAX,
        },
{
    let mut acc: usize = 0;
    let mut i: usize = 0;
    proof {
        assert(word@.subrange(0, 0) =~= Seq::<u8>::empty());
    }
    while i < 32
        invariant
            i <= 32,
            acc as nat == be_value(word@.subrange(0, i as int)),
        decreases 32 - i,
    {
        let b: u8 = word[i];
        proof {
            let pre = word@.subrange(0, i as int);
            let cur = word@.subrange(0, i as int + 1);
            assert(cur.drop_last() =~= pre);
            assert(cur.last() == b);
            assert(be_value(cur) == be_value(pre) * 256 + b as nat);
            let rest = word@.subrange(i as int + 1, 32);
            assert(word@ =~= cur + rest);
            lemma_be_value_concat(cur, rest);
            lemma_pow256_positive(rest.len());
            assert(be_value(word@) >= be_value(cur)) by (nonlinear_arith)
                requires
                    be_value(word@) == be_value(cur) * pow256(rest.len()) + be_value(rest),
                    pow256(rest.len()) >= 1,
            ;
        }
        if acc > (usize::MAX - b as usize) / 256 {
            proof {
                let m = (usize::MAX - b as usize) / 256;
                assert(acc as nat * 256 + b as nat > usize::MAX) by (nonlinear_arith)
                    requires
                        acc > m,
                        m == (usize::MAX - b as usize) / 256,
                        b as nat <= usize::MAX,
                ;
            }
            return None;
        }
        proof {
            let m = (usize::MAX - b as usize) / 256;
            assert(acc as nat * 256 + b as nat <= usize::MAX) by (nonlinear_arith)
                requires
                    acc <= m,
                    m == (usize::MAX - b as usize) / 256,
                    b as nat <= usize::MAX,
            ;
        }
        acc = acc * 256 + b as usize;
        i = i + 1;
    }
    proof {
        assert(word@.subrange(0, 32) =~= word@);
    }
    Some(acc)
}

/// Whether two words hold the same bytes.
pub fn word_eq(a: &[u8; 32], b: &[u8; 32]) -> (same: bool)
    ensures
        same == (a@ == b@),
{
    let mut i: usize = 0;
    while i < 32
        invariant
            i <= 32,
            a@.subrange(0, i as int) == b@.subrange(0, i as int),
        decreases 32 - i,
    {
        if a[i] != b[i] {
            return false;
        }
        proof {
            assert(a@.subrange(0, i as int + 1) =~= a@.subrange(0, i as int).push(a@[i as int]));
            assert(b@.subrange(0, i as int + 1) =~= b@.subrange(0, i as int).push(b@[i as int]));
        }
        i = i + 1;
    }
    proof {
        assert(a@.subrange(0, 32) =~= a@);
        assert(b@.subrange(0, 32) =~= b@);
    }
    true
}

} // verus!

//! The building blocks of the ledger's binary encoding.
//!
//! Values are written in the deterministic form of CBOR: every item starts
//! with a head that gives a major type and a number, the number in the
//! shortest form that holds it. A reader accepts an item only in the form
//! in which the writer would have written it.
//!
//! Each reader takes a buffer and a position in it. Its contract has two
//! halves. What it returns stands in the buffer at that position, and
//! whatever stands there it returns.
use crate::word::{
    be_bytes, be_value, lemma_be_bytes_digit, lemma_be_bytes_len, lemma_be_bytes_of_be_value,
    lemma_be_value_bound, lemma_be_value_of_be_bytes, lemma_pow256_monotonic,
    lemma_pow256_positive, lemma_pow256_small, pow256,
};
use vstd::arithmetic::div_mod::lemma_small_mod;
use vstd::prelude::*;
use vstd::slice::{slice_subrange, slice_to_vec};
use vstd::utf8::{encode_utf8, encode_utf8_decode_utf8, encode_utf8_valid_utf8, valid_utf8};

verus! {

/// Major type of an unsigned integer.
pub const MAJOR_UINT: u8 = 0;

/// Major type of a text string.
pub const MAJOR_TEXT: u8 = 3;

/// Major type of an array.
pub const MAJOR_ARRAY: u8 = 4;

/// Major type of a map.
pub const MAJOR_MAP: u8 = 5;

/// The byte that stands for "nothing": the unit value and an absent option.
pub const NULL: u8 = 0xf6;

/// Whether `part` stands in `bytes` at position `pos`.
pub open spec fn starts_at(bytes: Seq<u8>, pos: int, part: Seq<u8>) -> bool {
    &&& 0 <= pos
    &&& pos + part.len() <= bytes.len()
    &&& bytes.subrange(pos, pos + part.len()) == part
}

/// Two parts stand one after the other exactly when their concatenation
/// stands where the first one starts.
pub proof fn lemma_starts_at_concat(bytes: Seq<u8>, pos: int, a: Seq<u8>, b: Seq<u8>)
    ensures
        starts_at(bytes, pos, a + b) <==> starts_at(bytes, pos, a) && starts_at(
            bytes,
            pos + a.len(),
            b,
        ),
{
    if starts_at(bytes, pos, a + b) {
        let whole = bytes.subrange(pos, pos + (a + b).len());
        assert(bytes.subrange(pos, pos + a.len()) =~= whole.subrange(0, a.len() as int));
        assert(whole.subrange(0, a.len() as int) =~= a);
        assert(bytes.subrange(pos + a.len(), pos + a.len() + b.len()) =~= whole.subrange(
            a.len() as int,
            (a + b).len() as int,
        ));
        assert(whole.subrange(a.len() as int, (a + b).len() as int) =~= b);
    }
    if starts_at(bytes, pos, a) && starts_at(bytes, pos + a.len(), b) {
        assert(bytes.subrange(pos, pos + (a + b).len()) =~= bytes.subrange(pos, pos + a.len())
            + bytes.subrange(pos + a.len(), pos + a.len() + b.len()));
    }
}

/// A buffer that holds exactly `part` has it standing at its start.
pub proof fn lemma_starts_at_whole(bytes: Seq<u8>, part: Seq<u8>)
    ensures
        bytes == part ==> starts_at(bytes, 0, part),
        starts_at(bytes, 0, part) && part.len() == bytes.len() ==> bytes == part,
{
    assert(bytes.subrange(0, bytes.len() as int) =~= bytes);
}

/// Number of bytes that follow the first byte of a head with number `n`.
pub open spec fn head_width(n: u64) -> nat {
    if n < 24 {
        0
    } else if n < 0x100 {
        1
    } else if n < 0x1_0000 {
        2
    } else if n < 0x1_0000_0000 {
        4
    } else {
        8
    }
}

/// The low five bits of the first byte of a head with number `n`.
pub open spec fn head_info(n: u64) -> u8 {
    if n < 24 {
        n as u8
    } else if n < 0x100 {
        24
    } else if n < 0x1_0000 {
        25
    } else if n < 0x1_0000_0000 {
        26
    } else {
        27
    }
}

/// The head of an item: the major type in the high three bits of the first
/// byte, and the number `n` in the shortest of the five forms that holds it.
pub open spec fn head(major: u8, n: u64) -> Seq<u8> {
    seq![(major * 32 + head_info(n)) as u8] + be_bytes(n as nat, head_width(n))
}

/// An unsigned integer, as it is written.
pub open spec fn uint_item(v: u32) -> Seq<u8> {
    head(MAJOR_UINT, v as u64)
}

/// Whether a text can be written: its length in bytes must fit the head.
pub open spec fn text_fits(s: Seq<char>) -> bool {
    encode_utf8(s).len() <= u64::MAX
}

/// A text string, as it is written: the length of its UTF-8 form, then
/// that form.
pub open spec fn text_item(s: Seq<char>) -> Seq<u8> {
    head(MAJOR_TEXT, encode_utf8(s).len() as u64) + encode_utf8(s)
}

/// A head is its first byte and the digits of its number.
pub proof fn lemma_head_shape(major: u8, n: u64)
    requires
        major < 8,
    ensures
        head(major, n).len() == 1 + head_width(n),
        head(major, n)[0] == major * 32 + head_info(n),
        head(major, n).subrange(1, 1 + head_width(n) as int) == be_bytes(
            n as nat,
            head_width(n),
        ),
        (n as nat) < pow256(head_width(n)) || head_width(n) == 0,
        be_value(be_bytes(n as nat, head_width(n))) == n || head_width(n) == 0,
{
    let w = head_width(n);
    lemma_be_bytes_len(n as nat, w);
    lemma_pow256_small();
    assert(head(major, n).subrange(1, 1 + w as int) =~= be_bytes(n as nat, w));
    if w > 0 {
        lemma_be_value_of_be_bytes(n as nat, w);
        lemma_small_mod(n as nat, pow256(w));
    }
}

/// At most one head stands at a position.
pub proof fn lemma_head_unique(bytes: Seq<u8>, pos: int, m1: u8, n1: u64, m2: u8, n2: u64)
    requires
        m1 < 8,
        m2 < 8,
        starts_at(bytes, pos, head(m1, n1)),
        starts_at(bytes, pos, head(m2, n2)),
    ensures
        m1 == m2,
        n1 == n2,
{
    lemma_head_shape(m1, n1);
    lemma_head_shape(m2, n2);
    let h1 = head(m1, n1);
    let h2 = head(m2, n2);
    assert(bytes.subrange(pos, pos + h1.len())[0] == bytes[pos]);
    assert(bytes.subrange(pos, pos + h2.len())[0] == bytes[pos]);
    assert(head_info(n1) == head_info(n2));
    let w = head_width(n1);
    assert(w == head_width(n2));
    if w > 0 {
        assert(h1.subrange(1, 1 + w as int) =~= bytes.subrange(pos + 1, pos + 1 + w));
        assert(h2.subrange(1, 1 + w as int) =~= bytes.subrange(pos + 1, pos + 1 + w));
    }
}

/// At most one text stands at a position.
pub proof fn lemma_text_unique(bytes: Seq<u8>, pos: int, a: Seq<char>, b: Seq<char>)
    requires
        text_fits(a),
        text_fits(b),
        starts_at(bytes, pos, text_item(a)),
        starts_at(bytes, pos, text_item(b)),
    ensures
        a == b,
{
    let ha = head(MAJOR_TEXT, encode_utf8(a).len() as u64);
    let hb = head(MAJOR_TEXT, encode_utf8(b).len() as u64);
    lemma_starts_at_concat(bytes, pos, ha, encode_utf8(a));
    lemma_starts_at_concat(bytes, pos, hb, encode_utf8(b));
    lemma_head_unique(
        bytes,
        pos,
        MAJOR_TEXT,
        encode_utf8(a).len() as u64,
        MAJOR_TEXT,
        encode_utf8(b).len() as u64,
    );
    assert(encode_utf8(a) == encode_utf8(b));
    encode_utf8_decode_utf8(a);
    encode_utf8_decode_utf8(b);
}

/// A strict prefix of a buffer in which an item stands to its end does not
/// hold that item.
pub proof fn lemma_starts_at_prefix(bytes: Seq<u8>, k: int, part: Seq<u8>)
    requires
        0 <= k <= bytes.len(),
        starts_at(bytes.take(k), 0, part),
    ensures
        starts_at(bytes, 0, part),
{
    assert(bytes.subrange(0, part.len() as int) =~= bytes.take(k).subrange(0, part.len() as int));
}

/// The first byte of an item that starts with a head.
pub proof fn lemma_first_byte(bytes: Seq<u8>, pos: int, major: u8, n: u64, rest: Seq<u8>)
    requires
        major < 8,
        starts_at(bytes, pos, head(major, n) + rest),
    ensures
        pos < bytes.len(),
        bytes[pos] == head(major, n)[0],
        bytes[pos] / 32 == major,
{
    lemma_head_shape(major, n);
    let whole = head(major, n) + rest;
    assert(bytes.subrange(pos, pos + whole.len())[0] == whole[0]);
}

/// `256^k`, for the few `k` that fit.
fn power_of_256(k: usize) -> (p: u64)
    requires
        k <= 7,
    ensures
        p as nat == pow256(k as nat),
{
    let mut p: u64 = 1;
    let mut i: usize = 0;
    while i < k
        invariant
            i <= k,
            k <= 7,
            p as nat == pow256(i as nat),
        decreases k - i,
    {
        proof {
            lemma_pow256_monotonic((i + 1) as nat, 7);
            reveal_with_fuel(pow256, 8);
            assert(pow256(7) == 0x100_0000_0000_0000);
        }
        p = p * 256;
        i = i + 1;
    }
    p
}

/// Appends the `width` low digits of `n`, most significant first.
pub fn write_be(out: &mut Vec<u8>, n: u64, width: usize)
    requires
        width <= 8,
    ensures
        final(out)@ == old(out)@ + be_bytes(n as nat, width as nat),
{
    let mut k: usize = width;
    while k > 0
        invariant
            k <= width,
            width <= 8,
            out@ + be_bytes(n as nat, k as nat) == old(out)@ + be_bytes(n as nat, width as nat),
        decreases k,
    {
        let ghost before = out@;
        k = k - 1;
        let unit = power_of_256(k);
        proof {
            lemma_pow256_positive(k as nat);
        }
        let digit = ((n / unit) % 256) as u8;
        out.push(digit);
        proof {
            lemma_be_bytes_digit(n as nat, k as nat);
            assert(before + (seq![digit] + be_bytes(n as nat, k as nat)) =~= before.push(digit)
                + be_bytes(n as nat, k as nat));
        }
    }
    proof {
        assert(out@ + be_bytes(n as nat, 0) =~= out@);
    }
}

/// The number that the `width` bytes at `pos` spell.
fn read_be(bytes: &[u8], pos: usize, width: usize) -> (n: u64)
    requires
        width <= 8,
        pos + width <= bytes@.len(),
    ensures
        n as nat == be_value(bytes@.subrange(pos as int, pos + width)),
{
    let mut acc: u64 = 0;
    let mut i: usize = 0;
    let len = bytes.len();
    proof {
        assert(bytes@.subrange(pos as int, pos as int) =~= Seq::<u8>::empty());
    }
    while i < width
        invariant
            i <= width,
            width <= 8,
            len == bytes@.len(),
            pos + width <= len,
            acc as nat == be_value(bytes@.subrange(pos as int, pos + i)),
        decreases width - i,
    {
        let b = bytes[pos + i];
        proof {
            let pre = bytes@.subrange(pos as int, pos + i);
            let cur = bytes@.subrange(pos as int, pos + i + 1);
            assert(cur.drop_last() =~= pre);
            assert(cur.last() == b);
            lemma_be_value_bound(cur);
            lemma_pow256_monotonic((i + 1) as nat, 8);
            lemma_pow256_small();
        }
        acc = acc * 256 + b as u64;
        i = i + 1;
    }
    acc
}

/// Appends the head of an item.
pub fn write_head(out: &mut Vec<u8>, major: u8, n: u64)
    requires
        major < 8,
    ensures
        final(out)@ == old(out)@ + head(major, n),
{
    let ghost before = out@;
    if n < 24 {
        out.push(major * 32 + n as u8);
        proof {
            assert(be_bytes(n as nat, 0) =~= Seq::<u8>::empty());
        }
    } else if n < 0x100 {
        out.push(major * 32 + 24);
        write_be(out, n, 1);
    } else if n < 0x1_0000 {
        out.push(major * 32 + 25);
        write_be(out, n, 2);
    } else if n < 0x1_0000_0000 {
        out.push(major * 32 + 26);
        write_be(out, n, 4);
    } else {
        out.push(major * 32 + 27);
        write_be(out, n, 8);
    }
    proof {
        assert(out@ =~= before + head(major, n));
    }
}

/// Reads the head of an item at `pos`: its major type, its number and the
/// position behind it.
pub fn read_head(bytes: &[u8], pos: usize) -> (r: Option<(u8, u64, usize)>)
    ensures
        r matches Some((major, n, next)) ==> major < 8 && starts_at(
            bytes@,
            pos as int,
            head(major, n),
        ) && next == pos + head(major, n).len(),
        forall|major: u8, n: u64|
            major < 8 && #[trigger] starts_at(bytes@, pos as int, head(major, n)) ==> r == Some(
                (major, n, (pos + head(major, n).len()) as usize),
            ),
{
    if pos >= bytes.len() {
        proof {
            assert forall|major: u8, n: u64|
                major < 8 && #[trigger] starts_at(
                    bytes@,
                    pos as int,
                    head(major, n),
                ) implies false by {
                lemma_head_shape(major, n);
            }
        }
        return None;
    }
    let first = bytes[pos];
    let major = first / 32;
    let info = first % 32;
    let width: usize = if info < 24 {
        0
    } else if info == 24 {
        1
    } else if info == 25 {
        2
    } else if info == 26 {
        4
    } else if info == 27 {
        8
    } else {
        proof {
            assert forall|major: u8, n: u64|
                major < 8 && #[trigger] starts_at(
                    bytes@,
                    pos as int,
                    head(major, n),
                ) implies false by {
                lemma_head_shape(major, n);
                assert(bytes@.subrange(pos as int, pos + head(major, n).len())[0] == first);
            }
        }
        return None;
    };
    if width > bytes.len() - pos - 1 {
        proof {
            assert forall|major: u8, n: u64|
                major < 8 && #[trigger] starts_at(
                    bytes@,
                    pos as int,
                    head(major, n),
                ) implies false by {
                lemma_head_shape(major, n);
                assert(bytes@.subrange(pos as int, pos + head(major, n).len())[0] == first);
            }
        }
        return None;
    }
    let n: u64 = if width == 0 {
        info as u64
    } else {
        read_be(bytes, pos + 1, width)
    };
    let shortest = if width == 0 {
        true
    } else if width == 1 {
        n >= 24
    } else if width == 2 {
        n >= 0x100
    } else if width == 4 {
        n >= 0x1_0000
    } else {
        n >= 0x1_0000_0000
    };
    let ghost digits = bytes@.subrange(pos + 1, pos + 1 + width);
    proof {
        lemma_pow256_small();
        lemma_be_value_bound(digits);
        lemma_be_bytes_of_be_value(digits);
        if width == 0 {
            assert(digits =~= be_bytes(n as nat, 0));
        }
        assert forall|m: u8, k: u64|
            m < 8 && #[trigger] starts_at(bytes@, pos as int, head(m, k)) implies m == major
            && k == n && shortest by {
            lemma_head_shape(m, k);
            let h = head(m, k);
            let there = bytes@.subrange(pos as int, pos + h.len());
            assert(there[0] == first);
            assert(there.subrange(1, 1 + head_width(k) as int) =~= bytes@.subrange(
                pos + 1,
                pos + 1 + head_width(k),
            ));
        }
    }
    if !shortest {
        return None;
    }
    proof {
        lemma_head_shape(major, n);
        assert(bytes@.subrange(pos as int, pos + 1 + width) =~= seq![first] + digits);
    }
    Some((major, n, pos + 1 + width))
}

/// The items of the elements of `items`, one after the other. `f` gives the
/// item of one element.
pub open spec fn concat_items<A>(items: Seq<A>, f: spec_fn(A) -> Seq<u8>) -> Seq<u8>
    decreases items.len(),
{
    if items.len() == 0 {
        Seq::empty()
    } else {
        concat_items(items.drop_last(), f) + f(items.last())
    }
}

/// The items of a sequence with one more element are the items of the
/// sequence and the item of that element behind them.
pub proof fn lemma_concat_push<A>(items: Seq<A>, x: A, f: spec_fn(A) -> Seq<u8>)
    ensures
        concat_items(items.push(x), f) == concat_items(items, f) + f(x),
{
    assert(items.push(x).drop_last() =~= items);
}

/// Where the items of a sequence stand in a buffer, the items of each of its
/// prefixes stand there too, and the item of the next element behind them.
pub proof fn lemma_concat_prefix<A>(
    bytes: Seq<u8>,
    start: int,
    v: Seq<A>,
    f: spec_fn(A) -> Seq<u8>,
    i: int,
)
    requires
        0 <= i < v.len(),
        starts_at(bytes, start, concat_items(v, f)),
    ensures
        starts_at(bytes, start, concat_items(v.take(i), f)),
        starts_at(bytes, start + concat_items(v.take(i), f).len(), f(v[i])),
    decreases v.len(),
{
    let init = v.drop_last();
    lemma_starts_at_concat(bytes, start, concat_items(init, f), f(v.last()));
    if i == v.len() - 1 {
        assert(v.take(i) =~= init);
    } else {
        lemma_concat_prefix(bytes, start, init, f, i);
        assert(init.take(i) =~= v.take(i));
    }
}

/// Two sequences of equally many elements whose items stand at one
/// position are the same, if that is so for single elements.
pub proof fn lemma_concat_unique<A>(
    bytes: Seq<u8>,
    start: int,
    v: Seq<A>,
    w: Seq<A>,
    f: spec_fn(A) -> Seq<u8>,
    fits: spec_fn(A) -> bool,
    i: int,
)
    requires
        v.len() == w.len(),
        0 <= i <= v.len(),
        forall|k: int| 0 <= k < v.len() ==> fits(#[trigger] v[k]),
        forall|k: int| 0 <= k < w.len() ==> fits(#[trigger] w[k]),
        starts_at(bytes, start, concat_items(v, f)),
        starts_at(bytes, start, concat_items(w, f)),
        forall|p: int, x: A, y: A|
            fits(x) && fits(y) && #[trigger] starts_at(bytes, p, f(x)) && #[trigger] starts_at(
                bytes,
                p,
                f(y),
            ) ==> x == y,
    ensures
        v.take(i) == w.take(i),
    decreases i,
{
    if i == 0 {
        assert(v.take(0) =~= w.take(0));
    } else {
        lemma_concat_unique(bytes, start, v, w, f, fits, i - 1);
        lemma_concat_prefix(bytes, start, v, f, i - 1);
        lemma_concat_prefix(bytes, start, w, f, i - 1);
        assert(v[i - 1] == w[i - 1]);
        assert(v.take(i) =~= v.take(i - 1).push(v[i - 1]));
        assert(w.take(i) =~= w.take(i - 1).push(w[i - 1]));
    }
}

/// Appends an unsigned integer.
pub fn write_uint(out: &mut Vec<u8>, v: u32)
    ensures
        final(out)@ == old(out)@ + uint_item(v),
{
    write_head(out, MAJOR_UINT, v as u64);
}

/// Reads an unsigned integer of at most 32 bits at `pos`.
pub fn read_uint(bytes: &[u8], pos: usize) -> (r: Option<(u32, usize)>)
    ensures
        r matches Some((v, next)) ==> starts_at(bytes@, pos as int, uint_item(v)) && next == pos
            + uint_item(v).len(),
        forall|v: u32| #[trigger]
            starts_at(bytes@, pos as int, uint_item(v)) ==> r == Some(
                (v, (pos + uint_item(v).len()) as usize),
            ),
{
    match read_head(bytes, pos) {
        Some((major, n, next)) => {
            if major == MAJOR_UINT && n <= 0xffff_ffff {
                Some((n as u32, next))
            } else {
                None
            }
        },
        None => None,
    }
}

/// Turns bytes into a string with `String::from_utf8`.
///
/// Nothing is proved of this function. Its contract claims that the call
/// succeeds exactly on valid UTF-8, and that the string it gives then has
/// the given bytes as its UTF-8 form.
#[verifier::external_body]
fn string_from_utf8(bytes: Vec<u8>) -> (r: Option<String>)
    ensures
        match r {
            Some(s) => valid_utf8(bytes@) && encode_utf8(s@) == bytes@,
            None => !valid_utf8(bytes@),
        },
{
    match String::from_utf8(bytes) {
        Ok(s) => Some(s),
        Err(_) => None,
    }
}

/// Appends a text string.
pub fn write_text(out: &mut Vec<u8>, s: &str)
    ensures
        text_fits(s@),
        final(out)@ == old(out)@ + text_item(s@),
{
    let ghost before = out@;
    let raw = s.as_bytes();
    write_head(out, MAJOR_TEXT, raw.len() as u64);
    out.extend_from_slice(raw);
    proof {
        assert(out@ =~= before + text_item(s@));
    }
}

/// Reads a text string at `pos`.
pub fn read_text(bytes: &[u8], pos: usize) -> (r: Option<(String, usize)>)
    ensures
        r matches Some((s, next)) ==> text_fits(s@) && starts_at(
            bytes@,
            pos as int,
            text_item(s@),
        ) && next == pos + text_item(s@).len(),
        forall|t: Seq<char>|
            text_fits(t) && #[trigger] starts_at(bytes@, pos as int, text_item(t)) ==> (
            r matches Some((s, next)) && s@ == t && next == pos + text_item(t).len()),
{
    let ghost none_fits = forall|t: Seq<char>|
        text_fits(t) ==> !#[trigger] starts_at(bytes@, pos as int, text_item(t));
    let (n, start) = match read_head(bytes, pos) {
        Some((major, n, start)) => {
            if major != MAJOR_TEXT {
                proof {
                    assert forall|t: Seq<char>|
                        text_fits(t) && #[trigger] starts_at(
                            bytes@,
                            pos as int,
                            text_item(t),
                        ) implies false by {
                        let h = head(MAJOR_TEXT, encode_utf8(t).len() as u64);
                        lemma_starts_at_concat(bytes@, pos as int, h, encode_utf8(t));
                    }
                }
                return None;
            }
            (n, start)
        },
        None => {
            proof {
                assert forall|t: Seq<char>|
                    text_fits(t) && #[trigger] starts_at(
                        bytes@,
                        pos as int,
                        text_item(t),
                    ) implies false by {
                    let h = head(MAJOR_TEXT, encode_utf8(t).len() as u64);
                    lemma_starts_at_concat(bytes@, pos as int, h, encode_utf8(t));
                }
            }
            return None;
        },
    };
    proof {
        assert forall|t: Seq<char>|
            text_fits(t) && #[trigger] starts_at(bytes@, pos as int, text_item(t)) implies n
            == encode_utf8(t).len() && starts_at(bytes@, start as int, encode_utf8(t)) by {
            let h = head(MAJOR_TEXT, encode_utf8(t).len() as u64);
            lemma_starts_at_concat(bytes@, pos as int, h, encode_utf8(t));
        }
    }
    if n > (bytes.len() - start) as u64 {
        return None;
    }
    let end = start + n as usize;
    let raw = slice_to_vec(slice_subrange(bytes, start, end));
    proof {
        assert forall|t: Seq<char>|
            text_fits(t) && #[trigger] starts_at(bytes@, pos as int, text_item(t)) implies raw@
            == encode_utf8(t) by {}
    }
    match string_from_utf8(raw) {
        Some(s) => {
            proof {
                let h = head(MAJOR_TEXT, n);
                lemma_starts_at_concat(bytes@, pos as int, h, encode_utf8(s@));
                assert forall|t: Seq<char>|
                    text_fits(t) && #[trigger] starts_at(
                        bytes@,
                        pos as int,
                        text_item(t),
                    ) implies s@ == t by {
                    encode_utf8_decode_utf8(t);
                    encode_utf8_decode_utf8(s@);
                }
            }
            Some((s, end))
        },
        None => {
            proof {
                assert forall|t: Seq<char>|
                    text_fits(t) && #[trigger] starts_at(
                        bytes@,
                        pos as int,
                        text_item(t),
                    ) implies false by {
                    encode_utf8_valid_utf8(t);
                }
            }
            None
        },
    }
}

/// Whether `part` stands in `bytes` at `pos`.
pub fn expect_bytes(bytes: &[u8], pos: usize, part: &[u8]) -> (found: bool)
    ensures
        found == starts_at(bytes@, pos as int, part@),
{
    let n = part.len();
    let len = bytes.len();
    if pos > len || n > len - pos {
        return false;
    }
    let mut i: usize = 0;
    while i < n
        invariant
            i <= n,
            n == part@.len(),
            len == bytes@.len(),
            pos + n <= len,
            bytes@.subrange(pos as int, pos + i) == part@.subrange(0, i as int),
        decreases n - i,
    {
        if bytes[pos + i] != part[i] {
            proof {
                if starts_at(bytes@, pos as int, part@) {
                    assert(bytes@.subrange(pos as int, pos + n)[i as int] == part@[i as int]);
                }
            }
            return false;
        }
        proof {
            assert(bytes@.subrange(pos as int, pos + i + 1) =~= bytes@.subrange(
                pos as int,
                pos + i,
            ).push(bytes@[pos + i]));
            assert(part@.subrange(0, i as int + 1) =~= part@.subrange(0, i as int).push(
                part@[i as int],
            ));
        }
        i = i + 1;
    }
    proof {
        assert(part@.subrange(0, n as int) =~= part@);
    }
    true
}

/// Looks for the text `text` at `pos` and gives the position behind it.
pub fn expect_text(bytes: &[u8], pos: usize, text: &str) -> (r: Option<usize>)
    ensures
        text_fits(text@),
        r is Some <==> starts_at(bytes@, pos as int, text_item(text@)),
        r matches Some(next) ==> next == pos + text_item(text@).len(),
{
    let mut wanted: Vec<u8> = Vec::new();
    write_text(&mut wanted, text);
    proof {
        assert(wanted@ =~= text_item(text@));
    }
    if expect_bytes(bytes, pos, wanted.as_slice()) {
        let len = bytes.len();
        assert(pos + wanted@.len() <= len);
        Some(pos + wanted.len())
    } else {
        None
    }
}

/// Whether the string `s` is the text `text`.
pub fn text_is(s: &String, text: &str) -> (same: bool)
    ensures
        same == (s@ == text@),
{
    *s == text.to_owned()
}

} // verus!

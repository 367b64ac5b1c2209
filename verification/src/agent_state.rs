//! A store of agents' state: a relation of records with a B-tree index on the
//! agent and a hash index on the record id; values are kept as base64 text.

use vstd::prelude::*;
use vstd::arithmetic::power2::{pow2, lemma2_to64};
use vstd::string::StringSliceAdditionalSpecFns;
use crate::btree::{BTree, Entry, entries_insert, clone_bytes};
use crate::hash_index::ChainedHashTable;
use crate::relational::{
    Relation, Tuple, Value, names, rows, kept_rows, predicate_gave, add_all_distinct, pick_each,
    col_positions, first_index, lemma_first_index, rows_cover, cross_rows, join_rows, common_upto,
    extras_upto,
};
use crate::strmap::StrMap;
use crate::text::{decimal_text, u64_text};

verus! {

/// The base64 digit of `n`, for `n` below 64.
pub open spec fn b64_char(n: int) -> char {
    if n < 26 {
        (('A' as int) + n) as char
    } else if n < 52 {
        (('a' as int) + n - 26) as char
    } else if n < 62 {
        (('0' as int) + n - 52) as char
    } else if n == 62 {
        '+'
    } else {
        '/'
    }
}

/// The alphabet of base64 digits holds digit `n` at position `n`.
proof fn lemma_alphabet()
    ensures
        "ABCDEFGHIJKLMNOPQRSTUVWXYZabcdefghijklmnopqrstuvwxyz0123456789+/"@.len() == 64,
        forall|n: int| 0 <= n < 64 ==> "ABCDEFGHIJKLMNOPQRSTUVWXYZabcdefghijklmnopqrstuvwxyz0123456789+/"@[n] == b64_char(n),
        vstd::string::is_ascii("ABCDEFGHIJKLMNOPQRSTUVWXYZabcdefghijklmnopqrstuvwxyz0123456789+/"),
{
    reveal_strlit("ABCDEFGHIJKLMNOPQRSTUVWXYZabcdefghijklmnopqrstuvwxyz0123456789+/");
}

/// The value of base64 digit `b`, if it is one.
pub open spec fn b64_value(b: u8) -> Option<int> {
    if 65 <= b <= 90 {
        Some(b - 65)
    } else if 97 <= b <= 122 {
        Some(b - 71)
    } else if 48 <= b <= 57 {
        Some(b + 4)
    } else if b == 43 {
        Some(62)
    } else if b == 47 {
        Some(63)
    } else {
        None
    }
}

/// The four characters that encode the group of (up to) three bytes of `d`
/// starting at `3 * c`: missing bytes count as zero, and the characters they
/// alone would decide are `=`.
pub open spec fn base64_group(d: Seq<u8>, c: int) -> Seq<char> {
    let rem = d.len() - 3 * c;
    let b0 = d[3 * c] as int;
    let b1 = if rem > 1 { d[3 * c + 1] as int } else { 0 };
    let b2 = if rem > 2 { d[3 * c + 2] as int } else { 0 };
    seq![
        b64_char(b0 / 4),
        b64_char((b0 % 4) * 16 + b1 / 16),
        if rem > 1 { b64_char((b1 % 16) * 4 + b2 / 64) } else { '=' },
        if rem > 2 { b64_char(b2 % 64) } else { '=' },
    ]
}

/// The encodings of the first `n` groups of `d`, one after another.
pub open spec fn base64_groups(d: Seq<u8>, n: int) -> Seq<char>
    decreases n,
{
    if n <= 0 {
        Seq::empty()
    } else {
        base64_groups(d, n - 1) + base64_group(d, n - 1)
    }
}

/// The base64 text of `d`, padded with `=`.
pub open spec fn base64_text(d: Seq<u8>) -> Seq<char> {
    base64_groups(d, ((d.len() + 2) / 3) as int)
}

/// `b` without its `=` bytes.
pub open spec fn unpadded(b: Seq<u8>) -> Seq<u8>
    decreases b.len(),
{
    if b.len() == 0 {
        Seq::empty()
    } else if b.last() == 61u8 {
        unpadded(b.drop_last())
    } else {
        unpadded(b.drop_last()).push(b.last())
    }
}

/// The values of the base64 digits among `b`, in order; other bytes are
/// skipped.
pub open spec fn sextets(b: Seq<u8>) -> Seq<int>
    decreases b.len(),
{
    if b.len() == 0 {
        Seq::empty()
    } else {
        match b64_value(b.last()) {
            Some(v) => sextets(b.drop_last()).push(v),
            None => sextets(b.drop_last()),
        }
    }
}

/// The number whose base-64 digits are `s`, most significant first.
pub open spec fn sextet_number(s: Seq<int>) -> int
    decreases s.len(),
{
    if s.len() == 0 {
        0
    } else {
        sextet_number(s.drop_last()) * 64 + s.last()
    }
}

/// The whole bytes of the `bits`-bit number `acc`, most significant first;
/// the bits below the last whole byte are dropped.
pub open spec fn whole_bytes(acc: int, bits: int) -> Seq<u8>
    decreases bits,
{
    if bits < 8 {
        Seq::empty()
    } else {
        seq![((acc / pow2((bits - 8) as nat) as int) % 256) as u8] + whole_bytes(acc, bits - 8)
    }
}

/// The bytes that a block of (up to) four digits stands for.
pub open spec fn decode_block(block: Seq<u8>) -> Seq<u8> {
    whole_bytes(sextet_number(sextets(block)), 6 * sextets(block).len() as int)
}

/// The decoded bytes of the first `n` blocks of four of `f`.
pub open spec fn decode_blocks(f: Seq<u8>, n: int) -> Seq<u8>
    decreases n,
{
    if n <= 0 {
        Seq::empty()
    } else {
        decode_blocks(f, n - 1) + decode_block(f.subrange(4 * (n - 1), if 4 * n < f.len() { 4 * n } else { f.len() as int }))
    }
}

/// The bytes that the base64 text `b` stands for: its `=` bytes dropped, the
/// rest read in blocks of four digits.
pub open spec fn base64_bytes(b: Seq<u8>) -> Seq<u8> {
    decode_blocks(unpadded(b), ((unpadded(b).len() + 3) / 4) as int)
}

/// The four digits of the group `b0 b1 b2`, as the shifts of the 24-bit
/// number they form pick them out.
proof fn lemma_group_digits(b0: u32, b1: u32, b2: u32)
    requires
        b0 < 256,
        b1 < 256,
        b2 < 256,
    ensures
        ((((b0 << 16u32) | (b1 << 8u32)) | b2) >> 18u32) & 0x3F == b0 / 4,
        ((((b0 << 16u32) | (b1 << 8u32)) | b2) >> 12u32) & 0x3F == (b0 % 4) * 16 + b1 / 16,
        ((((b0 << 16u32) | (b1 << 8u32)) | b2) >> 6u32) & 0x3F == (b1 % 16) * 4 + b2 / 64,
        (((b0 << 16u32) | (b1 << 8u32)) | b2) & 0x3F == b2 % 64,
{
    assert(((((b0 << 16u32) | (b1 << 8u32)) | b2) >> 18u32) & 0x3F == b0 / 4) by (bit_vector)
        requires b0 < 256, b1 < 256, b2 < 256;
    assert(((((b0 << 16u32) | (b1 << 8u32)) | b2) >> 12u32) & 0x3F == (b0 % 4) * 16 + b1 / 16) by (bit_vector)
        requires b0 < 256, b1 < 256, b2 < 256;
    assert(((((b0 << 16u32) | (b1 << 8u32)) | b2) >> 6u32) & 0x3F == (b1 % 16) * 4 + b2 / 64) by (bit_vector)
        requires b0 < 256, b1 < 256, b2 < 256;
    assert((((b0 << 16u32) | (b1 << 8u32)) | b2) & 0x3F == b2 % 64) by (bit_vector)
        requires b0 < 256, b1 < 256, b2 < 256;
}

/// The base64 text of `data`.
pub fn base64_encode(data: &[u8]) -> (r: String)
    ensures
        r@ == base64_text(data@),
{
    let alpha = "ABCDEFGHIJKLMNOPQRSTUVWXYZabcdefghijklmnopqrstuvwxyz0123456789+/";
    let pad = "=";
    proof {
        lemma_alphabet();
        reveal_strlit("=");
    }
    let mut result = String::new();
    let mut i: usize = 0;
    let ghost mut c: int = 0;
    while i < data.len()
        invariant
            i <= data@.len(),
            i == 3 * c || i == data@.len(),
            i < data@.len() ==> i == 3 * c,
            i == data@.len() ==> c == (data@.len() + 2) / 3,
            0 <= c,
            alpha@ == "ABCDEFGHIJKLMNOPQRSTUVWXYZabcdefghijklmnopqrstuvwxyz0123456789+/"@,
            alpha@.len() == 64,
            forall|n: int| 0 <= n < 64 ==> alpha@[n] == b64_char(n),
            alpha.is_ascii(),
            pad@ == seq!['='],
            result@ == base64_groups(data@, c),
        decreases data@.len() - i,
    {
        let rem = data.len() - i;
        let b0 = data[i] as u32;
        let b1 = if rem > 1 { data[i + 1] as u32 } else { 0 };
        let b2 = if rem > 2 { data[i + 2] as u32 } else { 0 };
        let triple = (b0 << 16u32) | (b1 << 8u32) | b2;
        proof {
            lemma_group_digits(b0, b1, b2);
        }
        let ghost before = result@;
        let d0 = ((triple >> 18u32) & 0x3F) as usize;
        let d1 = ((triple >> 12u32) & 0x3F) as usize;
        result.append(alpha.substring_ascii(d0, d0 + 1));
        result.append(alpha.substring_ascii(d1, d1 + 1));
        if rem > 1 {
            let d2 = ((triple >> 6u32) & 0x3F) as usize;
            result.append(alpha.substring_ascii(d2, d2 + 1));
        } else {
            result.append(pad);
        }
        if rem > 2 {
            let d3 = (triple & 0x3F) as usize;
            result.append(alpha.substring_ascii(d3, d3 + 1));
        } else {
            result.append(pad);
        }
        proof {
            assert(result@ =~= before + base64_group(data@, c));
            assert(base64_groups(data@, c + 1) == base64_groups(data@, c) + base64_group(data@, c));
        }
        if rem > 3 {
            i = i + 3;
        } else {
            i = data.len();
        }
        proof {
            c = c + 1;
        }
    }
    result
}

/// The value of base64 digit `b`, if it is one.
fn digit_value(b: u8) -> (r: Option<u32>)
    ensures
        match r {
            Some(v) => b64_value(b) == Some(v as int) && v < 64,
            None => b64_value(b) is None,
        },
{
    if 65 <= b && b <= 90 {
        Some((b - 65) as u32)
    } else if 97 <= b && b <= 122 {
        Some((b - 71) as u32)
    } else if 48 <= b && b <= 57 {
        Some((b + 4) as u32)
    } else if b == 43 {
        Some(62)
    } else if b == 47 {
        Some(63)
    } else {
        None
    }
}

/// The bytes that the base64 text `encoded` stands for: `=` is dropped, the
/// rest is read in blocks of four, and characters that are not base64
/// digits are skipped within their block.
pub fn base64_decode(encoded: &str) -> (r: Vec<u8>)
    ensures
        r@ == base64_bytes(encoded.spec_bytes()),
{
    let bytes = encoded.as_bytes();
    let mut chars: Vec<u8> = Vec::new();
    let mut i: usize = 0;
    while i < bytes.len()
        invariant
            i <= bytes@.len(),
            chars@ == unpadded(bytes@.subrange(0, i as int)),
        decreases bytes@.len() - i,
    {
        proof {
            assert(bytes@.subrange(0, i as int + 1).drop_last() =~= bytes@.subrange(0, i as int));
            assert(bytes@.subrange(0, i as int + 1).last() == bytes@[i as int]);
        }
        if bytes[i] != 61u8 {
            chars.push(bytes[i]);
        }
        i += 1;
    }
    proof {
        assert(bytes@.subrange(0, i as int) =~= bytes@);
        lemma2_to64();
    }
    let mut result: Vec<u8> = Vec::new();
    let mut start: usize = 0;
    let ghost mut n: int = 0;
    while start < chars.len()
        invariant
            start <= chars@.len(),
            0 <= n,
            start < chars@.len() ==> start == 4 * n,
            start == chars@.len() ==> n == (chars@.len() + 3) / 4,
            result@ == decode_blocks(chars@, n),
            pow2(0) == 1 && pow2(6) == 64 && pow2(12) == 4096 && pow2(18) == 262144 && pow2(24) == 16777216,
        decreases chars@.len() - start,
    {
        let end = if chars.len() - start > 4 { start + 4 } else { chars.len() };
        let ghost block = chars@.subrange(start as int, end as int);
        let mut acc: u32 = 0;
        let mut bits: u32 = 0;
        let mut j: usize = start;
        while j < end
            invariant
                start <= j <= end,
                end - start <= 4,
                end <= chars@.len(),
                acc == sextet_number(sextets(chars@.subrange(start as int, j as int))),
                bits == 6 * sextets(chars@.subrange(start as int, j as int)).len(),
                sextets(chars@.subrange(start as int, j as int)).len() <= j - start,
                (acc as int) < pow2(bits as nat),
                pow2(0) == 1 && pow2(6) == 64 && pow2(12) == 4096 && pow2(18) == 262144 && pow2(24) == 16777216,
            decreases end - j,
        {
            let ghost prefix = chars@.subrange(start as int, j as int);
            proof {
                assert(chars@.subrange(start as int, j as int + 1).drop_last() =~= prefix);
                assert(chars@.subrange(start as int, j as int + 1).last() == chars@[j as int]);
            }
            match digit_value(chars[j]) {
                Some(v) => {
                    proof {
                        assert(bits <= 18);
                        assert(acc < 262144);
                        assert((acc << 6u32) | v == acc * 64 + v) by (bit_vector)
                            requires acc < 262144, v < 64;
                        vstd::arithmetic::power2::lemma_pow2_adds(bits as nat, 6);
                        assert(sextets(prefix).push(v as int).drop_last() =~= sextets(prefix));
                    }
                    acc = (acc << 6u32) | v;
                    bits = bits + 6;
                },
                None => {},
            }
            j += 1;
        }
        let ghost total = bits;
        let ghost base = result@;
        proof {
            assert(chars@.subrange(start as int, j as int) == block);
        }
        while bits >= 8
            invariant
                bits <= total,
                total <= 24,
                acc as int == sextet_number(sextets(block)),
                total == 6 * sextets(block).len(),
                result@ + whole_bytes(acc as int, bits as int) == base + whole_bytes(acc as int, total as int),
            decreases bits,
        {
            let ghost before = result@;
            bits = bits - 8;
            proof {
                vstd::bits::lemma_u32_shr_is_div(acc, bits);
                let y = acc >> bits;
                assert(y as u8 == (y % 256) as u8) by (bit_vector);
                assert(whole_bytes(acc as int, bits as int + 8) == seq![(((acc as int) / (pow2(bits as nat) as int)) % 256) as u8] + whole_bytes(acc as int, bits as int));
            }
            result.push(#[verifier::truncate] ((acc >> bits) as u8));
            proof {
                assert(result@ + whole_bytes(acc as int, bits as int) =~= before + whole_bytes(acc as int, bits as int + 8));
            }
        }
        proof {
            assert(whole_bytes(acc as int, bits as int) == Seq::<u8>::empty());
            assert(result@ =~= base + decode_block(block));
            assert(decode_blocks(chars@, n + 1) == decode_blocks(chars@, n) + decode_block(block));
            n = n + 1;
        }
        start = end;
    }
    result
}

/// The bytes of the characters of `t`, one each.
spec fn char_bytes(t: Seq<char>) -> Seq<u8> {
    t.map_values(|ch: char| ch as u8)
}

/// The digits (not `=`) of group `c`'s encoding, as bytes.
spec fn group_digits(d: Seq<u8>, c: int) -> Seq<u8> {
    let g = base64_group(d, c);
    let rem = d.len() - 3 * c;
    if rem > 2 {
        seq![g[0] as u8, g[1] as u8, g[2] as u8, g[3] as u8]
    } else if rem > 1 {
        seq![g[0] as u8, g[1] as u8, g[2] as u8]
    } else {
        seq![g[0] as u8, g[1] as u8]
    }
}

/// The digits of the first `n` groups, one group after another.
spec fn groups_digits(d: Seq<u8>, n: int) -> Seq<u8>
    decreases n,
{
    if n <= 0 {
        Seq::empty()
    } else {
        groups_digits(d, n - 1) + group_digits(d, n - 1)
    }
}

/// Digit `n` is an ASCII character other than `=`, and reads back as `n`.
proof fn lemma_digit(n: int)
    requires
        0 <= n < 64,
    ensures
        '\0' <= b64_char(n) <= '\u{7f}',
        b64_char(n) as u8 != 61u8,
        b64_value(b64_char(n) as u8) == Some(n),
{
}

/// Removing `=` from a concatenation removes it from each part.
proof fn lemma_unpadded_add(a: Seq<u8>, b: Seq<u8>)
    ensures
        unpadded(a + b) == unpadded(a) + unpadded(b),
    decreases b.len(),
{
    if b.len() == 0 {
        assert(a + b =~= a);
        assert(unpadded(a) + unpadded(b) =~= unpadded(a));
    } else {
        assert((a + b).drop_last() =~= a + b.drop_last());
        assert((a + b).last() == b.last());
        lemma_unpadded_add(a, b.drop_last());
        if b.last() != 61u8 {
            assert(unpadded(a) + unpadded(b) =~= (unpadded(a) + unpadded(b.drop_last())).push(b.last()));
        }
    }
}

/// The encoding of a group is ASCII, and its bytes without `=` are the
/// group's digits.
proof fn lemma_group_unpadded(d: Seq<u8>, c: int)
    requires
        0 <= c,
        3 * c < d.len(),
    ensures
        vstd::utf8::is_ascii_chars(base64_group(d, c)),
        unpadded(char_bytes(base64_group(d, c))) == group_digits(d, c),
{
    let g = base64_group(d, c);
    let rem = d.len() - 3 * c;
    let b0 = d[3 * c] as int;
    let b1 = if rem > 1 { d[3 * c + 1] as int } else { 0 };
    let b2 = if rem > 2 { d[3 * c + 2] as int } else { 0 };
    lemma_digit(b0 / 4);
    lemma_digit((b0 % 4) * 16 + b1 / 16);
    lemma_digit((b1 % 16) * 4 + b2 / 64);
    lemma_digit(b2 % 64);
    let cb = char_bytes(g);
    assert(cb.len() == 4);
    assert(cb.drop_last().drop_last().drop_last().drop_last() =~= Seq::<u8>::empty());
    reveal_with_fuel(unpadded, 5);
    assert(unpadded(cb.drop_last().drop_last().drop_last()) =~= seq![g[0] as u8]);
    assert(unpadded(cb.drop_last().drop_last()) =~= seq![g[0] as u8, g[1] as u8]);
    if rem > 2 {
        assert(unpadded(cb.drop_last()) =~= seq![g[0] as u8, g[1] as u8, g[2] as u8]);
        assert(unpadded(cb) =~= seq![g[0] as u8, g[1] as u8, g[2] as u8, g[3] as u8]);
    } else if rem > 1 {
        assert(unpadded(cb.drop_last()) =~= seq![g[0] as u8, g[1] as u8, g[2] as u8]);
        assert(unpadded(cb) =~= seq![g[0] as u8, g[1] as u8, g[2] as u8]);
    } else {
        assert(unpadded(cb.drop_last()) =~= seq![g[0] as u8, g[1] as u8]);
        assert(unpadded(cb) =~= seq![g[0] as u8, g[1] as u8]);
    }
}

/// The encoding of the first `n` groups is ASCII, and its bytes without
/// `=` are those groups' digits.
proof fn lemma_groups_unpadded(d: Seq<u8>, n: int)
    requires
        0 <= n,
        3 * (n - 1) < d.len(),
    ensures
        vstd::utf8::is_ascii_chars(base64_groups(d, n)),
        unpadded(char_bytes(base64_groups(d, n))) == groups_digits(d, n),
    decreases n,
{
    if n == 0 {
        assert(char_bytes(base64_groups(d, n)) =~= Seq::<u8>::empty());
    } else {
        lemma_groups_unpadded(d, n - 1);
        lemma_group_unpadded(d, n - 1);
        let a = base64_groups(d, n - 1);
        let b = base64_group(d, n - 1);
        assert(char_bytes(a + b) =~= char_bytes(a) + char_bytes(b));
        lemma_unpadded_add(char_bytes(a), char_bytes(b));
        assert forall|i: int| 0 <= i < (a + b).len() implies '\0' <= #[trigger] (a + b)[i] <= '\u{7f}' by {
            if i < a.len() {
                assert((a + b)[i] == a[i]);
            } else {
                assert((a + b)[i] == b[i - a.len()]);
            }
        }
    }
}

/// When the first `m` groups are all whole, their digits come four to a
/// group.
proof fn lemma_digits_layout(d: Seq<u8>, m: int)
    requires
        0 <= m,
        3 * m <= d.len(),
    ensures
        groups_digits(d, m).len() == 4 * m,
        forall|c: int| 0 <= c < m ==> #[trigger] groups_digits(d, m).subrange(4 * c, 4 * c + 4) == group_digits(d, c),
    decreases m,
{
    if m > 0 {
        lemma_digits_layout(d, m - 1);
        let a = groups_digits(d, m - 1);
        let b = group_digits(d, m - 1);
        assert forall|c: int| 0 <= c < m implies #[trigger] groups_digits(d, m).subrange(4 * c, 4 * c + 4) == group_digits(d, c) by {
            if c < m - 1 {
                assert((a + b).subrange(4 * c, 4 * c + 4) =~= a.subrange(4 * c, 4 * c + 4));
            } else {
                assert((a + b).subrange(4 * c, 4 * c + 4) =~= b);
            }
        }
    }
}

/// The digits of a group, read back as one number, are its bytes side by
/// side (with the bits that the padding drops left off).
proof fn lemma_group_number(b0: u32, b1: u32, b2: u32)
    requires
        b0 < 256,
        b1 < 256,
        b2 < 256,
    ensures
        ((b0 / 4 * 64 + ((b0 % 4) * 16 + b1 / 16)) * 64 + ((b1 % 16) * 4 + b2 / 64)) * 64 + b2 % 64 == b0 * 65536 + b1 * 256 + b2,
        (b0 / 4 * 64 + ((b0 % 4) * 16 + b1 / 16)) * 64 + (b1 % 16) * 4 == b0 * 1024 + b1 * 4,
        b0 / 4 * 64 + (b0 % 4) * 16 == b0 * 16,
        ((b0 * 65536 + b1 * 256 + b2) / 65536) % 256 == b0,
        ((b0 * 65536 + b1 * 256 + b2) / 256) % 256 == b1,
        (b0 * 65536 + b1 * 256 + b2) % 256 == b2,
        ((b0 * 1024 + b1 * 4) / 1024) % 256 == b0,
        ((b0 * 1024 + b1 * 4) / 4) % 256 == b1,
        ((b0 * 16) / 16) % 256 == b0,
{
    assert(((b0 / 4 * 64 + ((b0 % 4) * 16 + b1 / 16)) * 64 + ((b1 % 16) * 4 + b2 / 64)) * 64 + b2 % 64 == b0 * 65536 + b1 * 256 + b2) by (bit_vector)
        requires b0 < 256, b1 < 256, b2 < 256;
    assert((b0 / 4 * 64 + ((b0 % 4) * 16 + b1 / 16)) * 64 + (b1 % 16) * 4 == b0 * 1024 + b1 * 4) by (bit_vector)
        requires b0 < 256, b1 < 256;
    assert(b0 / 4 * 64 + (b0 % 4) * 16 == b0 * 16) by (bit_vector)
        requires b0 < 256;
    assert(((b0 * 65536 + b1 * 256 + b2) / 65536) % 256 == b0) by (bit_vector)
        requires b0 < 256, b1 < 256, b2 < 256;
    assert(((b0 * 65536 + b1 * 256 + b2) / 256) % 256 == b1) by (bit_vector)
        requires b0 < 256, b1 < 256, b2 < 256;
    assert((b0 * 65536 + b1 * 256 + b2) % 256 == b2) by (bit_vector)
        requires b0 < 256, b1 < 256, b2 < 256;
    assert(((b0 * 1024 + b1 * 4) / 1024) % 256 == b0) by (bit_vector)
        requires b0 < 256, b1 < 256;
    assert(((b0 * 1024 + b1 * 4) / 4) % 256 == b1) by (bit_vector)
        requires b0 < 256, b1 < 256;
    assert(((b0 * 16) / 16) % 256 == b0) by (bit_vector)
        requires b0 < 256;
}

/// A group's digits decode to the group's bytes.
proof fn lemma_group_decode(d: Seq<u8>, c: int)
    requires
        0 <= c,
        3 * c < d.len(),
    ensures
        decode_block(group_digits(d, c)) == d.subrange(3 * c, if 3 * c + 3 < d.len() { 3 * c + 3 } else { d.len() as int }),
{
    let rem = d.len() - 3 * c;
    let x0 = d[3 * c];
    let x1: u8 = if rem > 1 { d[3 * c + 1] } else { 0 };
    let x2: u8 = if rem > 2 { d[3 * c + 2] } else { 0 };
    let b0 = x0 as u32;
    let b1 = x1 as u32;
    let b2 = x2 as u32;
    lemma_group_number(b0, b1, b2);
    let s0 = b0 / 4;
    let s1 = (b0 % 4) * 16 + b1 / 16;
    let s2 = (b1 % 16) * 4 + b2 / 64;
    let s3 = b2 % 64;
    lemma_digit(s0 as int);
    lemma_digit(s1 as int);
    lemma_digit(s2 as int);
    lemma_digit(s3 as int);
    lemma2_to64();
    let g = group_digits(d, c);
    let e0 = b64_char(s0 as int) as u8;
    let e1 = b64_char(s1 as int) as u8;
    let e2 = b64_char(s2 as int) as u8;
    let e3 = b64_char(s3 as int) as u8;
    reveal_with_fuel(sextets, 5);
    reveal_with_fuel(sextet_number, 5);
    reveal_with_fuel(whole_bytes, 4);
    assert(seq![e0].drop_last() =~= Seq::<u8>::empty());
    assert(seq![e0, e1].drop_last() =~= seq![e0]);
    assert(sextets(seq![e0, e1]) =~= seq![s0 as int, s1 as int]);
    assert(seq![s0 as int].drop_last() =~= Seq::<int>::empty());
    assert(seq![s0 as int, s1 as int].drop_last() =~= seq![s0 as int]);
    if rem > 2 {
        assert(g =~= seq![e0, e1, e2, e3]);
        assert(seq![e0, e1, e2].drop_last() =~= seq![e0, e1]);
        assert(seq![e0, e1, e2, e3].drop_last() =~= seq![e0, e1, e2]);
        assert(sextets(g) =~= seq![s0 as int, s1 as int, s2 as int, s3 as int]);
        assert(seq![s0 as int, s1 as int, s2 as int].drop_last() =~= seq![s0 as int, s1 as int]);
        assert(seq![s0 as int, s1 as int, s2 as int, s3 as int].drop_last() =~= seq![s0 as int, s1 as int, s2 as int]);
        let num = b0 * 65536 + b1 * 256 + b2;
        assert(sextet_number(sextets(g)) == num);
        assert(whole_bytes(num as int, 0) =~= Seq::<u8>::empty());
        assert(pow2(0) == 1);
        assert((num as int) / 1 == num as int);
        assert(((num as int) % 256) as u8 == x2);
        assert(whole_bytes(num as int, 8) =~= seq![x2]);
        assert(whole_bytes(num as int, 16) =~= seq![x1, x2]);
        assert(whole_bytes(num as int, 24) =~= seq![x0, x1, x2]);
        assert(decode_block(g) =~= seq![x0, x1, x2]);
        assert(d.subrange(3 * c, 3 * c + 3) =~= seq![x0, x1, x2]);
    } else if rem > 1 {
        assert(g =~= seq![e0, e1, e2]);
        assert(seq![e0, e1, e2].drop_last() =~= seq![e0, e1]);
        assert(sextets(g) =~= seq![s0 as int, s1 as int, s2 as int]);
        assert(seq![s0 as int, s1 as int, s2 as int].drop_last() =~= seq![s0 as int, s1 as int]);
        assert(sextet_number(sextets(g)) == b0 * 1024 + b1 * 4);
        assert(decode_block(g) =~= seq![x0, x1]);
        assert(d.subrange(3 * c, d.len() as int) =~= seq![x0, x1]);
    } else {
        assert(g =~= seq![e0, e1]);
        assert(sextet_number(sextets(g)) == b0 * 16);
        assert(decode_block(g) =~= seq![x0]);
        assert(d.subrange(3 * c, d.len() as int) =~= seq![x0]);
    }
}

/// Decoding the digits of all groups block by block gives back the bytes,
/// a group at a time.
#[verifier::spinoff_prover]
#[verifier::rlimit(40)]
proof fn lemma_decode_digits(d: Seq<u8>, m: int)
    requires
        0 <= m <= (d.len() + 2) / 3,
    ensures
        decode_blocks(groups_digits(d, ((d.len() + 2) / 3) as int), m) == d.subrange(0, if 3 * m < d.len() { 3 * m } else { d.len() as int }),
    decreases m,
{
    let n = ((d.len() + 2) / 3) as int;
    let f = groups_digits(d, n);
    if m == 0 {
        assert(d.subrange(0, 0) =~= Seq::<u8>::empty());
    } else {
        lemma_decode_digits(d, m - 1);
        lemma_digits_layout(d, n - 1);
        lemma_group_decode(d, m - 1);
        let a = groups_digits(d, n - 1);
        let g = group_digits(d, n - 1);
        assert(f == a + g);
        assert(2 <= g.len() <= 4);
        let c = m - 1;
        let block = f.subrange(4 * c, if 4 * m < f.len() { 4 * m } else { f.len() as int });
        if c < n - 1 {
            assert(a.subrange(4 * c, 4 * c + 4) == group_digits(d, c));
            assert(block =~= a.subrange(4 * c, 4 * c + 4));
        } else {
            assert(block =~= g);
        }
        assert(decode_blocks(f, m) == decode_blocks(f, m - 1) + decode_block(block));
        assert(d.subrange(0, if 3 * m < d.len() { 3 * m } else { d.len() as int }) =~= d.subrange(0, 3 * c) + d.subrange(3 * c, if 3 * c + 3 < d.len() { 3 * c + 3 } else { d.len() as int }));
    }
}

/// Decoding the base64 text of any bytes gives those bytes back.
pub proof fn lemma_base64_roundtrip(data: Seq<u8>)
    ensures
        base64_bytes(vstd::utf8::encode_utf8(base64_text(data))) == data,
{
    let n = ((data.len() + 2) / 3) as int;
    let text = base64_groups(data, n);
    lemma_groups_unpadded(data, n);
    vstd::utf8::is_ascii_chars_encode_utf8(text);
    assert(vstd::utf8::encode_utf8(text) =~= char_bytes(text));
    let f = groups_digits(data, n);
    if n > 0 {
        lemma_digits_layout(data, n - 1);
        assert(f == groups_digits(data, n - 1) + group_digits(data, n - 1));
        assert(2 <= group_digits(data, n - 1).len() <= 4);
    }
    assert((f.len() + 3) / 4 == n);
    lemma_decode_digits(data, n);
    assert(data.subrange(0, data.len() as int) =~= data);
}

/// The djb2 hash of `b`: from 5381, times 33 plus each byte, wrapping.
pub open spec fn djb2(b: Seq<u8>) -> i64
    decreases b.len(),
{
    if b.len() == 0 {
        5381
    } else {
        djb2(b.drop_last()).wrapping_mul(33).wrapping_add(b.last() as i64)
    }
}

/// The key under which the agent whose id has the bytes `b` is indexed: the
/// absolute value of its djb2 hash.
pub open spec fn agent_hash(b: Seq<u8>) -> i64 {
    if djb2(b) < 0 {
        -djb2(b) as i64
    } else {
        djb2(b)
    }
}

/// The integer in `v`, or 0.
pub open spec fn int_of(v: Value) -> i64 {
    match v {
        Value::Int(x) => x,
        _ => 0,
    }
}

/// The text in `v`, or the empty text.
pub open spec fn text_of(v: Value) -> Seq<char> {
    match v {
        Value::Text(s) => s@,
        _ => Seq::empty(),
    }
}

/// A stored record as the specifications see it: id, agent hash, key,
/// base64 text of the value, timestamp.
pub type StoredRow = (i64, i64, Seq<char>, Seq<char>, i64);

/// The record that a row of the store's relation holds.
pub open spec fn stored(row: Seq<Value>) -> StoredRow {
    (int_of(row[0]), int_of(row[1]), text_of(row[2]), text_of(row[3]), int_of(row[4]))
}

/// The row has the store's five columns: two integers, two texts, an
/// integer.
pub open spec fn row_shaped(row: Seq<Value>) -> bool {
    &&& row.len() == 5
    &&& row[0] is Int
    &&& row[1] is Int
    &&& row[2] is Text
    &&& row[3] is Text
    &&& row[4] is Int
}

/// The attributes of the store's relation.
pub open spec fn store_schema() -> Seq<Seq<char>> {
    seq!["id"@, "agent_id_hash"@, "key"@, "value"@, "timestamp"@]
}

/// Among the first `n` records, the one for agent hash `h` and key `k` with
/// the greatest timestamp; of several with that timestamp, the last.
pub open spec fn latest_match(v: Seq<StoredRow>, h: i64, k: Seq<char>, n: int) -> Option<int>
    decreases n,
{
    if n <= 0 {
        None
    } else {
        let p = latest_match(v, h, k, n - 1);
        if v[n - 1].1 == h && v[n - 1].2 == k {
            match p {
                None => Some(n - 1),
                Some(j) => if v[j].4 <= v[n - 1].4 {
                    Some(n - 1)
                } else {
                    p
                },
            }
        } else {
            p
        }
    }
}

/// The key, decoded value and timestamp of each of the first `n` records
/// for agent hash `h`, in order.
pub open spec fn entries_for(v: Seq<StoredRow>, h: i64, n: int) -> Seq<(Seq<char>, Seq<u8>, u64)>
    decreases n,
{
    if n <= 0 {
        Seq::empty()
    } else {
        let p = entries_for(v, h, n - 1);
        if v[n - 1].1 == h {
            p.push((v[n - 1].2, base64_bytes(vstd::utf8::encode_utf8(v[n - 1].3)), v[n - 1].4 as u64))
        } else {
            p
        }
    }
}

/// A record of an agent's state.
#[derive(Debug, Clone)]
pub struct AgentRecord {
    pub agent_id: String,
    pub key: String,
    pub value: Vec<u8>,
    pub timestamp: u64,
    pub metadata: StrMap<String>,
}

/// A record as the specifications see it.
pub open spec fn record_view(a: AgentRecord) -> (Seq<char>, Seq<char>, Seq<u8>, u64, Map<Seq<char>, String>) {
    (a.agent_id@, a.key@, a.value@, a.timestamp, a.metadata@)
}

/// The record that `query` makes of a stored row: the agent named after its
/// hash, the key, the decoded value, the timestamp, no metadata.
pub open spec fn record_of(s: StoredRow) -> (Seq<char>, Seq<char>, Seq<u8>, u64, Map<Seq<char>, String>) {
    (
        "agent_"@ + decimal_text(s.1 as nat),
        s.2,
        base64_bytes(vstd::utf8::encode_utf8(s.3)),
        s.4 as u64,
        Map::empty(),
    )
}

/// Agents' state kept as a relation with attributes `id`, `agent_id_hash`,
/// `key`, `value` (base64 text) and `timestamp`, a B-tree from agent hash to
/// the last value stored for it, and a hash index from record id to key.
#[derive(Debug)]
pub struct AgentStateStore {
    agent_index: BTree,
    key_index: ChainedHashTable,
    table: Relation,
    next_id: i64,
}

impl View for AgentStateStore {
    type V = Seq<StoredRow>;

    /// The records in the order they were stored.
    closed spec fn view(&self) -> Seq<StoredRow> {
        rows(self.table.tuples@).map_values(|row: Seq<Value>| stored(row))
    }
}

impl AgentStateStore {
    /// The relation that holds the records.
    pub closed spec fn relation(&self) -> Relation {
        self.table
    }

    /// The pairs of the index on agent hash.
    pub closed spec fn agent_entries(&self) -> Seq<Entry> {
        self.agent_index@
    }

    /// The index from record id to the bytes of the record's key.
    pub closed spec fn key_entries(&self) -> Map<i64, Seq<u8>> {
        self.key_index@
    }

    /// The id the next record gets.
    pub closed spec fn next_id(&self) -> i64 {
        self.next_id
    }

    /// Record `i` has the store's columns, id `i + 1`, a nonnegative agent
    /// hash, and its key's bytes under its id in the key index.
    closed spec fn row_ok(&self, i: int) -> bool {
        let row = self.table.tuples@[i].values@;
        &&& row_shaped(row)
        &&& int_of(row[0]) == i + 1
        &&& int_of(row[1]) >= 0
        &&& self.key_index@.dom().contains((i + 1) as i64)
        &&& self.key_index@[(i + 1) as i64] == vstd::utf8::encode_utf8(text_of(row[2]))
    }

    /// The indexes are well formed, the relation has the store's attributes,
    /// every record is as `row_ok` says, and the key index holds exactly the
    /// ids below the next one.
    pub closed spec fn wf(&self) -> bool {
        &&& self.agent_index.wf()
        &&& self.key_index.wf()
        &&& self.key_index.cap() == 64
        &&& names(self.table.schema@) == store_schema()
        &&& forall|i: int| 0 <= i < self.table.tuples@.len() ==> #[trigger] self.row_ok(i)
        &&& self.next_id == self.table.tuples@.len() + 1
        &&& self.key_index@.len() == self.table.tuples@.len()
        &&& forall|k: i64| #[trigger] self.key_index@.dom().contains(k) ==> 1 <= k < self.next_id
    }

    /// Under `wf`, the view and the relation agree row by row.
    proof fn lemma_view(&self)
        requires
            self.wf(),
        ensures
            self@.len() == self.table.tuples@.len(),
            forall|i: int| 0 <= i < self@.len() ==> #[trigger] self@[i] == stored(self.table.tuples@[i].values@),
            self.next_id == self@.len() + 1,
    {
    }

    /// An empty store.
    pub fn new() -> (r: Self)
        ensures
            r.wf(),
            r@ == Seq::<StoredRow>::empty(),
            r.next_id() == 1,
            names(r.relation().schema@) == store_schema(),
            r.agent_entries() == Seq::<Entry>::empty(),
            r.key_entries() == Map::<i64, Seq<u8>>::empty(),
    {
        let schema = vec![
            String::from_str("id"),
            String::from_str("agent_id_hash"),
            String::from_str("key"),
            String::from_str("value"),
            String::from_str("timestamp"),
        ];
        let table = Relation::new(schema);
        let key_index = ChainedHashTable::new(64);
        proof {
            assert(names(table.schema@) =~= store_schema());
            assert(key_index@.dom() =~= Set::<i64>::empty());
        }
        let r = AgentStateStore { agent_index: BTree::new(), key_index, table, next_id: 1 };
        proof {
            assert(r@ =~= Seq::<StoredRow>::empty());
        }
        r
    }

    /// The agent hash of `s`: the absolute value of its djb2 hash.
    fn hash_string(&self, s: &str) -> (r: i64)
        requires
            djb2(s.spec_bytes()) != i64::MIN,
        ensures
            r == agent_hash(s.spec_bytes()),
            r >= 0,
    {
        let bytes = s.as_bytes();
        let mut hash: i64 = 5381;
        let mut i: usize = 0;
        while i < bytes.len()
            invariant
                i <= bytes@.len(),
                bytes@ == s.spec_bytes(),
                hash == djb2(bytes@.subrange(0, i as int)),
            decreases bytes@.len() - i,
        {
            proof {
                assert(bytes@.subrange(0, i as int + 1).drop_last() =~= bytes@.subrange(0, i as int));
                assert(bytes@.subrange(0, i as int + 1).last() == bytes@[i as int]);
            }
            hash = hash.wrapping_mul(33).wrapping_add(bytes[i] as i64);
            i += 1;
        }
        proof {
            assert(bytes@.subrange(0, i as int) =~= bytes@);
        }
        if hash < 0 {
            -hash
        } else {
            hash
        }
    }

    /// Stores `value` under `key` for the agent `agent_id`, as a new record
    /// with the next id; the agent index then maps the agent's hash to
    /// `value`, and the key index maps the new id to the key's bytes.
    pub fn put(&mut self, agent_id: &str, key: &str, value: Vec<u8>, timestamp: u64)
        requires
            old(self).wf(),
            djb2(agent_id.spec_bytes()) != i64::MIN,
            old(self).next_id() < i64::MAX,
            old(self)@.len() < usize::MAX,
        ensures
            final(self).wf(),
            final(self)@ == old(self)@.push(
                (old(self).next_id(), agent_hash(agent_id.spec_bytes()), key@, base64_text(value@), #[verifier::truncate] (timestamp as i64)),
            ),
            final(self).next_id() == old(self).next_id() + 1,
            final(self).agent_entries() == entries_insert(old(self).agent_entries(), agent_hash(agent_id.spec_bytes()), value@),
            final(self).key_entries() == old(self).key_entries().insert(old(self).next_id(), key.spec_bytes()),
            final(self).relation().schema@ == old(self).relation().schema@,
    {
        proof {
            self.lemma_view();
        }
        let ghost old_view = self@;
        let id = self.next_id;
        let h = self.hash_string(agent_id);
        self.agent_index.insert(h, clone_bytes(&value));
        self.key_index.insert(id, key.as_bytes_vec());
        let encoded = base64_encode(value.as_slice());
        let ts = #[verifier::truncate] (timestamp as i64);
        let key_text = key.to_owned();
        let ghost key_copy = key_text;
        let row = vec![Value::Int(id), Value::Int(h), Value::Text(key_text), Value::Text(encoded), Value::Int(ts)];
        let ghost row_view = row@;
        self.table.tuples.push(Tuple::new(row));
        self.next_id = id + 1;
        proof {
            let n = old_view.len();
            assert(self.table.tuples@.len() == n + 1);
            assert(self.table.tuples@[n as int].values@ == row_view);
            assert(!old(self).key_index@.dom().contains(id));
            old(self).key_index.lemma_finite();
            assert(self.key_index@.dom() == old(self).key_index@.dom().insert(id));
            assert forall|i: int| 0 <= i < self.table.tuples@.len() implies #[trigger] self.row_ok(i) by {
                if i < n {
                    assert(old(self).row_ok(i));
                    assert(self.table.tuples@[i] == old(self).table.tuples@[i]);
                    assert((i + 1) as i64 != id);
                } else {
                    assert(self.table.tuples@[i].values@[2] == Value::Text(key_copy));
                    assert((i + 1) as i64 == id);
                }
            }
            assert(self@ =~= old_view.push((id, h, key@, base64_text(value@), #[verifier::truncate] (timestamp as i64)))) by {
                assert forall|i: int| 0 <= i < self@.len() implies #[trigger] self@[i] == old_view.push((id, h, key@, base64_text(value@), #[verifier::truncate] (timestamp as i64)))[i] by {
                    if i < n {
                        assert(self.table.tuples@[i] == old(self).table.tuples@[i]);
                    }
                }
            }
        }
    }

    /// The value last stored for `key` of the agent `agent_id`: of its
    /// records, the one with the greatest timestamp (the last of equals),
    /// decoded; `None` when there is none.
    pub fn get(&self, agent_id: &str, key: &str) -> (r: Option<Vec<u8>>)
        requires
            self.wf(),
            djb2(agent_id.spec_bytes()) != i64::MIN,
        ensures
            match latest_match(self@, agent_hash(agent_id.spec_bytes()), key@, self@.len() as int) {
                None => r is None,
                Some(j) => r matches Some(v) && v@ == base64_bytes(vstd::utf8::encode_utf8(self@[j].3)),
            },
    {
        proof {
            self.lemma_view();
        }
        let h = self.hash_string(agent_id);
        let key_s = key.to_owned();
        let mut best: Option<usize> = None;
        let mut best_ts: i64 = 0;
        let mut i: usize = 0;
        while i < self.table.tuples.len()
            invariant
                self.wf(),
                self@.len() == self.table.tuples@.len(),
                forall|j: int| 0 <= j < self@.len() ==> #[trigger] self@[j] == stored(self.table.tuples@[j].values@),
                i <= self@.len(),
                h == agent_hash(agent_id.spec_bytes()),
                key_s@ == key@,
                match best {
                    None => latest_match(self@, h, key@, i as int) is None,
                    Some(j) => latest_match(self@, h, key@, i as int) == Some(j as int) && j < i && best_ts == self@[j as int].4,
                },
            decreases self@.len() - i,
        {
            proof {
                assert(self.row_ok(i as int));
            }
            let t = &self.table.tuples[i];
            if let Value::Int(x) = &t.values[1] {
                if *x == h {
                    if let Value::Text(s) = &t.values[2] {
                        if *s == key_s {
                            if let Value::Int(ts) = &t.values[4] {
                                if best.is_none() || best_ts <= *ts {
                                    best = Some(i);
                                    best_ts = *ts;
                                }
                            }
                        }
                    }
                }
            }
            i += 1;
        }
        match best {
            None => None,
            Some(j) => {
                proof {
                    assert(self.row_ok(j as int));
                }
                match &self.table.tuples[j].values[3] {
                    Value::Text(enc) => Some(base64_decode(enc.as_str())),
                    _ => None,
                }
            },
        }
    }

    /// The key, decoded value and timestamp of every record of the agent
    /// `agent_id`, in the order they were stored.
    pub fn get_all(&self, agent_id: &str) -> (r: Vec<(String, Vec<u8>, u64)>)
        requires
            self.wf(),
            djb2(agent_id.spec_bytes()) != i64::MIN,
        ensures
            r@.map_values(|e: (String, Vec<u8>, u64)| (e.0@, e.1@, e.2)) == entries_for(self@, agent_hash(agent_id.spec_bytes()), self@.len() as int),
    {
        proof {
            self.lemma_view();
        }
        let h = self.hash_string(agent_id);
        let mut out: Vec<(String, Vec<u8>, u64)> = Vec::new();
        let mut i: usize = 0;
        while i < self.table.tuples.len()
            invariant
                self.wf(),
                self@.len() == self.table.tuples@.len(),
                forall|j: int| 0 <= j < self@.len() ==> #[trigger] self@[j] == stored(self.table.tuples@[j].values@),
                i <= self@.len(),
                h == agent_hash(agent_id.spec_bytes()),
                out@.map_values(|e: (String, Vec<u8>, u64)| (e.0@, e.1@, e.2)) == entries_for(self@, h, i as int),
            decreases self@.len() - i,
        {
            proof {
                assert(self.row_ok(i as int));
            }
            let ghost before = out@;
            let t = &self.table.tuples[i];
            if let Value::Int(x) = &t.values[1] {
                if *x == h {
                    if let (Value::Text(k), Value::Text(enc), Value::Int(ts)) = (&t.values[2], &t.values[3], &t.values[4]) {
                        let e = (k.clone(), base64_decode(enc.as_str()), #[verifier::truncate] (*ts as u64));
                        out.push(e);
                        proof {
                            assert(out@.map_values(|e: (String, Vec<u8>, u64)| (e.0@, e.1@, e.2)) =~= before.map_values(|e: (String, Vec<u8>, u64)| (e.0@, e.1@, e.2)).push((e.0@, e.1@, e.2)));
                        }
                    }
                }
            }
            i += 1;
        }
        out
    }

    /// The records of the tuples for which `predicate` holds, in order: each
    /// names its agent `agent_` and the agent hash, and has the key, the
    /// decoded value, the timestamp and no metadata.
    pub fn query<F>(&self, predicate: F) -> (r: Vec<AgentRecord>)
        where
            F: Fn(&Tuple, &[String]) -> bool,
        requires
            self.wf(),
            forall|i: int, sl: &[String]| 0 <= i < self.relation().tuples@.len() && sl@ == self.relation().schema@ ==> call_requires(predicate, (&self.relation().tuples@[i], sl)),
        ensures
            exists|keep: Seq<bool>| #[trigger] keep.len() == self.relation().tuples@.len()
                && (forall|i: int| 0 <= i < self.relation().tuples@.len() ==> #[trigger] predicate_gave(predicate, &self.relation().tuples@[i], self.relation().schema@, keep[i]))
                && r@.map_values(|a: AgentRecord| record_view(a)) == kept_rows(rows(self.relation().tuples@), keep).map_values(|row: Seq<Value>| record_of(stored(row))),
    {
        proof {
            assert forall|i: int, sl: &[String]| 0 <= i < self.table.tuples@.len() && sl@ == self.table.schema@ implies call_requires(predicate, (&self.table.tuples@[i], sl)) by {
                assert(self.relation().tuples@[i] == self.table.tuples@[i]);
            }
        }
        let result = self.table.select(predicate);
        let ghost keep = choose|keep: Seq<bool>| #[trigger] keep.len() == self.table.tuples@.len()
            && (forall|i: int| 0 <= i < self.table.tuples@.len() ==> #[trigger] predicate_gave(predicate, &self.table.tuples@[i], self.table.schema@, keep[i]))
            && rows(result.tuples@) == kept_rows(rows(self.table.tuples@), keep);
        let ghost kept = kept_rows(rows(self.table.tuples@), keep);
        proof {
            assert forall|j: int| 0 <= j < kept.len() implies row_shaped(#[trigger] kept[j]) && int_of(kept[j][1]) >= 0 by {
                lemma_kept_rows_member(rows(self.table.tuples@), keep, j);
                let m = choose|m: int| 0 <= m < rows(self.table.tuples@).len() && kept[j] == rows(self.table.tuples@)[m];
                assert(self.row_ok(m));
            }
            lemma2_to64();
        }
        let mut out: Vec<AgentRecord> = Vec::new();
        let mut i: usize = 0;
        while i < result.tuples.len()
            invariant
                i <= result.tuples@.len(),
                rows(result.tuples@) == kept,
                forall|j: int| 0 <= j < kept.len() ==> row_shaped(#[trigger] kept[j]) && int_of(kept[j][1]) >= 0,
                out@.map_values(|a: AgentRecord| record_view(a)) == kept.subrange(0, i as int).map_values(|row: Seq<Value>| record_of(stored(row))),
            decreases result.tuples@.len() - i,
        {
            let t = &result.tuples[i];
            proof {
                assert(kept[i as int] == t.values@);
                assert(row_shaped(t.values@));
            }
            let ghost before = out@;
            if let (Value::Int(h), Value::Text(k), Value::Text(enc), Value::Int(ts)) = (&t.values[1], &t.values[2], &t.values[3], &t.values[4]) {
                let mut agent_id = String::from_str("agent_");
                let digits = u64_text(#[verifier::truncate] (*h as u64));
                agent_id.append(digits.as_str());
                let record = AgentRecord {
                    agent_id,
                    key: k.clone(),
                    value: base64_decode(enc.as_str()),
                    timestamp: #[verifier::truncate] (*ts as u64),
                    metadata: StrMap::new(),
                };
                out.push(record);
                proof {
                    assert(kept.subrange(0, i as int + 1) =~= kept.subrange(0, i as int).push(t.values@));
                    assert(out@.map_values(|a: AgentRecord| record_view(a)) =~= before.map_values(|a: AgentRecord| record_view(a)).push(record_of(stored(t.values@))));
                }
            }
            i += 1;
        }
        proof {
            assert(kept.subrange(0, i as int) =~= kept);
        }
        out
    }

    /// π over the store's relation: the given columns of every record, each
    /// resulting tuple once.
    pub fn project(&self, columns: &[&str]) -> (r: Relation)
        requires
            self.wf(),
            forall|k: int| 0 <= k < columns@.len() ==> names(self.relation().schema@).contains(#[trigger] columns@[k]@),
        ensures
            names(r.schema@) == columns@.map_values(|c: &str| c@),
            rows(r.tuples@) == add_all_distinct(Seq::empty(), pick_each(rows(self.relation().tuples@), col_positions(names(self.relation().schema@), columns@.map_values(|c: &str| c@)))),
    {
        proof {
            assert forall|t: int, k: int| 0 <= t < self.table.tuples@.len() && 0 <= k < columns@.len() implies first_index(names(self.table.schema@), (#[trigger] columns@[k])@) < (#[trigger] self.table.tuples@[t]).values@.len() by {
                lemma_first_index(names(self.table.schema@), columns@[k]@);
                assert(self.row_ok(t));
            }
        }
        self.table.project(columns)
    }

    /// ⋈ of the store's relation with `other`.
    pub fn join(&self, other: &Relation) -> (r: Relation)
        requires
            self.wf(),
            common_upto(names(self.relation().schema@), names(other.schema@), self.relation().schema@.len() as int).len() > 0
                ==> rows_cover(rows(other.tuples@), other.schema@.len() as int),
        ensures
            common_upto(names(self.relation().schema@), names(other.schema@), self.relation().schema@.len() as int).len() == 0 ==> {
                &&& r.schema@ == self.relation().schema@ + other.schema@
                &&& rows(r.tuples@) == cross_rows(rows(self.relation().tuples@), rows(other.tuples@))
            },
            common_upto(names(self.relation().schema@), names(other.schema@), self.relation().schema@.len() as int).len() > 0 ==> {
                &&& names(r.schema@) == names(self.relation().schema@) + extras_upto(names(self.relation().schema@), names(other.schema@), other.schema@.len() as int).map_values(|j: int| names(other.schema@)[j])
                &&& rows(r.tuples@) == join_rows(rows(self.relation().tuples@), rows(other.tuples@), common_upto(names(self.relation().schema@), names(other.schema@), self.relation().schema@.len() as int), extras_upto(names(self.relation().schema@), names(other.schema@), other.schema@.len() as int))
            },
    {
        proof {
            assert forall|i: int| 0 <= i < rows(self.table.tuples@).len() implies (#[trigger] rows(self.table.tuples@)[i]).len() >= self.table.schema@.len() by {
                assert(self.row_ok(i));
                assert(rows(self.table.tuples@)[i] == self.table.tuples@[i].values@);
                assert(names(self.table.schema@).len() == self.table.schema@.len());
            }
        }
        self.table.join(other)
    }

    /// The number of records.
    pub fn len(&self) -> (r: usize)
        ensures
            r == self@.len(),
    {
        self.table.cardinality()
    }

    /// Whether the store holds no record.
    pub fn is_empty(&self) -> (r: bool)
        ensures
            r == (self@.len() == 0),
    {
        self.table.cardinality() == 0
    }
}

/// Reading after a write: when a record for agent hash `h` and key `key` is
/// appended whose timestamp is at least that of every earlier record for
/// them, it is the one `get` picks, and its value decodes to what was
/// written.
pub proof fn lemma_read_after_write(before: Seq<StoredRow>, id: i64, h: i64, key: Seq<char>, value: Seq<u8>, ts: i64)
    requires
        forall|j: int| 0 <= j < before.len() && (#[trigger] before[j]).1 == h && before[j].2 == key ==> before[j].4 <= ts,
    ensures
        latest_match(before.push((id, h, key, base64_text(value), ts)), h, key, before.len() + 1 as int) == Some(before.len() as int),
        base64_bytes(vstd::utf8::encode_utf8(before.push((id, h, key, base64_text(value), ts))[before.len() as int].3)) == value,
{
    let after = before.push((id, h, key, base64_text(value), ts));
    lemma_latest_match_prefix(before, after, h, key, before.len() as int);
    lemma_latest_match_bound(before, h, key, before.len() as int, ts);
    lemma_base64_roundtrip(value);
}

/// Records for other agents or keys do not change what `get` picks.
pub proof fn lemma_other_write(before: Seq<StoredRow>, row: StoredRow, h: i64, key: Seq<char>)
    requires
        row.1 != h || row.2 != key,
    ensures
        latest_match(before.push(row), h, key, before.len() + 1 as int) == latest_match(before, h, key, before.len() as int),
{
    lemma_latest_match_prefix(before, before.push(row), h, key, before.len() as int);
}

/// `latest_match` over the first `n` records depends on those records only.
proof fn lemma_latest_match_prefix(a: Seq<StoredRow>, b: Seq<StoredRow>, h: i64, k: Seq<char>, n: int)
    requires
        0 <= n <= a.len(),
        n <= b.len(),
        forall|j: int| 0 <= j < n ==> a[j] == b[j],
    ensures
        latest_match(a, h, k, n) == latest_match(b, h, k, n),
        latest_match(a, h, k, n) matches Some(j) ==> 0 <= j < n && a[j].1 == h && a[j].2 == k,
    decreases n,
{
    if n > 0 {
        lemma_latest_match_prefix(a, b, h, k, n - 1);
    }
}

/// The record that `latest_match` picks has a timestamp no smaller than that
/// of any record it looked at for the same agent hash and key.
proof fn lemma_latest_match_bound(v: Seq<StoredRow>, h: i64, k: Seq<char>, n: int, ts: i64)
    requires
        0 <= n <= v.len(),
        forall|j: int| 0 <= j < n && (#[trigger] v[j]).1 == h && v[j].2 == k ==> v[j].4 <= ts,
    ensures
        latest_match(v, h, k, n) matches Some(j) ==> v[j].4 <= ts,
    decreases n,
{
    if n > 0 {
        lemma_latest_match_bound(v, h, k, n - 1, ts);
        lemma_latest_match_prefix(v, v, h, k, n - 1);
    }
}

/// Every row that `kept_rows` keeps is a row of `rs`.
proof fn lemma_kept_rows_member(rs: Seq<Seq<Value>>, keep: Seq<bool>, j: int)
    requires
        0 <= j < kept_rows(rs, keep).len(),
    ensures
        exists|m: int| 0 <= m < rs.len() && kept_rows(rs, keep)[j] == rs[m],
    decreases rs.len(),
{
    if rs.len() > 0 && keep.len() > 0 {
        let p = kept_rows(rs.drop_last(), keep.drop_last());
        if keep.last() && j == p.len() {
            assert(kept_rows(rs, keep)[j] == rs[rs.len() - 1]);
        } else {
            assert(kept_rows(rs, keep)[j] == p[j]);
            lemma_kept_rows_member(rs.drop_last(), keep.drop_last(), j);
            let m = choose|m: int| 0 <= m < rs.drop_last().len() && p[j] == rs.drop_last()[m];
            assert(rs.drop_last()[m] == rs[m]);
        }
    }
}

} // verus!

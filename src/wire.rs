//! The MessagePack building blocks of the wire format: unsigned integers,
//! UTF-8 strings and array headers, each in its shortest form.
//!
//! Every reader states both directions: what it accepts is exactly an
//! encoding of what it returns, and where it refuses, no encoding of any
//! value starts there.

use vstd::prelude::*;
use vstd::utf8::{decode_utf8, encode_utf8, valid_utf8};

verus! {

broadcast use vstd::utf8::encode_utf8_valid_utf8, vstd::utf8::encode_utf8_decode_utf8;

/// The bytes of `b` from position `pos` on.
pub open spec fn rest(b: Seq<u8>, pos: int) -> Seq<u8> {
    b.subrange(pos, b.len() as int)
}

/// `s` begins with the bytes `p`.
#[verifier::opaque]
pub open spec fn begins(s: Seq<u8>, p: Seq<u8>) -> bool {
    p.is_prefix_of(s)
}

pub open spec fn pow256(n: nat) -> nat
    decreases n,
{
    if n == 0 {
        1
    } else {
        256 * pow256((n - 1) as nat)
    }
}

/// `v` in `n` bytes, most significant first.
pub open spec fn be_bytes(v: nat, n: nat) -> Seq<u8>
    decreases n,
{
    if n == 0 {
        seq![]
    } else {
        be_bytes(v / 256, (n - 1) as nat).push((v % 256) as u8)
    }
}

/// The number that the bytes `b` spell, most significant first.
pub open spec fn be_value(b: Seq<u8>) -> nat
    decreases b.len(),
{
    if b.len() == 0 {
        0
    } else {
        (be_value(b.drop_last()) * 256 + b.last()) as nat
    }
}

proof fn lemma_pow256_facts()
    ensures
        pow256(1) == 256,
        pow256(2) == 65536,
        pow256(4) == 4294967296,
        pow256(8) == 18446744073709551616,
{
    reveal_with_fuel(pow256, 9);
}

proof fn lemma_be_len(v: nat, n: nat)
    ensures
        be_bytes(v, n).len() == n,
    decreases n,
{
    if n > 0 {
        lemma_be_len(v / 256, (n - 1) as nat);
    }
}

/// Reading back what was written in `n` bytes gives the number.
proof fn lemma_be_round_trip(v: nat, n: nat)
    requires
        v < pow256(n),
    ensures
        be_value(be_bytes(v, n)) == v,
        be_bytes(v, n).len() == n,
    decreases n,
{
    lemma_be_len(v, n);
    if n > 0 {
        let p = pow256((n - 1) as nat);
        assert(v / 256 < p) by (nonlinear_arith)
            requires
                v < 256 * p,
        ;
        lemma_be_round_trip(v / 256, (n - 1) as nat);
        let b = be_bytes(v, n);
        assert(b.drop_last() == be_bytes(v / 256, (n - 1) as nat));
        assert(b.last() == (v % 256) as u8);
        assert(v == (v / 256) * 256 + v % 256) by (nonlinear_arith);
    }
}

/// Any `n` bytes are the encoding of the number they spell.
proof fn lemma_be_canonical(b: Seq<u8>)
    ensures
        be_value(b) < pow256(b.len()),
        be_bytes(be_value(b), b.len()) == b,
    decreases b.len(),
{
    if b.len() > 0 {
        let d = b.drop_last();
        lemma_be_canonical(d);
        let x = be_value(d);
        let v = be_value(b);
        let p = pow256(d.len());
        assert(v == x * 256 + b.last());
        assert(v / 256 == x && v % 256 == b.last()) by (nonlinear_arith)
            requires
                v == x * 256 + b.last(),
                0 <= b.last() < 256,
                x >= 0,
        ;
        assert(v < 256 * p) by (nonlinear_arith)
            requires
                v == x * 256 + b.last(),
                b.last() < 256,
                x < p,
        ;
        assert(b.len() - 1 == d.len());
        assert(be_bytes(v, b.len()) =~= be_bytes(x, d.len()).push((v % 256) as u8));
        assert(b =~= d.push(b.last()));
    }
}

/// Appends `v` in `n` bytes, most significant first.
fn write_be(out: &mut Vec<u8>, v: u64, n: usize)
    requires
        n <= 8,
        v < pow256(n as nat),
    ensures
        final(out)@ == old(out)@ + be_bytes(v as nat, n as nat),
    decreases n,
{
    if n > 0 {
        proof {
            let p = pow256((n - 1) as nat);
            assert(v / 256 < p) by (nonlinear_arith)
                requires
                    v < 256 * p,
            ;
        }
        write_be(out, v / 256, n - 1);
        out.push((v % 256) as u8);
        assert(be_bytes(v as nat, n as nat) == be_bytes((v / 256) as nat, (n - 1) as nat).push((v % 256) as u8));
        assert(final(out)@ =~= old(out)@ + be_bytes(v as nat, n as nat));
    } else {
        assert(final(out)@ =~= old(out)@ + be_bytes(v as nat, n as nat));
    }
}

proof fn lemma_pow256_monotone(i: nat, j: nat)
    requires
        i <= j,
    ensures
        pow256(i) <= pow256(j),
    decreases j,
{
    if i < j {
        lemma_pow256_monotone(i, (j - 1) as nat);
    }
}

/// The number spelled by the `n` bytes of `b` at `pos`.
fn read_be(b: &[u8], pos: usize, n: usize) -> (r: u64)
    requires
        n <= 8,
        pos + n <= b@.len(),
    ensures
        r == be_value(b@.subrange(pos as int, pos + n)),
{
    let len = b.len();
    let mut acc: u64 = 0;
    let mut i: usize = 0;
    while i < n
        invariant
            len == b@.len(),
            i <= n <= 8,
            pos + n <= b@.len(),
            acc == be_value(b@.subrange(pos as int, pos + i)),
            acc < pow256(i as nat),
        decreases n - i,
    {
        proof {
            lemma_pow256_facts();
            lemma_pow256_monotone((i + 1) as nat, 8);
            let s = b@.subrange(pos as int, pos + i + 1);
            assert(s.drop_last() =~= b@.subrange(pos as int, pos + i));
            assert(s.last() == b@[pos + i]);
            assert(acc * 256 + b@[pos + i] < 256 * pow256(i as nat)) by (nonlinear_arith)
                requires
                    acc < pow256(i as nat),
                    b@[pos + i] < 256,
            ;
        }
        acc = acc * 256 + b[pos + i] as u64;
        i += 1;
    }
    acc
}

/// Width in bytes of the big-endian payload that follows the marker of `v`.
pub open spec fn uint_width(v: u64) -> nat {
    if v < 128 {
        0
    } else if v < 256 {
        1
    } else if v < 65536 {
        2
    } else if v < 4294967296 {
        4
    } else {
        8
    }
}

pub open spec fn uint_marker(width: nat) -> u8 {
    if width == 1 {
        0xcc
    } else if width == 2 {
        0xcd
    } else if width == 4 {
        0xce
    } else {
        0xcf
    }
}

/// The shortest MessagePack encoding of an unsigned integer.
pub open spec fn uint_bytes(v: u64) -> Seq<u8> {
    if v < 128 {
        seq![v as u8]
    } else {
        seq![uint_marker(uint_width(v))] + be_bytes(v as nat, uint_width(v))
    }
}

proof fn lemma_uint_shape(v: u64)
    ensures
        uint_bytes(v).len() == 1 + uint_width(v),
        v < 128 ==> uint_bytes(v)[0] == v,
        v >= 128 ==> uint_bytes(v)[0] == uint_marker(uint_width(v)) && be_value(
            uint_bytes(v).subrange(1, 1 + uint_width(v) as int),
        ) == v,
        v >= 128 ==> v < pow256(uint_width(v)),
{
    lemma_pow256_facts();
    if v >= 128 {
        lemma_be_round_trip(v as nat, uint_width(v));
        assert(uint_bytes(v).subrange(1, 1 + uint_width(v) as int) =~= be_bytes(v as nat, uint_width(v)));
    }
}

/// Two integers whose encodings both begin `s` are the same integer.
pub proof fn lemma_uint_unique(v: u64, w: u64, s: Seq<u8>)
    requires
        begins(s, uint_bytes(v)),
        begins(s, uint_bytes(w)),
    ensures
        v == w,
{
    reveal(begins);
    lemma_uint_shape(v);
    lemma_uint_shape(w);
    assert(uint_bytes(v)[0] == s[0]);
    assert(uint_bytes(w)[0] == s[0]);
    if v >= 128 && w >= 128 {
        let n = uint_width(v) as int;
        assert(uint_width(w) == n);
        assert(uint_bytes(v).subrange(1, 1 + n as int) =~= s.subrange(1, 1 + n as int));
        assert(uint_bytes(w).subrange(1, 1 + n as int) =~= s.subrange(1, 1 + n as int));
    }
}

/// Appends the shortest encoding of `v`.
pub fn write_uint(out: &mut Vec<u8>, v: u64)
    ensures
        final(out)@ == old(out)@ + uint_bytes(v),
{
    proof {
        lemma_pow256_facts();
    }
    if v < 128 {
        out.push(v as u8);
        assert(final(out)@ =~= old(out)@ + uint_bytes(v));
    } else {
        let n: usize = if v < 256 {
            1
        } else if v < 65536 {
            2
        } else if v < 4294967296 {
            4
        } else {
            8
        };
        let marker: u8 = if n == 1 {
            0xcc
        } else if n == 2 {
            0xcd
        } else if n == 4 {
            0xce
        } else {
            0xcf
        };
        out.push(marker);
        write_be(out, v, n);
        assert(final(out)@ =~= old(out)@ + uint_bytes(v));
    }
}

/// Reads an unsigned integer at `pos`, and the position after it.
pub fn parse_uint(b: &[u8], pos: usize) -> (r: Option<(u64, usize)>)
    requires
        pos <= b@.len(),
    ensures
        match r {
            Some((v, end)) => pos < end <= b@.len() && b@.subrange(pos as int, end as int) == uint_bytes(v),
            None => forall|v: u64| !begins(rest(b@, pos as int), (#[trigger] uint_bytes(v))),
        },
{
    proof {
        reveal(begins);
    }
    proof {
        lemma_pow256_facts();
    }
    let ghost s = rest(b@, pos as int);
    if pos >= b.len() {
        assert forall|v: u64| !begins(s, (#[trigger] uint_bytes(v))) by {
            lemma_uint_shape(v);
        }
        return None;
    }
    let m = b[pos];
    assert(s[0] == m);
    if m < 128 {
        assert(b@.subrange(pos as int, pos + 1) =~= uint_bytes(m as u64));
        return Some((m as u64, pos + 1));
    }
    let n: usize = if m == 0xcc {
        1
    } else if m == 0xcd {
        2
    } else if m == 0xce {
        4
    } else if m == 0xcf {
        8
    } else {
        assert forall|v: u64| !begins(s, (#[trigger] uint_bytes(v))) by {
            lemma_uint_shape(v);
            if begins(s, uint_bytes(v)) {
                assert(uint_bytes(v)[0] == s[0]);
            }
        }
        return None;
    };
    let lower: u64 = if n == 1 {
        128
    } else if n == 2 {
        256
    } else if n == 4 {
        65536
    } else {
        4294967296
    };
    if b.len() - pos - 1 < n {
        assert forall|v: u64| !begins(s, (#[trigger] uint_bytes(v))) by {
            lemma_uint_shape(v);
            if begins(s, uint_bytes(v)) {
                assert(uint_bytes(v)[0] == s[0]);
            }
        }
        return None;
    }
    let v = read_be(b, pos + 1, n);
    proof {
        lemma_be_canonical(b@.subrange(pos + 1, pos + 1 + n));
    }
    if v < lower {
        assert forall|w: u64| !begins(s, (#[trigger] uint_bytes(w))) by {
            lemma_uint_shape(w);
            if begins(s, uint_bytes(w)) {
                assert(uint_bytes(w)[0] == s[0]);
                assert(uint_bytes(w).subrange(1, 1 + n as int) =~= b@.subrange(pos + 1, pos + 1 + n));
            }
        }
        return None;
    }
    assert(uint_width(v) == n);
    assert(b@.subrange(pos as int, pos + 1 + n) =~= uint_bytes(v));
    Some((v, pos + 1 + n))
}

/// Width of the length field of a string header for length `n`.
pub open spec fn str_len_width(n: nat) -> nat {
    if n < 32 {
        0
    } else if n < 256 {
        1
    } else if n < 65536 {
        2
    } else {
        4
    }
}

pub open spec fn str_marker(width: nat) -> u8 {
    if width == 1 {
        0xd9
    } else if width == 2 {
        0xda
    } else {
        0xdb
    }
}

/// The shortest MessagePack header of a string of `n` bytes.
pub open spec fn str_header(n: nat) -> Seq<u8> {
    if n < 32 {
        seq![(0xa0 + n) as u8]
    } else {
        seq![str_marker(str_len_width(n))] + be_bytes(n, str_len_width(n))
    }
}

proof fn lemma_str_header_shape(n: nat)
    requires
        n < 4294967296,
    ensures
        str_header(n).len() == 1 + str_len_width(n),
        n < 32 ==> str_header(n)[0] == 0xa0 + n,
        n >= 32 ==> str_header(n)[0] == str_marker(str_len_width(n)) && be_value(
            str_header(n).subrange(1, 1 + str_len_width(n) as int),
        ) == n,
{
    lemma_pow256_facts();
    if n >= 32 {
        lemma_be_round_trip(n, str_len_width(n));
        assert(str_header(n).subrange(1, 1 + str_len_width(n) as int) =~= be_bytes(n, str_len_width(n)));
    }
}

proof fn lemma_str_header_unique(n: nat, m: nat, s: Seq<u8>)
    requires
        n < 4294967296,
        m < 4294967296,
        begins(s, str_header(n)),
        begins(s, str_header(m)),
    ensures
        n == m,
{
    reveal(begins);
    lemma_str_header_shape(n);
    lemma_str_header_shape(m);
    assert(str_header(n)[0] == s[0]);
    assert(str_header(m)[0] == s[0]);
    if n >= 32 && m >= 32 {
        let w = str_len_width(n) as int;
        assert(str_len_width(m) == w);
        assert(str_header(n).subrange(1, 1 + w) =~= s.subrange(1, 1 + w));
        assert(str_header(m).subrange(1, 1 + w) =~= s.subrange(1, 1 + w));
    }
}

fn write_str_header(out: &mut Vec<u8>, n: usize)
    requires
        n < 4294967296,
    ensures
        final(out)@ == old(out)@ + str_header(n as nat),
{
    proof {
        lemma_pow256_facts();
    }
    if n < 32 {
        out.push((0xa0 + n) as u8);
        assert(final(out)@ =~= old(out)@ + str_header(n as nat));
    } else {
        let w: usize = if n < 256 {
            1
        } else if n < 65536 {
            2
        } else {
            4
        };
        let marker: u8 = if w == 1 {
            0xd9
        } else if w == 2 {
            0xda
        } else {
            0xdb
        };
        out.push(marker);
        write_be(out, n as u64, w);
        assert(final(out)@ =~= old(out)@ + str_header(n as nat));
    }
}

/// Reads a string header at `pos`: the string's length and where its bytes start.
fn parse_str_header(b: &[u8], pos: usize) -> (r: Option<(usize, usize)>)
    requires
        pos <= b@.len(),
    ensures
        match r {
            Some((n, end)) => pos < end <= b@.len() && n < 4294967296 && b@.subrange(pos as int, end as int)
                == str_header(n as nat),
            None => forall|n: nat| n < 4294967296 ==> !begins(rest(b@, pos as int), (#[trigger] str_header(n))),
        },
{
    proof {
        reveal(begins);
    }
    proof {
        lemma_pow256_facts();
    }
    let ghost s = rest(b@, pos as int);
    if pos >= b.len() {
        assert forall|n: nat| n < 4294967296 implies !begins(s, (#[trigger] str_header(n))) by {
            lemma_str_header_shape(n);
        }
        return None;
    }
    let m = b[pos];
    assert(s[0] == m);
    if 0xa0 <= m && m <= 0xbf {
        let n = (m - 0xa0) as usize;
        assert(b@.subrange(pos as int, pos + 1) =~= str_header(n as nat));
        return Some((n, pos + 1));
    }
    let w: usize = if m == 0xd9 {
        1
    } else if m == 0xda {
        2
    } else if m == 0xdb {
        4
    } else {
        assert forall|n: nat| n < 4294967296 implies !begins(s, (#[trigger] str_header(n))) by {
            lemma_str_header_shape(n);
            if begins(s, str_header(n)) {
                assert(str_header(n)[0] == s[0]);
            }
        }
        return None;
    };
    let lower: u64 = if w == 1 {
        32
    } else if w == 2 {
        256
    } else {
        65536
    };
    if b.len() - pos - 1 < w {
        assert forall|n: nat| n < 4294967296 implies !begins(s, (#[trigger] str_header(n))) by {
            lemma_str_header_shape(n);
            if begins(s, str_header(n)) {
                assert(str_header(n)[0] == s[0]);
            }
        }
        return None;
    }
    let n = read_be(b, pos + 1, w);
    proof {
        lemma_be_canonical(b@.subrange(pos + 1, pos + 1 + w));
    }
    if n < lower {
        assert forall|k: nat| k < 4294967296 implies !begins(s, (#[trigger] str_header(k))) by {
            lemma_str_header_shape(k);
            if begins(s, str_header(k)) {
                assert(str_header(k)[0] == s[0]);
                assert(str_header(k).subrange(1, 1 + w as int) =~= b@.subrange(pos + 1, pos + 1 + w));
            }
        }
        return None;
    }
    assert(str_len_width(n as nat) == w);
    assert(b@.subrange(pos as int, pos + 1 + w) =~= str_header(n as nat));
    Some((n as usize, pos + 1 + w))
}

/// Width of the length field of an array header for `n` items.
pub open spec fn array_len_width(n: nat) -> nat {
    if n < 16 {
        0
    } else if n < 65536 {
        2
    } else {
        4
    }
}

/// The shortest MessagePack header of an array of `n` items.
pub open spec fn array_header(n: nat) -> Seq<u8> {
    if n < 16 {
        seq![(0x90 + n) as u8]
    } else if n < 65536 {
        seq![0xdcu8] + be_bytes(n, 2)
    } else {
        seq![0xddu8] + be_bytes(n, 4)
    }
}

proof fn lemma_array_header_shape(n: nat)
    requires
        n < 4294967296,
    ensures
        array_header(n).len() == 1 + array_len_width(n),
        n < 16 ==> array_header(n)[0] == 0x90 + n,
        n >= 16 ==> array_header(n)[0] == (if n < 65536 { 0xdcu8 } else { 0xddu8 }) && be_value(
            array_header(n).subrange(1, 1 + array_len_width(n) as int),
        ) == n,
{
    lemma_pow256_facts();
    if n >= 16 {
        lemma_be_round_trip(n, array_len_width(n));
        assert(array_header(n).subrange(1, 1 + array_len_width(n) as int) =~= be_bytes(n, array_len_width(n)));
    }
}

pub proof fn lemma_array_header_unique(n: nat, m: nat, s: Seq<u8>)
    requires
        n < 4294967296,
        m < 4294967296,
        begins(s, array_header(n)),
        begins(s, array_header(m)),
    ensures
        n == m,
{
    reveal(begins);
    lemma_array_header_shape(n);
    lemma_array_header_shape(m);
    assert(array_header(n)[0] == s[0]);
    assert(array_header(m)[0] == s[0]);
    if n >= 16 && m >= 16 {
        let w = array_len_width(n) as int;
        assert(array_len_width(m) == w);
        assert(array_header(n).subrange(1, 1 + w) =~= s.subrange(1, 1 + w));
        assert(array_header(m).subrange(1, 1 + w) =~= s.subrange(1, 1 + w));
    }
}

pub fn write_array_header(out: &mut Vec<u8>, n: usize)
    requires
        n < 4294967296,
    ensures
        final(out)@ == old(out)@ + array_header(n as nat),
{
    proof {
        lemma_pow256_facts();
    }
    if n < 16 {
        out.push((0x90 + n) as u8);
    } else if n < 65536 {
        out.push(0xdc);
        write_be(out, n as u64, 2);
    } else {
        out.push(0xdd);
        write_be(out, n as u64, 4);
    }
    assert(final(out)@ =~= old(out)@ + array_header(n as nat));
}

/// Reads an array header at `pos`: the number of items and where the first starts.
pub fn parse_array_header(b: &[u8], pos: usize) -> (r: Option<(usize, usize)>)
    requires
        pos <= b@.len(),
    ensures
        match r {
            Some((n, end)) => pos < end <= b@.len() && n < 4294967296 && b@.subrange(pos as int, end as int)
                == array_header(n as nat),
            None => forall|n: nat| n < 4294967296 ==> !begins(rest(b@, pos as int), (#[trigger] array_header(n))),
        },
{
    proof {
        reveal(begins);
    }
    proof {
        lemma_pow256_facts();
    }
    let ghost s = rest(b@, pos as int);
    if pos >= b.len() {
        assert forall|n: nat| n < 4294967296 implies !begins(s, (#[trigger] array_header(n))) by {
            lemma_array_header_shape(n);
        }
        return None;
    }
    let m = b[pos];
    assert(s[0] == m);
    if 0x90 <= m && m <= 0x9f {
        let n = (m - 0x90) as usize;
        assert(b@.subrange(pos as int, pos + 1) =~= array_header(n as nat));
        return Some((n, pos + 1));
    }
    let w: usize = if m == 0xdc {
        2
    } else if m == 0xdd {
        4
    } else {
        assert forall|n: nat| n < 4294967296 implies !begins(s, (#[trigger] array_header(n))) by {
            lemma_array_header_shape(n);
            if begins(s, array_header(n)) {
                assert(array_header(n)[0] == s[0]);
            }
        }
        return None;
    };
    let lower: u64 = if w == 2 {
        16
    } else {
        65536
    };
    if b.len() - pos - 1 < w {
        assert forall|n: nat| n < 4294967296 implies !begins(s, (#[trigger] array_header(n))) by {
            lemma_array_header_shape(n);
            if begins(s, array_header(n)) {
                assert(array_header(n)[0] == s[0]);
            }
        }
        return None;
    }
    let n = read_be(b, pos + 1, w);
    proof {
        lemma_be_canonical(b@.subrange(pos + 1, pos + 1 + w));
    }
    if n < lower {
        assert forall|k: nat| k < 4294967296 implies !begins(s, (#[trigger] array_header(k))) by {
            lemma_array_header_shape(k);
            if begins(s, array_header(k)) {
                assert(array_header(k)[0] == s[0]);
                assert(array_header(k).subrange(1, 1 + w as int) =~= b@.subrange(pos + 1, pos + 1 + w));
            }
        }
        return None;
    }
    assert(array_len_width(n as nat) == w);
    assert(b@.subrange(pos as int, pos + 1 + w) =~= array_header(n as nat));
    Some((n as usize, pos + 1 + w))
}

/// A string whose UTF-8 form is short enough for a string header.
pub open spec fn str_fits(s: Seq<char>) -> bool {
    encode_utf8(s).len() < 4294967296
}

/// A string on the wire: its header, then its UTF-8 bytes.
pub open spec fn str_bytes(s: Seq<char>) -> Seq<u8> {
    str_header(encode_utf8(s).len()) + encode_utf8(s)
}

/// Two strings whose encodings both begin `b` are the same string.
pub proof fn lemma_str_unique(s: Seq<char>, t: Seq<char>, b: Seq<u8>)
    requires
        str_fits(s),
        str_fits(t),
        begins(b, str_bytes(s)),
        begins(b, str_bytes(t)),
    ensures
        s == t,
{
    reveal(begins);
    let es = encode_utf8(s);
    let et = encode_utf8(t);
    let hs = str_header(es.len());
    let ht = str_header(et.len());
    assert(begins(b, hs)) by {
        assert(b.subrange(0, hs.len() as int) =~= str_bytes(s).subrange(0, hs.len() as int));
    }
    assert(begins(b, ht)) by {
        assert(b.subrange(0, ht.len() as int) =~= str_bytes(t).subrange(0, ht.len() as int));
    }
    lemma_str_header_unique(es.len(), et.len(), b);
    let h = hs.len() as int;
    assert(str_bytes(s) =~= b.subrange(0, str_bytes(s).len() as int));
    assert(str_bytes(t) =~= b.subrange(0, str_bytes(t).len() as int));
    assert(str_bytes(s).subrange(h, h + es.len()) =~= es);
    assert(str_bytes(t).subrange(h, h + et.len()) =~= et);
    assert(es =~= b.subrange(h, h + es.len()));
    assert(et =~= b.subrange(h, h + et.len()));
    assert(decode_utf8(es) == s);
    assert(decode_utf8(et) == t);
}

/// Relies on `String::from_utf8`: it accepts exactly the byte sequences that
/// are well-formed UTF-8, and the string it returns holds the characters they
/// encode.
#[verifier::external_body]
fn string_from_utf8(bytes: Vec<u8>) -> (r: Option<String>)
    ensures
        valid_utf8(bytes@) <==> r is Some,
        r matches Some(s) ==> s@ == decode_utf8(bytes@),
{
    String::from_utf8(bytes).ok()
}

/// Appends the encoding of `s`; refuses, appending nothing, a string too long for a header.
pub fn write_str(out: &mut Vec<u8>, s: &String) -> (ok: bool)
    ensures
        ok == str_fits(s@),
        ok ==> final(out)@ == old(out)@ + str_bytes(s@),
        !ok ==> final(out)@ == old(out)@,
{
    let bytes = s.as_str().as_bytes();
    assert(bytes@ == encode_utf8(s@));
    let n = bytes.len();
    if n as u64 >= 4294967296 {
        return false;
    }
    write_str_header(out, n);
    let ghost start = out@;
    let mut i: usize = 0;
    while i < n
        invariant
            i <= n == bytes@.len(),
            out@ == start + bytes@.subrange(0, i as int),
        decreases n - i,
    {
        out.push(bytes[i]);
        assert(bytes@.subrange(0, i + 1) =~= bytes@.subrange(0, i as int).push(bytes@[i as int]));
        i += 1;
    }
    assert(bytes@.subrange(0, n as int) =~= bytes@);
    assert(final(out)@ =~= old(out)@ + str_bytes(s@));
    true
}

/// Reads a string at `pos`, and the position after it.
pub fn parse_str(b: &[u8], pos: usize) -> (r: Option<(String, usize)>)
    requires
        pos <= b@.len(),
    ensures
        match r {
            Some((s, end)) => pos < end <= b@.len() && str_fits(s@) && b@.subrange(pos as int, end as int)
                == str_bytes(s@),
            None => forall|s: Seq<char>| str_fits(s) ==> !begins(rest(b@, pos as int), (#[trigger] str_bytes(s))),
        },
{
    proof {
        reveal(begins);
    }
    let ghost s = rest(b@, pos as int);
    let (n, start) = match parse_str_header(b, pos) {
        Some(h) => h,
        None => {
            assert forall|t: Seq<char>| str_fits(t) implies !begins(s, (#[trigger] str_bytes(t))) by {
                let h = str_header(encode_utf8(t).len());
                if begins(s, str_bytes(t)) {
                    assert(s.subrange(0, h.len() as int) =~= str_bytes(t).subrange(0, h.len() as int));
                    assert(begins(s, h));
                }
            }
            return None;
        },
    };
    let ghost h = b@.subrange(pos as int, start as int);
    proof {
        assert forall|t: Seq<char>| str_fits(t) && begins(s, (#[trigger] str_bytes(t))) implies encode_utf8(t).len()
            == n && encode_utf8(t) =~= b@.subrange(start as int, start + n) by {
            let et = encode_utf8(t);
            let st = str_bytes(t);
            let ht = str_header(et.len());
            assert(s.subrange(0, ht.len() as int) =~= st.subrange(0, ht.len() as int));
            assert(begins(s, ht));
            assert(s.subrange(0, h.len() as int) =~= h);
            lemma_str_header_unique(et.len(), n as nat, s);
            assert(ht == h);
            assert(st =~= s.subrange(0, st.len() as int));
            assert(st.subrange(ht.len() as int, st.len() as int) =~= et);
            assert(et =~= b@.subrange(start as int, start + n));
        }
    }
    if b.len() - start < n {
        return None;
    }
    let bytes = vstd::slice::slice_to_vec(&b[start..start + n]);
    assert(bytes@ == b@.subrange(start as int, start + n));
    match string_from_utf8(bytes) {
        Some(text) => {
            proof {
                vstd::utf8::decode_utf8_encode_utf8(b@.subrange(start as int, start + n));
            }
            assert(b@.subrange(pos as int, start + n) =~= str_bytes(text@));
            Some((text, start + n))
        },
        None => None,
    }
}

/// Where `a` then `r` begin `s`, `a` begins `s` and `r` begins what follows it.
pub proof fn lemma_peel(a: Seq<u8>, r: Seq<u8>, s: Seq<u8>)
    requires
        begins(s, (a + r)),
    ensures
        begins(s, a),
        begins(s.subrange(a.len() as int, s.len() as int), r),
{
    reveal(begins);
    assert(s.subrange(0, a.len() as int) =~= (a + r).subrange(0, a.len() as int));
    assert(s.subrange(a.len() as int, s.len() as int).subrange(0, r.len() as int) =~= (a + r).subrange(
        a.len() as int,
        (a + r).len() as int,
    ));
}

/// What follows position `k` of `rest(b, pos)` is what follows `pos + k` in `b`.
pub proof fn lemma_rest_rest(b: Seq<u8>, pos: int, k: int)
    requires
        0 <= pos <= b.len(),
        0 <= k <= b.len() - pos,
    ensures
        rest(b, pos).subrange(k, rest(b, pos).len() as int) == rest(b, pos + k),
{
    assert(rest(b, pos).subrange(k, rest(b, pos).len() as int) =~= rest(b, pos + k));
}

/// A prefix that `b` holds between `pos` and `end` begins `rest(b, pos)`.
pub proof fn lemma_span_prefix(b: Seq<u8>, pos: int, end: int)
    requires
        0 <= pos <= end <= b.len(),
    ensures
        begins(rest(b, pos), b.subrange(pos, end)),
{
    reveal(begins);
    assert(rest(b, pos).subrange(0, end - pos) =~= b.subrange(pos, end));
}

/// Where `a` then `r` begin `rest(b, pos)`, `a` begins it and `r` follows at `pos + a.len()`.
pub proof fn lemma_peel_at(a: Seq<u8>, r: Seq<u8>, b: Seq<u8>, pos: int)
    requires
        0 <= pos <= b.len(),
        begins(rest(b, pos), (a + r)),
    ensures
        begins(rest(b, pos), a),
        pos + a.len() <= b.len(),
        begins(rest(b, pos + a.len()), r),
{
    reveal(begins);
    lemma_peel(a, r, rest(b, pos));
    lemma_rest_rest(b, pos, a.len() as int);
}

/// What `begins` says of the first byte and the lengths.
pub proof fn lemma_begins_first(s: Seq<u8>, p: Seq<u8>)
    requires
        begins(s, p),
    ensures
        p.len() <= s.len(),
        p.len() > 0 ==> s[0] == p[0],
{
    reveal(begins);
    if p.len() > 0 {
        assert(s.subrange(0, p.len() as int)[0] == s[0]);
    }
}

proof fn lemma_utf8_len_bound(s: Seq<char>)
    ensures
        encode_utf8(s).len() <= 4 * s.len(),
    decreases s.len(),
{
    if s.len() > 0 {
        lemma_utf8_len_bound(s.drop_first());
    }
}

/// A short string always fits its header.
pub proof fn lemma_short_str_fits(s: Seq<char>)
    requires
        s.len() <= 1024,
    ensures
        str_fits(s),
{
    lemma_utf8_len_bound(s);
}

/// The first byte of a string's encoding is a string marker, never a map marker.
pub proof fn lemma_str_not_map(s: Seq<char>)
    requires
        str_fits(s),
    ensures
        str_bytes(s).len() > 0,
        str_bytes(s)[0] != 0x81,
{
    lemma_str_header_shape(encode_utf8(s).len());
}

/// A variant with data: a map of one entry from the variant's name to the data.
pub open spec fn tagged(tag: Seq<char>, payload: Seq<u8>) -> Seq<u8> {
    seq![0x81u8] + (str_bytes(tag) + payload)
}

/// A variant encoded at `pos` starts with the map marker and then its name.
proof fn lemma_tagged_start(tag: Seq<char>, payload: Seq<u8>, b: Seq<u8>, pos: int)
    requires
        0 <= pos <= b.len(),
        begins(rest(b, pos), tagged(tag, payload)),
    ensures
        pos < b.len(),
        b[pos] == 0x81,
        begins(rest(b, pos + 1), str_bytes(tag)),
{
    lemma_peel_at(seq![0x81u8], str_bytes(tag) + payload, b, pos);
    lemma_begins_first(rest(b, pos), seq![0x81u8]);
    lemma_peel_at(str_bytes(tag), payload, b, pos + 1);
}

/// Where a variant is encoded at `pos` and a name was read after the map
/// marker, the name is the variant's, and its data follows.
proof fn lemma_tagged_payload(tag: Seq<char>, payload: Seq<u8>, b: Seq<u8>, pos: int, t: Seq<char>, at1: int)
    requires
        0 <= pos < pos + 1 <= at1 <= b.len(),
        begins(rest(b, pos), tagged(tag, payload)),
        str_fits(tag),
        str_fits(t),
        b.subrange(pos + 1, at1) == str_bytes(t),
    ensures
        t == tag,
        begins(rest(b, at1), payload),
{
    lemma_peel_at(seq![0x81u8], str_bytes(tag) + payload, b, pos);
    lemma_peel_at(str_bytes(tag), payload, b, pos + 1);
    lemma_span_prefix(b, pos + 1, at1);
    lemma_str_unique(tag, t, rest(b, pos + 1));
}

/// Where a variant without data is encoded at `pos`, the first byte is no
/// map marker, and a name read there is the variant's.
proof fn lemma_unit_tag(tag: Seq<char>, b: Seq<u8>, pos: int, t: Seq<char>, at1: int)
    requires
        0 <= pos <= b.len(),
        begins(rest(b, pos), str_bytes(tag)),
        str_fits(tag),
    ensures
        pos < b.len(),
        b[pos] != 0x81,
        str_fits(t) && pos <= at1 <= b.len() && b.subrange(pos, at1) == str_bytes(t) ==> t == tag,
{
    lemma_str_not_map(tag);
    lemma_begins_first(rest(b, pos), str_bytes(tag));
    if str_fits(t) && pos <= at1 <= b.len() && b.subrange(pos, at1) == str_bytes(t) {
        lemma_span_prefix(b, pos, at1);
        lemma_str_unique(tag, t, rest(b, pos));
    }
}

/// Two variants whose encodings both begin `s`: same name, and the data of
/// one begins what follows the name exactly where the other's does.
proof fn lemma_tagged_unique(t1: Seq<char>, d1: Seq<u8>, t2: Seq<char>, d2: Seq<u8>, s: Seq<u8>)
    requires
        str_fits(t1),
        str_fits(t2),
        begins(s, tagged(t1, d1)),
        begins(s, tagged(t2, d2)),
    ensures
        t1 == t2,
        begins(s.subrange(1 + str_bytes(t1).len() as int, s.len() as int), d1),
        begins(s.subrange(1 + str_bytes(t1).len() as int, s.len() as int), d2),
{
    reveal(begins);
    lemma_peel(seq![0x81u8], str_bytes(t1) + d1, s);
    lemma_peel(seq![0x81u8], str_bytes(t2) + d2, s);
    let s1 = s.subrange(1, s.len() as int);
    lemma_peel(str_bytes(t1), d1, s1);
    lemma_peel(str_bytes(t2), d2, s1);
    lemma_str_unique(t1, t2, s1);
    assert(s1.subrange(str_bytes(t1).len() as int, s1.len() as int) =~= s.subrange(
        1 + str_bytes(t1).len() as int,
        s.len() as int,
    ));
}

/// A variant with data and one without never begin the same bytes.
proof fn lemma_tagged_not_unit(t1: Seq<char>, d1: Seq<u8>, t2: Seq<char>, s: Seq<u8>)
    requires
        str_fits(t2),
    ensures
        !(begins(s, tagged(t1, d1)) && begins(s, str_bytes(t2))),
{
    lemma_str_not_map(t2);
    if begins(s, tagged(t1, d1)) && begins(s, str_bytes(t2)) {
        lemma_begins_first(s, tagged(t1, d1));
        lemma_begins_first(s, str_bytes(t2));
    }
}

/// Reads a name and compares it with `tag`.
pub fn is_tag(t: &String, tag: &str) -> (r: bool)
    ensures
        r == (t@ == tag@),
{
    *t == tag.to_owned()
}

/// Every byte string begins with itself.
pub proof fn lemma_begins_self(s: Seq<u8>)
    ensures
        begins(s, s),
{
    reveal(begins);
    assert(s.subrange(0, s.len() as int) =~= s);
}

/// A variant of an enum on the wire: with data, a map of one entry from its
/// name to the data; without, its name alone.
pub open spec fn variant_bytes(tag: Seq<char>, payload: Option<Seq<u8>>) -> Seq<u8> {
    match payload {
        Some(d) => tagged(tag, d),
        None => str_bytes(tag),
    }
}

/// What a variant encoded at `pos` says of the bytes there: whether a map
/// marker starts them, where its name is, and, once a name `t` has been read
/// after it, that `t` is the variant's name and where its data begins.
pub proof fn lemma_variant_at(tag: Seq<char>, payload: Option<Seq<u8>>, b: Seq<u8>, pos: int, t: Seq<char>, at1: int)
    requires
        0 <= pos <= b.len(),
        str_fits(tag),
        begins(rest(b, pos), variant_bytes(tag, payload)),
    ensures
        pos < b.len(),
        payload is Some <==> b[pos] == 0x81,
        payload is Some ==> begins(rest(b, pos + 1), str_bytes(tag)),
        payload is None ==> begins(rest(b, pos), str_bytes(tag)),
        payload is Some && str_fits(t) && pos + 1 <= at1 <= b.len() && b.subrange(pos + 1, at1) == str_bytes(t) ==> t == tag
            && begins(rest(b, at1), payload->0),
        payload is None && str_fits(t) && pos <= at1 <= b.len() && b.subrange(pos, at1) == str_bytes(t) ==> t == tag,
{
    match payload {
        Some(d) => {
            lemma_tagged_start(tag, d, b, pos);
            if str_fits(t) && pos + 1 <= at1 <= b.len() && b.subrange(pos + 1, at1) == str_bytes(t) {
                lemma_tagged_payload(tag, d, b, pos, t, at1);
            }
        },
        None => {
            lemma_unit_tag(tag, b, pos, t, at1);
        },
    }
}

/// Two variants whose encodings both begin `s` have the same name, both or
/// neither carry data, and their data begin the same bytes.
pub proof fn lemma_variant_unique(t1: Seq<char>, d1: Option<Seq<u8>>, t2: Seq<char>, d2: Option<Seq<u8>>, s: Seq<u8>)
    requires
        str_fits(t1),
        str_fits(t2),
        begins(s, variant_bytes(t1, d1)),
        begins(s, variant_bytes(t2, d2)),
    ensures
        t1 == t2,
        d1 is Some <==> d2 is Some,
        d1 is Some ==> begins(s.subrange(1 + str_bytes(t1).len() as int, s.len() as int), d1->0) && begins(
            s.subrange(1 + str_bytes(t1).len() as int, s.len() as int),
            d2->0,
        ),
{
    match (d1, d2) {
        (Some(a), Some(c)) => lemma_tagged_unique(t1, a, t2, c, s),
        (Some(a), None) => lemma_tagged_not_unit(t1, a, t2, s),
        (None, Some(c)) => lemma_tagged_not_unit(t2, c, t1, s),
        (None, None) => lemma_str_unique(t1, t2, s),
    }
}

} // verus!

//! Byte-level utilities: big-endian pack/unpack and the length-prefix
//! arithmetic that the chunk framing relies on.

use vstd::prelude::*;

verus! {

/// Width in bytes of a dictionary element's payload.
pub const ELEM_BYTES: usize = 2;
/// Half an element: how far the reader rewinds on a miss.
pub const ELEM_HALF: usize = 1;
/// Number of distinct two-byte values.
pub const NR_ELEMS: usize = 65536;
/// Capacity of one dictionary: indices must fit in seven bits.
pub const VALUES: usize = 128;
/// Highest raw-byte count that a short miss descriptor can carry plus one.
pub const VALUES_HALF: usize = 64;
/// Upper bound on the span of input bytes one dictionary pair covers.
pub const CHUNK_MAX_SIZE: u64 = 790000;
/// A two-byte value must occur at least this often to enter a dictionary.
pub const MIN_OCCATIONS: u64 = 4;

/// 256 to the power `n`.
pub open spec fn pow256(n: nat) -> nat
    decreases n,
{
    if n == 0 {
        1
    } else {
        256 * pow256((n - 1) as nat)
    }
}

/// Number of bytes needed to hold `v` in big-endian: zero for zero,
/// otherwise one more than for `v / 256`.
pub open spec fn spec_bytes_to_rep(v: nat) -> nat
    decreases v,
{
    if v == 0 {
        0
    } else {
        1 + spec_bytes_to_rep(v / 256)
    }
}

/// The low `n` bytes of `v`, big-endian.
pub open spec fn spec_be_bytes(v: nat, n: nat) -> Seq<u8>
    decreases n,
{
    if n == 0 {
        Seq::<u8>::empty()
    } else {
        spec_be_bytes(v / 256, (n - 1) as nat).push((v % 256) as u8)
    }
}

/// The value of a big-endian byte string.
pub open spec fn spec_be_val(s: Seq<u8>) -> nat
    decreases s.len(),
{
    if s.len() == 0 {
        0
    } else {
        spec_be_val(s.drop_last()) * 256 + s.last() as nat
    }
}

/// `256^8` is one past the largest `u64`.
pub proof fn lemma_pow256_value()
    ensures
        pow256(8) == 0x1_0000_0000_0000_0000,
{
    reveal_with_fuel(pow256, 9);
}

pub proof fn lemma_pow256_pos(n: nat)
    ensures
        pow256(n) >= 1,
    decreases n,
{
    if n > 0 {
        lemma_pow256_pos((n - 1) as nat);
    }
}

/// A value always fits in the byte count that `spec_bytes_to_rep` gives it.
pub proof fn lemma_bytes_to_rep_fits(v: nat)
    ensures
        v < pow256(spec_bytes_to_rep(v)),
    decreases v,
{
    if v > 0 {
        lemma_bytes_to_rep_fits(v / 256);
    }
}

/// Values below `256^n` need at most `n` bytes.
pub proof fn lemma_bytes_to_rep_le(v: nat, n: nat)
    requires
        v < pow256(n),
    ensures
        spec_bytes_to_rep(v) <= n,
    decreases v,
{
    if v > 0 {
        if n == 0 {
        } else {
            lemma_bytes_to_rep_le(v / 256, (n - 1) as nat);
        }
    }
}

pub proof fn lemma_be_bytes_len(v: nat, n: nat)
    ensures
        spec_be_bytes(v, n).len() == n,
    decreases n,
{
    if n > 0 {
        lemma_be_bytes_len(v / 256, (n - 1) as nat);
    }
}

/// A big-endian byte string denotes a value below `256^len`.
pub proof fn lemma_be_val_bound(s: Seq<u8>)
    ensures
        spec_be_val(s) < pow256(s.len()),
    decreases s.len(),
{
    if s.len() > 0 {
        lemma_be_val_bound(s.drop_last());
    }
}

/// Unpacking inverts packing whenever the value fits in the byte count.
pub proof fn lemma_be_roundtrip(v: nat, n: nat)
    requires
        v < pow256(n),
    ensures
        spec_be_val(spec_be_bytes(v, n)) == v,
    decreases n,
{
    if n == 0 {
    } else {
        let rest = spec_be_bytes(v / 256, (n - 1) as nat);
        assert(spec_be_bytes(v, n).drop_last() =~= rest);
        lemma_be_roundtrip(v / 256, (n - 1) as nat);
    }
}

/// Peeling the leading (most significant) byte off a big-endian string.
pub proof fn lemma_be_bytes_unfold_front(v: nat, n: nat)
    ensures
        spec_be_bytes(v, n + 1) =~= seq![((v / pow256(n)) % 256) as u8] + spec_be_bytes(v, n),
    decreases n,
{
    if n == 0 {
        reveal_with_fuel(spec_be_bytes, 3);
        assert(pow256(0) == 1);
        assert(v / 1 == v);
        assert(spec_be_bytes(v, 1) =~= Seq::<u8>::empty().push((v % 256) as u8));
        assert(spec_be_bytes(v, 1) =~= seq![((v / pow256(0)) % 256) as u8] + spec_be_bytes(v, 0));
    } else {
        let m = (n - 1) as nat;
        lemma_be_bytes_unfold_front(v / 256, m);
        assert(v / 256 / pow256(m) == v / pow256(n)) by {
            lemma_pow256_pos(m);
            vstd::arithmetic::div_mod::lemma_div_denominator(v as int, 256, pow256(m) as int);
        }
        let head = seq![((v / pow256(n)) % 256) as u8];
        assert(spec_be_bytes(v, n + 1) =~= spec_be_bytes(v / 256, n).push((v % 256) as u8));
        assert(spec_be_bytes(v / 256, n) =~= head + spec_be_bytes(v / 256, m));
        assert((head + spec_be_bytes(v / 256, m)).push((v % 256) as u8) =~= head + spec_be_bytes(
            v / 256,
            m,
        ).push((v % 256) as u8));
        assert(spec_be_bytes(v, n) =~= spec_be_bytes(v / 256, m).push((v % 256) as u8));
    }
}

/// Number of bytes needed to hold a non-negative integer in big-endian.
pub fn bytes_to_rep(value: usize) -> (r: u8)
    ensures
        r == spec_bytes_to_rep(value as nat),
        r <= 8,
{
    let mut v: u64 = value as u64;
    let mut n: u8 = 0;
    proof {
        lemma_pow256_value();
        lemma_bytes_to_rep_le(value as nat, 8);
    }
    while v > 0
        invariant
            spec_bytes_to_rep(value as nat) == n + spec_bytes_to_rep(v as nat),
            n + spec_bytes_to_rep(v as nat) <= 8,
        decreases v,
    {
        v = v / 256;
        n = n + 1;
    }
    n
}

/// Packs the low `bytes` bytes of `value`, big-endian, most significant first.
pub fn val_to_u8_vec(value: usize, bytes: u8) -> (r: Vec<u8>)
    ensures
        r@ =~= spec_be_bytes(value as nat, bytes as nat),
        r@.len() == bytes,
{
    let mut out: Vec<u8> = Vec::new();
    let v0: u64 = value as u64;
    let mut v: u64 = v0;
    let mut i: u8 = 0;
    proof {
        lemma_be_bytes_len(value as nat, 0);
        assert(pow256(0) == 1);
        assert(v0 as nat / 1 == v0 as nat);
    }
    while i < bytes
        invariant
            i <= bytes,
            v == v0 as nat / pow256(i as nat),
            out@ =~= spec_be_bytes(v0 as nat, i as nat),
            out@.len() == i,
        decreases bytes - i,
    {
        let b: u8 = (v % 256) as u8;
        proof {
            lemma_be_bytes_unfold_front(v0 as nat, i as nat);
            lemma_pow256_pos(i as nat);
            vstd::arithmetic::div_mod::lemma_div_denominator(v0 as int, pow256(i as nat) as int, 256);
            lemma_be_bytes_len(v0 as nat, (i + 1) as nat);
        }
        out.insert(0, b);
        v = v / 256;
        i = i + 1;
    }
    proof {
        assert(value as u64 as nat == value as nat);
    }
    out
}

/// Unpacks a four-byte big-endian length field.
pub fn u8_vec_to_u32(s: &[u8; 4]) -> (r: u32)
    ensures
        r == spec_be_val(s@),
{
    let r: u32 = ((s[0] as u32) * 0x1000000) + ((s[1] as u32) * 0x10000) + ((s[2] as u32) * 0x100)
        + (s[3] as u32);
    proof {
        let q = s@;
        reveal_with_fuel(spec_be_val, 5);
        assert(q.drop_last() =~= seq![q[0], q[1], q[2]]);
        assert(q.drop_last().drop_last() =~= seq![q[0], q[1]]);
        assert(q.drop_last().drop_last().drop_last() =~= seq![q[0]]);
        assert(seq![q[0]].drop_last() =~= Seq::<u8>::empty());
        assert(spec_be_val(q) == ((q[0] as nat * 256 + q[1] as nat) * 256 + q[2] as nat) * 256
            + q[3] as nat);
    }
    r
}

/// Unpacks a big-endian unsigned integer of one to eight bytes.
pub fn u8_vec_to_u64(s: &Vec<u8>) -> (r: u64)
    requires
        1 <= s@.len() <= 8,
    ensures
        r == spec_be_val(s@),
{
    let mut val: u64 = 0;
    let mut i: usize = 0;
    proof {
        assert(s@.take(0) =~= Seq::<u8>::empty());
        lemma_pow256_value();
    }
    while i < s.len()
        invariant
            i <= s@.len() <= 8,
            val == spec_be_val(s@.take(i as int)),
            val < pow256(i as nat),
            pow256(8) == 0x1_0000_0000_0000_0000,
        decreases s@.len() - i,
    {
        proof {
            assert(s@.take(i + 1).drop_last() =~= s@.take(i as int));
            lemma_be_val_bound(s@.take(i + 1));
            assert(pow256((i + 1) as nat) <= pow256(8)) by {
                lemma_pow256_mono((i + 1) as nat, 8);
            }
        }
        val = val * 256 + (s[i] as u64);
        i = i + 1;
    }
    proof {
        assert(s@.take(s@.len() as int) =~= s@);
    }
    val
}

pub proof fn lemma_pow256_mono(a: nat, b: nat)
    requires
        a <= b,
    ensures
        pow256(a) <= pow256(b),
    decreases b,
{
    if a < b {
        lemma_pow256_mono(a, (b - 1) as nat);
        lemma_pow256_pos((b - 1) as nat);
    }
}

/// Byte-size comparison of two files, given their lengths.
pub fn file_is_larger(len_a: u64, len_b: u64) -> (r: bool)
    ensures
        r == (len_a > len_b),
{
    len_a > len_b
}

/// Printable form of one byte: the character itself when it is ASCII,
/// its decimal value otherwise.
pub fn u8_to_string(val: u8) -> String {
    if val < 0x80 {
        let c: char = val as char;
        c.to_string()
    } else {
        val.to_string()
    }
}

} // verus!

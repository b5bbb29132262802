//! SHA-256 (FIPS 180-4), for hashing write keys and deriving seal keys.
//!
//! The specification follows the standard's definitions: padding, the
//! message schedule, the 64 rounds of the compression function and the
//! chaining of blocks. The executable code is proved to compute exactly it.

use vstd::prelude::*;
use crate::util::{hex_encode, hex_text};
use vstd::utf8::*;

verus! {

/// The eight working words of the hash state.
#[derive(Clone, Copy, Debug)]
pub struct Words {
    pub a: u32,
    pub b: u32,
    pub c: u32,
    pub d: u32,
    pub e: u32,
    pub f: u32,
    pub g: u32,
    pub h: u32,
}

// ---- the standard's functions -------------------------------------------------------

/// Addition modulo 2^32.
pub open spec fn add32(x: u32, y: u32) -> u32 {
    if x + y > u32::MAX {
        (x + y - 0x1_0000_0000) as u32
    } else {
        (x + y) as u32
    }
}

/// Rotate right by `n`, for `0 < n < 32`.
pub open spec fn rotr(x: u32, n: u32) -> u32 {
    (x >> n) | (x << ((32 - n) as u32))
}

pub open spec fn big_sigma0(x: u32) -> u32 {
    rotr(x, 2) ^ rotr(x, 13) ^ rotr(x, 22)
}

pub open spec fn big_sigma1(x: u32) -> u32 {
    rotr(x, 6) ^ rotr(x, 11) ^ rotr(x, 25)
}

pub open spec fn small_sigma0(x: u32) -> u32 {
    rotr(x, 7) ^ rotr(x, 18) ^ (x >> 3u32)
}

pub open spec fn small_sigma1(x: u32) -> u32 {
    rotr(x, 17) ^ rotr(x, 19) ^ (x >> 10u32)
}

pub open spec fn choose_bits(x: u32, y: u32, z: u32) -> u32 {
    (x & y) ^ (!x & z)
}

pub open spec fn majority(x: u32, y: u32, z: u32) -> u32 {
    (x & y) ^ (x & z) ^ (y & z)
}

/// The round constants: the first 32 bits of the fractional parts of the
/// cube roots of the first 64 primes.
pub open spec fn round_constants() -> Seq<u32> {
    seq![
        0x428a2f98u32, 0x71374491u32, 0xb5c0fbcfu32, 0xe9b5dba5u32, 0x3956c25bu32, 0x59f111f1u32,
        0x923f82a4u32, 0xab1c5ed5u32, 0xd807aa98u32, 0x12835b01u32, 0x243185beu32, 0x550c7dc3u32,
        0x72be5d74u32, 0x80deb1feu32, 0x9bdc06a7u32, 0xc19bf174u32, 0xe49b69c1u32, 0xefbe4786u32,
        0x0fc19dc6u32, 0x240ca1ccu32, 0x2de92c6fu32, 0x4a7484aau32, 0x5cb0a9dcu32, 0x76f988dau32,
        0x983e5152u32, 0xa831c66du32, 0xb00327c8u32, 0xbf597fc7u32, 0xc6e00bf3u32, 0xd5a79147u32,
        0x06ca6351u32, 0x14292967u32, 0x27b70a85u32, 0x2e1b2138u32, 0x4d2c6dfcu32, 0x53380d13u32,
        0x650a7354u32, 0x766a0abbu32, 0x81c2c92eu32, 0x92722c85u32, 0xa2bfe8a1u32, 0xa81a664bu32,
        0xc24b8b70u32, 0xc76c51a3u32, 0xd192e819u32, 0xd6990624u32, 0xf40e3585u32, 0x106aa070u32,
        0x19a4c116u32, 0x1e376c08u32, 0x2748774cu32, 0x34b0bcb5u32, 0x391c0cb3u32, 0x4ed8aa4au32,
        0x5b9cca4fu32, 0x682e6ff3u32, 0x748f82eeu32, 0x78a5636fu32, 0x84c87814u32, 0x8cc70208u32,
        0x90befffau32, 0xa4506cebu32, 0xbef9a3f7u32, 0xc67178f2u32,
    ]
}

/// The initial hash value.
pub open spec fn initial_words() -> Words {
    Words {
        a: 0x6a09e667,
        b: 0xbb67ae85,
        c: 0x3c6ef372,
        d: 0xa54ff53a,
        e: 0x510e527f,
        f: 0x9b05688c,
        g: 0x1f83d9ab,
        h: 0x5be0cd19,
    }
}

// ---- padding ------------------------------------------------------------------------

/// Zero bytes between the `0x80` marker and the length, so that the padded
/// message is a whole number of 64-byte blocks.
pub open spec fn zero_count(n: nat) -> nat {
    ((119 - (n % 64) as int) % 64) as nat
}

/// The message length in bits, as the 64-bit field the padding carries.
pub open spec fn bit_length(n: nat) -> u64 {
    ((n * 8) % 0x1_0000_0000_0000_0000) as u64
}

/// A 64-bit value, big-endian.
pub open spec fn be64(x: u64) -> Seq<u8> {
    seq![
        ((x >> 56u64) & 0xffu64) as u8,
        ((x >> 48u64) & 0xffu64) as u8,
        ((x >> 40u64) & 0xffu64) as u8,
        ((x >> 32u64) & 0xffu64) as u8,
        ((x >> 24u64) & 0xffu64) as u8,
        ((x >> 16u64) & 0xffu64) as u8,
        ((x >> 8u64) & 0xffu64) as u8,
        (x & 0xffu64) as u8,
    ]
}

pub open spec fn zeros(n: nat) -> Seq<u8> {
    Seq::new(n, |i: int| 0u8)
}

/// The message, the `0x80` marker, the zero fill and the bit length.
pub open spec fn pad(m: Seq<u8>) -> Seq<u8> {
    m + seq![0x80u8] + zeros(zero_count(m.len())) + be64(bit_length(m.len()))
}

// ---- the compression function -------------------------------------------------------

/// The big-endian word at byte `j` of a block.
pub open spec fn word_at(block: Seq<u8>, j: int) -> u32 {
    ((block[j] as u32) << 24u32) | ((block[j + 1] as u32) << 16u32) | ((block[j + 2] as u32) << 8u32)
        | (block[j + 3] as u32)
}

/// Word `t` of the message schedule of a block.
pub open spec fn schedule_word(block: Seq<u8>, t: nat) -> u32
    decreases t,
{
    if t < 16 {
        word_at(block, (4 * t) as int)
    } else {
        add32(
            add32(
                add32(small_sigma1(schedule_word(block, (t - 2) as nat)), schedule_word(block, (t - 7) as nat)),
                small_sigma0(schedule_word(block, (t - 15) as nat)),
            ),
            schedule_word(block, (t - 16) as nat),
        )
    }
}

/// One round, with round constant `k` and schedule word `w`.
pub open spec fn round(s: Words, k: u32, w: u32) -> Words {
    let t1 = add32(add32(add32(add32(s.h, big_sigma1(s.e)), choose_bits(s.e, s.f, s.g)), k), w);
    let t2 = add32(big_sigma0(s.a), majority(s.a, s.b, s.c));
    Words { a: add32(t1, t2), b: s.a, c: s.b, d: s.c, e: add32(s.d, t1), f: s.e, g: s.f, h: s.g }
}

/// The working words after the first `t` rounds over a block.
pub open spec fn rounds(block: Seq<u8>, start: Words, t: nat) -> Words
    decreases t,
{
    if t == 0 {
        start
    } else {
        let i = (t - 1) as nat;
        round(rounds(block, start, i), round_constants()[i as int], schedule_word(block, i))
    }
}

pub open spec fn add_words(x: Words, y: Words) -> Words {
    Words {
        a: add32(x.a, y.a),
        b: add32(x.b, y.b),
        c: add32(x.c, y.c),
        d: add32(x.d, y.d),
        e: add32(x.e, y.e),
        f: add32(x.f, y.f),
        g: add32(x.g, y.g),
        h: add32(x.h, y.h),
    }
}

/// The hash value after one more block.
pub open spec fn compress(hv: Words, block: Seq<u8>) -> Words {
    add_words(hv, rounds(block, hv, 64))
}

/// Block `i` of a padded message.
pub open spec fn block_of(p: Seq<u8>, i: nat) -> Seq<u8> {
    p.subrange((64 * i) as int, (64 * i + 64) as int)
}

/// The hash value after the first `n` blocks.
pub open spec fn chain(p: Seq<u8>, n: nat) -> Words
    decreases n,
{
    if n == 0 {
        initial_words()
    } else {
        compress(chain(p, (n - 1) as nat), block_of(p, (n - 1) as nat))
    }
}

pub open spec fn word_bytes(w: u32) -> Seq<u8> {
    seq![
        (w >> 24u32) as u8,
        ((w >> 16u32) & 0xffu32) as u8,
        ((w >> 8u32) & 0xffu32) as u8,
        (w & 0xffu32) as u8,
    ]
}

pub open spec fn words_bytes(s: Words) -> Seq<u8> {
    word_bytes(s.a) + word_bytes(s.b) + word_bytes(s.c) + word_bytes(s.d) + word_bytes(s.e)
        + word_bytes(s.f) + word_bytes(s.g) + word_bytes(s.h)
}

/// The SHA-256 digest of a message: 32 bytes.
pub open spec fn sha256_spec(m: Seq<u8>) -> Seq<u8> {
    words_bytes(chain(pad(m), pad(m).len() / 64))
}

// ---- executable ---------------------------------------------------------------------

fn rotr_exec(x: u32, n: u32) -> (r: u32)
    requires
        0 < n < 32,
    ensures
        r == rotr(x, n),
{
    (x >> n) | (x << (32 - n))
}

fn big_sigma0_exec(x: u32) -> (r: u32)
    ensures
        r == big_sigma0(x),
{
    rotr_exec(x, 2) ^ rotr_exec(x, 13) ^ rotr_exec(x, 22)
}

fn big_sigma1_exec(x: u32) -> (r: u32)
    ensures
        r == big_sigma1(x),
{
    rotr_exec(x, 6) ^ rotr_exec(x, 11) ^ rotr_exec(x, 25)
}

fn small_sigma0_exec(x: u32) -> (r: u32)
    ensures
        r == small_sigma0(x),
{
    rotr_exec(x, 7) ^ rotr_exec(x, 18) ^ (x >> 3u32)
}

fn small_sigma1_exec(x: u32) -> (r: u32)
    ensures
        r == small_sigma1(x),
{
    rotr_exec(x, 17) ^ rotr_exec(x, 19) ^ (x >> 10u32)
}

fn round_exec(s: Words, k: u32, w: u32) -> (r: Words)
    ensures
        r == round(s, k, w),
{
    let ch = (s.e & s.f) ^ (!s.e & s.g);
    let maj = (s.a & s.b) ^ (s.a & s.c) ^ (s.b & s.c);
    let t1 = s.h.wrapping_add(big_sigma1_exec(s.e)).wrapping_add(ch).wrapping_add(k).wrapping_add(w);
    let t2 = big_sigma0_exec(s.a).wrapping_add(maj);
    Words { a: t1.wrapping_add(t2), b: s.a, c: s.b, d: s.c, e: s.d.wrapping_add(t1), f: s.e, g: s.f, h: s.g }
}

fn round_constant_table() -> (k: Vec<u32>)
    ensures
        k@ == round_constants(),
{
    let k: Vec<u32> = vec![
        0x428a2f98u32, 0x71374491u32, 0xb5c0fbcfu32, 0xe9b5dba5u32, 0x3956c25bu32, 0x59f111f1u32,
        0x923f82a4u32, 0xab1c5ed5u32, 0xd807aa98u32, 0x12835b01u32, 0x243185beu32, 0x550c7dc3u32,
        0x72be5d74u32, 0x80deb1feu32, 0x9bdc06a7u32, 0xc19bf174u32, 0xe49b69c1u32, 0xefbe4786u32,
        0x0fc19dc6u32, 0x240ca1ccu32, 0x2de92c6fu32, 0x4a7484aau32, 0x5cb0a9dcu32, 0x76f988dau32,
        0x983e5152u32, 0xa831c66du32, 0xb00327c8u32, 0xbf597fc7u32, 0xc6e00bf3u32, 0xd5a79147u32,
        0x06ca6351u32, 0x14292967u32, 0x27b70a85u32, 0x2e1b2138u32, 0x4d2c6dfcu32, 0x53380d13u32,
        0x650a7354u32, 0x766a0abbu32, 0x81c2c92eu32, 0x92722c85u32, 0xa2bfe8a1u32, 0xa81a664bu32,
        0xc24b8b70u32, 0xc76c51a3u32, 0xd192e819u32, 0xd6990624u32, 0xf40e3585u32, 0x106aa070u32,
        0x19a4c116u32, 0x1e376c08u32, 0x2748774cu32, 0x34b0bcb5u32, 0x391c0cb3u32, 0x4ed8aa4au32,
        0x5b9cca4fu32, 0x682e6ff3u32, 0x748f82eeu32, 0x78a5636fu32, 0x84c87814u32, 0x8cc70208u32,
        0x90befffau32, 0xa4506cebu32, 0xbef9a3f7u32, 0xc67178f2u32,
    ];
    assert(k@ =~= round_constants());
    k
}


fn push_be64(m: &mut Vec<u8>, x: u64)
    ensures
        final(m)@ == old(m)@ + be64(x),
{
    m.push(((x >> 56u64) & 0xffu64) as u8);
    m.push(((x >> 48u64) & 0xffu64) as u8);
    m.push(((x >> 40u64) & 0xffu64) as u8);
    m.push(((x >> 32u64) & 0xffu64) as u8);
    m.push(((x >> 24u64) & 0xffu64) as u8);
    m.push(((x >> 16u64) & 0xffu64) as u8);
    m.push(((x >> 8u64) & 0xffu64) as u8);
    m.push((x & 0xffu64) as u8);
    assert(final(m)@ =~= old(m)@ + be64(x));
}

proof fn lemma_pad_blocks(n: nat)
    ensures
        (n + 1 + zero_count(n) + 8) % 64 == 0,
{
    vstd::arithmetic::div_mod::lemma_fundamental_div_mod(n as int, 64);
    assert((n + 1 + zero_count(n) + 8) % 64 == 0) by (nonlinear_arith)
        requires
            n == 64 * (n / 64) + n % 64,
            0 <= n % 64 < 64,
            zero_count(n) == ((119 - (n % 64) as int) % 64) as nat,
    ;
}

/// The padded message.
fn padded(data: &[u8]) -> (m: Vec<u8>)
    ensures
        m@ == pad(data@),
        m@.len() % 64 == 0,
{
    let mut m: Vec<u8> = Vec::new();
    let mut i: usize = 0;
    while i < data.len()
        invariant
            i <= data@.len(),
            m@ == data@.take(i as int),
        decreases data@.len() - i,
    {
        m.push(data[i]);
        i = i + 1;
        assert(m@ =~= data@.take(i as int));
    }
    assert(m@ =~= data@);
    m.push(0x80u8);
    let z: usize = (119 - data.len() % 64) % 64;
    assert(z == zero_count(data@.len()));
    let mut j: usize = 0;
    while j < z
        invariant
            j <= z,
            m@ == data@ + seq![0x80u8] + zeros(j as nat),
        decreases z - j,
    {
        m.push(0u8);
        j = j + 1;
        assert(m@ =~= data@ + seq![0x80u8] + zeros(j as nat));
    }
    let bits = (data.len() as u64).wrapping_mul(8u64);
    assert(bits == bit_length(data@.len()));
    push_be64(&mut m, bits);
    proof {
        lemma_pad_blocks(data@.len());
    }
    m
}

fn word_exec(b: &[u8], j: usize) -> (r: u32)
    requires
        j + 4 <= b@.len(),
    ensures
        r == word_at(b@, j as int),
{
    ((b[j] as u32) << 24u32) | ((b[j + 1] as u32) << 16u32) | ((b[j + 2] as u32) << 8u32) | (b[j + 3] as u32)
}

/// The 64 words of the message schedule of the block at `off`.
fn schedule(b: &[u8], off: usize) -> (w: Vec<u32>)
    requires
        off + 64 <= b@.len(),
    ensures
        w@.len() == 64,
        forall|t: int| 0 <= t < 64 ==> #[trigger] w@[t] == schedule_word(b@.subrange(off as int, off + 64), t as nat),
{
    let ghost blk = b@.subrange(off as int, off + 64);
    let len = b.len();
    let mut w: Vec<u32> = Vec::new();
    let mut t: usize = 0;
    while t < 16
        invariant
            t <= 16,
            off + 64 <= b@.len(),
            len == b@.len(),
            blk == b@.subrange(off as int, off + 64),
            w@.len() == t,
            forall|k: int| 0 <= k < t ==> #[trigger] w@[k] == schedule_word(blk, k as nat),
        decreases 16 - t,
    {
        assert(off + 4 * t + 4 <= b@.len());
        let x = word_exec(b, off + 4 * t);
        assert(x == word_at(blk, 4 * t));
        w.push(x);
        t = t + 1;
    }
    while t < 64
        invariant
            16 <= t <= 64,
            w@.len() == t,
            forall|k: int| 0 <= k < t ==> #[trigger] w@[k] == schedule_word(blk, k as nat),
        decreases 64 - t,
    {
        let x = small_sigma1_exec(w[t - 2]).wrapping_add(w[t - 7]).wrapping_add(small_sigma0_exec(w[t - 15])).wrapping_add(
            w[t - 16],
        );
        assert(x == schedule_word(blk, t as nat));
        w.push(x);
        t = t + 1;
    }
    w
}

/// One block of the padded message, starting at `off`.
fn compress_exec(hv: Words, m: &[u8], off: usize, k: &Vec<u32>) -> (r: Words)
    requires
        off + 64 <= m@.len(),
        k@ == round_constants(),
    ensures
        r == compress(hv, m@.subrange(off as int, off + 64)),
{
    let ghost blk = m@.subrange(off as int, off + 64);
    let w = schedule(m, off);
    let mut s = hv;
    let mut t: usize = 0;
    while t < 64
        invariant
            t <= 64,
            w@.len() == 64,
            k@ == round_constants(),
            forall|i: int| 0 <= i < 64 ==> #[trigger] w@[i] == schedule_word(blk, i as nat),
            s == rounds(blk, hv, t as nat),
        decreases 64 - t,
    {
        s = round_exec(s, k[t], w[t]);
        t = t + 1;
    }
    Words {
        a: hv.a.wrapping_add(s.a),
        b: hv.b.wrapping_add(s.b),
        c: hv.c.wrapping_add(s.c),
        d: hv.d.wrapping_add(s.d),
        e: hv.e.wrapping_add(s.e),
        f: hv.f.wrapping_add(s.f),
        g: hv.g.wrapping_add(s.g),
        h: hv.h.wrapping_add(s.h),
    }
}

fn push_word(out: &mut Vec<u8>, w: u32)
    ensures
        final(out)@ == old(out)@ + word_bytes(w),
{
    out.push((w >> 24u32) as u8);
    out.push(((w >> 16u32) & 0xffu32) as u8);
    out.push(((w >> 8u32) & 0xffu32) as u8);
    out.push((w & 0xffu32) as u8);
    assert(final(out)@ =~= old(out)@ + word_bytes(w));
}

/// The SHA-256 digest of `data`.
pub fn sha256(data: &[u8]) -> (out: Vec<u8>)
    ensures
        out@ == sha256_spec(data@),
        out@.len() == 32,
{
    let m = padded(data);
    let k = round_constant_table();
    let n = m.len() / 64;
    let mut hv = Words {
        a: 0x6a09e667,
        b: 0xbb67ae85,
        c: 0x3c6ef372,
        d: 0xa54ff53a,
        e: 0x510e527f,
        f: 0x9b05688c,
        g: 0x1f83d9ab,
        h: 0x5be0cd19,
    };
    let mut i: usize = 0;
    while i < n
        invariant
            i <= n,
            n == m@.len() / 64,
            m@.len() <= usize::MAX,
            m@.len() % 64 == 0,
            k@ == round_constants(),
            hv == chain(m@, i as nat),
        decreases n - i,
    {
        assert(64 * i + 64 <= m@.len()) by (nonlinear_arith)
            requires
                i < n,
                n == m@.len() / 64,
        ;
        hv = compress_exec(hv, m.as_slice(), 64 * i, &k);
        i = i + 1;
    }
    let mut out: Vec<u8> = Vec::new();
    push_word(&mut out, hv.a);
    push_word(&mut out, hv.b);
    push_word(&mut out, hv.c);
    push_word(&mut out, hv.d);
    push_word(&mut out, hv.e);
    push_word(&mut out, hv.f);
    push_word(&mut out, hv.g);
    push_word(&mut out, hv.h);
    assert(out@ =~= words_bytes(hv));
    out
}

/// The lowercase hex of the SHA-256 of a text's UTF-8 bytes: how write keys
/// are stored.
pub fn sha256_hex(text: &str) -> (out: String)
    ensures
        out@ == hex_text(sha256_spec(encode_utf8(text@))),
{
    let d = sha256(text.as_bytes());
    hex_encode(d.as_slice())
}

proof fn lemma_hex_text_len(b: Seq<u8>)
    ensures
        hex_text(b).len() == 2 * b.len(),
    decreases b.len(),
{
    if b.len() > 0 {
        lemma_hex_text_len(b.drop_last());
    }
}

/// A digest is 32 bytes, so its hex is 64 characters: never empty.
pub proof fn lemma_digest_hex_len(m: Seq<u8>)
    ensures
        sha256_spec(m).len() == 32,
        hex_text(sha256_spec(m)).len() == 64,
{
    lemma_hex_text_len(sha256_spec(m));
}

} // verus!

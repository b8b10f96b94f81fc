//! The mask generation function MGF1 over SHA-256.
//!
//! The mask is the concatenation of the digests of `seed ‖ counter` for the
//! counters 0, 1, 2, ..., each counter written as four big-endian bytes.

use vstd::prelude::*;
use vstd::arithmetic::div_mod::{lemma_fundamental_div_mod, lemma_fundamental_div_mod_converse};
use crate::bytes::{copy_into, zeros};
use crate::hash::{digest_of, sha256};
use crate::uint::{be_value, lemma_be_value_word};

verus! {

/// The four big-endian bytes of block number `n`, taken modulo `2^32`.
pub open spec fn counter_bytes(n: nat) -> Seq<u8> {
    let v = n % 0x1_0000_0000;
    seq![
        (v / 0x100_0000) as u8,
        ((v / 0x1_0000) % 256) as u8,
        ((v / 0x100) % 256) as u8,
        (v % 256) as u8,
    ]
}

/// Block `n` of the mask: the digest of `seed ‖ counter`.
pub open spec fn mgf1_block(seed: Seq<u8>, n: nat) -> Seq<u8> {
    digest_of(seed + counter_bytes(n))
}

/// Byte `i` of the mask.
pub open spec fn mgf1_mask_byte(seed: Seq<u8>, i: int) -> u8 {
    mgf1_block(seed, (i / 32) as nat)[i % 32]
}

/// The first `len` bytes of the mask.
pub open spec fn mgf1_mask(seed: Seq<u8>, len: nat) -> Seq<u8> {
    Seq::new(len, |i: int| mgf1_mask_byte(seed, i))
}

/// The bytewise exclusive-or of `a` with the start of `b`.
pub open spec fn xor_bytes(a: Seq<u8>, b: Seq<u8>) -> Seq<u8> {
    Seq::new(a.len(), |i: int| a[i] ^ b[i])
}

/// The digits of a number below `2^32` in base 256.
proof fn lemma_base_256_digits(a: int, b: int, c: int, d: int)
    requires
        0 <= a < 256,
        0 <= b < 256,
        0 <= c < 256,
        0 <= d < 256,
    ensures
        ({
            let v = a * 0x100_0000 + b * 0x1_0000 + c * 0x100 + d;
            &&& 0 <= v < 0x1_0000_0000
            &&& v % 0x1_0000_0000 == v
            &&& v / 0x100_0000 == a
            &&& (v / 0x1_0000) % 256 == b
            &&& (v / 0x100) % 256 == c
            &&& v % 256 == d
        }),
{
    let v = a * 0x100_0000 + b * 0x1_0000 + c * 0x100 + d;
    lemma_fundamental_div_mod_converse(v, 0x1_0000_0000, 0, v);
    lemma_fundamental_div_mod_converse(v, 0x100_0000, a, b * 0x1_0000 + c * 0x100 + d);
    lemma_fundamental_div_mod_converse(v, 0x1_0000, a * 0x100 + b, c * 0x100 + d);
    lemma_fundamental_div_mod_converse(a * 0x100 + b, 256, a, b);
    lemma_fundamental_div_mod_converse(v, 0x100, a * 0x1_0000 + b * 0x100 + c, d);
    lemma_fundamental_div_mod_converse(a * 0x1_0000 + b * 0x100 + c, 256, a * 0x100 + b, c);
}

/// Four bytes are the counter bytes of the number they stand for.
pub proof fn lemma_counter_bytes_of_value(s: Seq<u8>)
    requires
        s.len() == 4,
    ensures
        s == counter_bytes(be_value(s)),
        be_value(s) < 0x1_0000_0000,
{
    lemma_be_value_word(s);
    lemma_base_256_digits(s[0] as int, s[1] as int, s[2] as int, s[3] as int);
    let c = counter_bytes(be_value(s));
    assert(c[0] == s[0]);
    assert(c[1] == s[1]);
    assert(c[2] == s[2]);
    assert(c[3] == s[3]);
    assert(s =~= c);
}

/// The counter bytes of `n` stand for `n` modulo `2^32`.
pub proof fn lemma_counter_bytes_value(n: nat)
    ensures
        be_value(counter_bytes(n)) == n % 0x1_0000_0000,
        counter_bytes(n).len() == 4,
{
    let v = (n % 0x1_0000_0000) as int;
    let c = counter_bytes(n);
    lemma_be_value_word(c);
    let a = v / 0x100_0000;
    let b = (v / 0x1_0000) % 256;
    let d = (v / 0x100) % 256;
    let e = v % 256;
    lemma_fundamental_div_mod(v, 0x100);
    lemma_fundamental_div_mod(v / 0x100, 0x100);
    lemma_fundamental_div_mod(v / 0x1_0000, 0x100);
    assert(v / 0x100 / 0x100 == v / 0x1_0000);
    assert(v / 0x1_0000 / 0x100 == v / 0x100_0000);
    assert(v == a * 0x100_0000 + b * 0x1_0000 + d * 0x100 + e);
}

/// Masking is deterministic: two calls with the same seed on buffers of
/// the same contents leave the same bytes, and the mask itself depends on
/// the seed and the length alone.
pub proof fn lemma_mgf1_deterministic(out_a: Seq<u8>, seed_a: Seq<u8>, out_b: Seq<u8>, seed_b: Seq<u8>)
    requires
        out_a == out_b,
        seed_a == seed_b,
    ensures
        mgf1_mask(seed_a, out_a.len()) == mgf1_mask(seed_b, out_b.len()),
        xor_bytes(out_a, mgf1_mask(seed_a, out_a.len())) == xor_bytes(
            out_b,
            mgf1_mask(seed_b, out_b.len()),
        ),
{
}

/// On a buffer of zero bytes masking leaves the mask itself.
pub proof fn lemma_mgf1_mask_of_zeros(seed: Seq<u8>, len: nat)
    ensures
        xor_bytes(zeros(len), mgf1_mask(seed, len)) == mgf1_mask(seed, len),
{
    let z = zeros(len);
    let m = mgf1_mask(seed, len);
    assert forall|i: int| 0 <= i < len implies z[i] ^ m[i] == m[i] by {
        let y = m[i];
        assert(0u8 ^ y == y) by (bit_vector);
    }
    assert(xor_bytes(z, m) =~= m);
}

/// A shorter mask is the start of a longer one from the same seed.
pub proof fn lemma_mgf1_mask_prefix(seed: Seq<u8>, short: nat, long: nat)
    requires
        short <= long,
    ensures
        mgf1_mask(seed, long).take(short as int) == mgf1_mask(seed, short),
{
    assert(mgf1_mask(seed, long).take(short as int) =~= mgf1_mask(seed, short));
}

/// Masking twice with the same mask gives the buffer back.
pub proof fn lemma_xor_bytes_twice(a: Seq<u8>, mask: Seq<u8>)
    ensures
        xor_bytes(xor_bytes(a, mask), mask) == a,
{
    assert forall|i: int| 0 <= i < a.len() implies (a[i] ^ mask[i]) ^ mask[i] == a[i] by {
        let x = a[i];
        let y = mask[i];
        assert((x ^ y) ^ y == x) by (bit_vector);
    }
    assert(xor_bytes(xor_bytes(a, mask), mask) =~= a);
}

/// Adds one to the big-endian counter, wrapping from `2^32 - 1` to zero.
pub fn inc_counter(counter: &mut [u8; 4])
    ensures
        be_value(final(counter)@) == (be_value(old(counter)@) + 1) % 0x1_0000_0000,
        final(counter)@ == counter_bytes(be_value(old(counter)@) + 1),
{
    let mut i: usize = 4;
    while i > 0
        invariant
            i <= 4,
            forall|n: int| 0 <= n < i ==> counter@[n] == old(counter)@[n],
            forall|n: int| i <= n < 4 ==> counter@[n] == 0 && old(counter)@[n] == 255,
        decreases i,
    {
        i = i - 1;
        let b: u8 = counter[i].wrapping_add(1);
        counter[i] = b;
        if b != 0 {
            proof {
                lemma_be_value_word(counter@);
                lemma_be_value_word(old(counter)@);
                lemma_counter_bytes_of_value(counter@);
            }
            return ;
        }
    }
    proof {
        lemma_be_value_word(counter@);
        lemma_be_value_word(old(counter)@);
        lemma_counter_bytes_of_value(counter@);
    }
}

/// Counting on from `n` modulo `2^32` gives the counter bytes of `n + 1`.
proof fn lemma_counter_bytes_wraps(n: nat)
    ensures
        counter_bytes((n % 0x1_0000_0000 + 1) as nat) == counter_bytes(n + 1),
{
    let a = ((n % 0x1_0000_0000 + 1) as nat) % 0x1_0000_0000;
    let b = (n + 1) % 0x1_0000_0000;
    assert(a == b);
}

/// Writes the counter behind the seed in the digest input.
fn put_counter(input: &mut [u8], seed_len: usize, counter: &[u8; 4])
    requires
        old(input)@.len() == seed_len + 4,
        seed_len + 4 <= usize::MAX,
    ensures
        final(input)@ == old(input)@.take(seed_len as int) + counter@,
{
    let mut t: usize = 0;
    while t < 4
        invariant
            t <= 4,
            seed_len + 4 <= usize::MAX,
            input@.len() == seed_len + 4,
            input@.take(seed_len as int) == old(input)@.take(seed_len as int),
            forall|n: int| 0 <= n < t ==> input@[seed_len + n] == counter@[n],
        decreases 4 - t,
    {
        let ghost before = input@;
        input[seed_len + t] = counter[t];
        proof {
            assert(input@.take(seed_len as int) =~= before.take(seed_len as int));
        }
        t = t + 1;
    }
    proof {
        assert(input@ =~= old(input)@.take(seed_len as int) + counter@);
    }
}

/// Combines one block of the mask into `out` from position `start` on and
/// returns the position behind the last byte it changed.
fn xor_block(out: &mut [u8], start: usize, digest: &[u8; 32]) -> (end: usize)
    requires
        start < old(out)@.len(),
    ensures
        final(out)@.len() == old(out)@.len(),
        end == if start + 32 <= old(out)@.len() {
            start + 32
        } else {
            old(out)@.len() as int
        },
        forall|n: int| 0 <= n < start ==> final(out)@[n] == old(out)@[n],
        forall|n: int| start <= n < end ==> final(out)@[n] == old(out)@[n] ^ digest@[n - start],
        forall|n: int| end <= n < old(out)@.len() ==> final(out)@[n] == old(out)@[n],
{
    let len: usize = out.len();
    let mut i: usize = start;
    let mut j: usize = 0;
    while j < 32 && i < len
        invariant
            j <= 32,
            start <= i <= len,
            len == out@.len(),
            len == old(out)@.len(),
            i == start + j,
            forall|n: int| 0 <= n < start ==> out@[n] == old(out)@[n],
            forall|n: int| start <= n < i ==> out@[n] == old(out)@[n] ^ digest@[n - start],
            forall|n: int| i <= n < len ==> out@[n] == old(out)@[n],
        decreases 32 - j,
    {
        out[i] ^= digest[j];
        j = j + 1;
        i = i + 1;
    }
    i
}

/// Masks `out` with the mask of the seed that stands at the start of
/// `input`. The four bytes of `input` behind the seed take the counter.
fn mask_through(out: &mut [u8], input: &mut [u8], seed_len: usize)
    requires
        old(input)@.len() == seed_len + 4,
        seed_len + 4 < 0x2000_0000_0000_0000,
        seed_len + 4 <= usize::MAX,
    ensures
        final(out)@ == xor_bytes(
            old(out)@,
            mgf1_mask(old(input)@.take(seed_len as int), old(out)@.len()),
        ),
{
    let len: usize = out.len();
    let ghost seed = input@.take(seed_len as int);
    let mut counter = [0u8; 4];
    let mut i: usize = 0;
    let ghost mut block: nat = 0;
    proof {
        assert(counter@ =~= counter_bytes(0));
    }
    while i < len
        invariant
            i <= len,
            len == out@.len(),
            len == old(out)@.len(),
            seed_len + 4 < 0x2000_0000_0000_0000,
            seed_len + 4 <= usize::MAX,
            input@.len() == seed_len + 4,
            input@.take(seed_len as int) == seed,
            counter@ == counter_bytes(block),
            i == 32 * block || i == len,
            i <= 32 * block,
            forall|n: int| 0 <= n < i ==> out@[n] == old(out)@[n] ^ mgf1_mask_byte(seed, n),
            forall|n: int| i <= n < len ==> out@[n] == old(out)@[n],
        decreases len - i,
    {
        put_counter(input, seed_len, &counter);
        proof {
            assert(input@.take(seed_len as int) =~= seed);
        }
        let digest = sha256(input);
        let end = xor_block(out, i, &digest);
        proof {
            assert forall|n: int| 0 <= n < end implies out@[n] == old(out)@[n] ^ mgf1_mask_byte(
                seed,
                n,
            ) by {
                if n >= i {
                    assert(n / 32 == block && n % 32 == n - i);
                }
            }
            lemma_counter_bytes_value(block);
            lemma_counter_bytes_wraps(block);
        }
        inc_counter(&mut counter);
        proof {
            block = block + 1;
        }
        i = end;
    }
    proof {
        assert(out@ =~= xor_bytes(old(out)@, mgf1_mask(seed, len as nat)));
    }
}

/// Masks `out` in place: every byte is combined by exclusive-or with the
/// byte of the MGF1 mask of `seed` at the same position.
///
/// The digest input is put together in one 64-byte block on the stack. Only
/// a seed of more than 60 bytes, which signing never uses, takes a buffer
/// from the heap.
pub fn mgf1_xor(out: &mut [u8], seed: &[u8])
    requires
        seed@.len() + 4 < 0x2000_0000_0000_0000,
        seed@.len() + 4 <= usize::MAX,
    ensures
        final(out)@ == xor_bytes(old(out)@, mgf1_mask(seed@, old(out)@.len())),
{
    let seed_len: usize = seed.len();
    if seed_len <= 60 {
        let mut block = [0u8; 64];
        copy_into(&mut block, 0, seed);
        let (input, _) = block.split_at_mut(seed_len + 4);
        proof {
            assert(input@.take(seed_len as int) =~= seed@);
        }
        mask_through(out, input, seed_len);
    } else {
        let mut long: Vec<u8> = Vec::new();
        let mut s: usize = 0;
        while s < seed_len
            invariant
                s <= seed_len,
                seed_len == seed@.len(),
                long@ == seed@.take(s as int),
            decreases seed_len - s,
        {
            long.push(seed[s]);
            proof {
                assert(long@ =~= seed@.take(s + 1));
            }
            s = s + 1;
        }
        long.push(0);
        long.push(0);
        long.push(0);
        long.push(0);
        proof {
            assert(seed@.take(seed_len as int) =~= seed@);
            assert(long@.take(seed_len as int) =~= seed@);
        }
        mask_through(out, long.as_mut_slice(), seed_len);
    }
}

} // verus!

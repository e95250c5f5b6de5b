//! The compiler's own hash, for speed rather than against an attacker: the
//! multiply-rotate word hash, and a two-accumulator digest for cache keys.
//!
//! The `Hasher` impl that lets std's maps use `Fx` stands in the program
//! around the library; the arithmetic it runs is this.

use vstd::prelude::*;

verus! {

/// The odd 64-bit constant: the golden ratio scaled to the word size, which
/// spreads the multiply's entropy into the high bits.
pub const SEED: u64 = 0x51_7c_c1_b7_27_22_0a_95;

/// The first digest accumulator's FNV-1a prime and offset.
pub const PRIME_A: u64 = 0x0000_0100_0000_01b3;
pub const OFFSET_A: u64 = 0xcbf2_9ce4_8422_2325;
/// The second accumulator's prime and offset.
pub const PRIME_B: u64 = 0x0000_0000_0100_0193;
pub const OFFSET_B: u64 = 0x9e37_79b9_7f4a_7c15;

/// `x` rotated left by `k` bits, `0 < k < 64`.
pub open spec fn rotl(x: u64, k: u64) -> u64 {
    (x << k) | (x >> (64 - k) as u64)
}

/// The little-endian number a run of bytes spells.
pub open spec fn le_value(s: Seq<u8>) -> nat
    decreases s.len(),
{
    if s.len() == 0 {
        0
    } else {
        s[0] as nat + 256 * le_value(s.drop_first())
    }
}

/// One word folded into the hash.
pub open spec fn fx_step(hash: u64, word: u64) -> u64 {
    (rotl(hash, 5) ^ word).wrapping_mul(SEED)
}

/// What `write` folds in: eight bytes a word while eight remain, then one
/// word of four, of two and of one byte, each where that many remain.
pub open spec fn fx_write(hash: u64, bytes: Seq<u8>) -> u64
    decreases bytes.len(),
{
    if bytes.len() >= 8 {
        fx_write(fx_step(hash, le_value(bytes.subrange(0, 8)) as u64), bytes.subrange(8, bytes.len() as int))
    } else if bytes.len() >= 4 {
        fx_write(fx_step(hash, le_value(bytes.subrange(0, 4)) as u64), bytes.subrange(4, bytes.len() as int))
    } else if bytes.len() >= 2 {
        fx_write(fx_step(hash, le_value(bytes.subrange(0, 2)) as u64), bytes.subrange(2, bytes.len() as int))
    } else if bytes.len() == 1 {
        fx_step(hash, bytes[0] as u64)
    } else {
        hash
    }
}

/// The `k` little-endian bytes of `x`, least significant first.
pub open spec fn le_bytes(x: nat, k: nat) -> Seq<u8>
    decreases k,
{
    if k == 0 {
        Seq::empty()
    } else {
        seq![(x % 256) as u8] + le_bytes(x / 256, (k - 1) as nat)
    }
}

proof fn lemma_le_bytes(x: nat, k: nat)
    requires
        x < pow256(k),
    ensures
        le_bytes(x, k).len() == k,
        le_value(le_bytes(x, k)) == x,
    decreases k,
{
    if k > 0 {
        lemma_le_bytes(x / 256, (k - 1) as nat);
        let b = le_bytes(x, k);
        assert(b.drop_first() =~= le_bytes(x / 256, (k - 1) as nat));
        assert(b[0] as nat == x % 256);
    }
}

/// Writing a word's eight little-endian bytes hashes as writing the word,
/// writing one byte as writing that byte, and writing nothing changes
/// nothing.
pub proof fn law_write_words(h: u64, n: u64, b: u8)
    ensures
        fx_write(h, le_bytes(n as nat, 8)) == fx_step(h, n),
        fx_write(h, seq![b]) == fx_step(h, b as u64),
        fx_write(h, Seq::empty()) == h,
{
    reveal_with_fuel(pow256, 9);
    assert(pow256(8) == 0x1_0000_0000_0000_0000nat);
    lemma_le_bytes(n as nat, 8);
    let bs = le_bytes(n as nat, 8);
    assert(bs.subrange(0, 8) =~= bs);
    assert(le_value(bs.subrange(0, 8)) as u64 == n);
    assert(bs.subrange(8, 8) =~= Seq::<u8>::empty());
    assert(fx_write(fx_step(h, n), Seq::<u8>::empty()) == fx_step(h, n));
}

pub struct Fx {
    pub hash: u64,
}

impl Default for Fx {
    fn default() -> (r: Fx)
        ensures
            r.hash == 0,
    {
        Fx { hash: 0 }
    }
}

/// `256^k`.
pub open spec fn pow256(k: nat) -> nat
    decreases k,
{
    if k == 0 {
        1
    } else {
        256 * pow256((k - 1) as nat)
    }
}

proof fn lemma_le_bound(s: Seq<u8>)
    ensures
        le_value(s) < pow256(s.len()),
    decreases s.len(),
{
    if s.len() > 0 {
        lemma_le_bound(s.drop_first());
        let r = le_value(s.drop_first());
        let p = pow256((s.len() - 1) as nat);
        assert(s[0] as nat + 256 * r < 256 * p) by (nonlinear_arith)
            requires r + 1 <= p, s[0] < 256;
    }
}

proof fn lemma_pow256_monotone(a: nat, b: nat)
    requires
        a <= b,
    ensures
        pow256(a) <= pow256(b),
    decreases b,
{
    if a < b {
        lemma_pow256_monotone(a, (b - 1) as nat);
    }
}

/// The little-endian word of `bytes[from..from+n]`, `n <= 8`.
fn le_word(bytes: &[u8], from: usize, n: usize) -> (w: u64)
    requires
        n <= 8,
        from + n <= bytes@.len(),
    ensures
        w as nat == le_value(bytes@.subrange(from as int, from + n)),
{
    let len = bytes.len();
    assert(bytes@.len() == len);
    let mut w: u64 = 0;
    let mut k: usize = n;
    proof {
        assert(bytes@.subrange(from + n, from + n) =~= Seq::<u8>::empty());
    }
    while k > 0
        invariant
            k <= n <= 8,
            from + n <= bytes@.len(),
            bytes@.len() <= usize::MAX,
            w as nat == le_value(bytes@.subrange(from + k, from + n)),
        decreases k,
    {
        k -= 1;
        let ghost s = bytes@.subrange(from + k as int, from + n as int);
        assert(s.drop_first() =~= bytes@.subrange(from + k + 1, from + n));
        proof {
            lemma_le_bound(s.drop_first());
            lemma_pow256_monotone((s.len() - 1) as nat, 7);
            reveal_with_fuel(pow256, 8);
        }
        w = bytes[from + k] as u64 + 256 * w;
    }
    w
}

impl Fx {
    pub fn add(&mut self, word: u64)
        ensures
            final(self).hash == fx_step(old(self).hash, word),
    {
        let h = self.hash;
        let rotated = (h << 5u64) | (h >> 59u64);
        self.hash = (rotated ^ word).wrapping_mul(SEED);
    }

    /// Folds in a run of bytes, a word at a time.
    pub fn write(&mut self, bytes: &[u8])
        ensures
            final(self).hash == fx_write(old(self).hash, bytes@),
    {
        let ghost target = fx_write(self.hash, bytes@);
        let mut at: usize = 0;
        assert(bytes@.subrange(0, bytes@.len() as int) =~= bytes@);
        while bytes.len() - at >= 8
            invariant
                at <= bytes@.len(),
                target == fx_write(self.hash, bytes@.subrange(at as int, bytes@.len() as int)),
            decreases bytes@.len() - at,
        {
            let ghost rest = bytes@.subrange(at as int, bytes@.len() as int);
            assert(rest.subrange(0, 8) =~= bytes@.subrange(at as int, at + 8));
            assert(rest.subrange(8, rest.len() as int) =~= bytes@.subrange(at + 8, bytes@.len() as int));
            let w = le_word(bytes, at, 8);
            self.add(w);
            at += 8;
        }
        if bytes.len() - at >= 4 {
            let ghost rest = bytes@.subrange(at as int, bytes@.len() as int);
            assert(rest.subrange(0, 4) =~= bytes@.subrange(at as int, at + 4));
            assert(rest.subrange(4, rest.len() as int) =~= bytes@.subrange(at + 4, bytes@.len() as int));
            let w = le_word(bytes, at, 4);
            self.add(w);
            at += 4;
        }
        assert(target == fx_write(self.hash, bytes@.subrange(at as int, bytes@.len() as int)));
        if bytes.len() - at >= 2 {
            let ghost rest = bytes@.subrange(at as int, bytes@.len() as int);
            assert(rest.subrange(0, 2) =~= bytes@.subrange(at as int, at + 2));
            assert(rest.subrange(2, rest.len() as int) =~= bytes@.subrange(at + 2, bytes@.len() as int));
            let w = le_word(bytes, at, 2);
            self.add(w);
            at += 2;
        }
        assert(target == fx_write(self.hash, bytes@.subrange(at as int, bytes@.len() as int)));
        let ghost rest = bytes@.subrange(at as int, bytes@.len() as int);
        if at < bytes.len() {
            assert(rest[0] == bytes@[at as int]);
            self.add(bytes[at] as u64);
        }
    }

    pub fn write_u8(&mut self, n: u8)
        ensures
            final(self).hash == fx_step(old(self).hash, n as u64),
    {
        self.add(n as u64);
    }

    pub fn write_u16(&mut self, n: u16)
        ensures
            final(self).hash == fx_step(old(self).hash, n as u64),
    {
        self.add(n as u64);
    }

    pub fn write_u32(&mut self, n: u32)
        ensures
            final(self).hash == fx_step(old(self).hash, n as u64),
    {
        self.add(n as u64);
    }

    pub fn write_u64(&mut self, n: u64)
        ensures
            final(self).hash == fx_step(old(self).hash, n),
    {
        self.add(n);
    }

    pub fn write_usize(&mut self, n: usize)
        ensures
            final(self).hash == fx_step(old(self).hash, n as u64),
    {
        self.add(n as u64);
    }

    pub fn finish(&self) -> (r: u64)
        ensures
            r == self.hash,
    {
        self.hash
    }
}

/// One word folded into both digest accumulators.
pub open spec fn digest_step(acc: (u64, u64), word: u64) -> (u64, u64) {
    ((acc.0 ^ word).wrapping_mul(PRIME_A), rotl((acc.1 ^ word).wrapping_mul(PRIME_B), 29))
}

/// The accumulators after the whole eight-byte words of `bytes`.
pub open spec fn digest_words(acc: (u64, u64), bytes: Seq<u8>) -> (u64, u64)
    decreases bytes.len(),
{
    if bytes.len() >= 8 {
        digest_words(digest_step(acc, le_value(bytes.subrange(0, 8)) as u64), bytes.subrange(8, bytes.len() as int))
    } else {
        acc
    }
}

/// The accumulators after the bytes of the tail, one at a time.
pub open spec fn digest_bytes(acc: (u64, u64), bytes: Seq<u8>) -> (u64, u64)
    decreases bytes.len(),
{
    if bytes.len() == 0 {
        acc
    } else {
        digest_bytes(digest_step(acc, bytes[0] as u64), bytes.drop_first())
    }
}

/// The digest: whole words first, then the tail shorter than a word byte by
/// byte, then the length folded into both halves.
pub open spec fn digest(bytes: Seq<u8>) -> (u64, u64) {
    let whole = (bytes.len() / 8) * 8;
    let acc = digest_bytes(digest_words((OFFSET_A, OFFSET_B), bytes), bytes.subrange(whole as int, bytes.len() as int));
    (acc.0 ^ (bytes.len() as u64), acc.1.wrapping_add(bytes.len() as u64))
}

/// Two accumulators with different primes and offsets, folded together, so
/// a key carries 128 bits rather than 64.
pub fn digest_of(bytes: &[u8]) -> (r: (u64, u64))
    ensures
        r == digest(bytes@),
{
    let mut a: u64 = OFFSET_A;
    let mut b: u64 = OFFSET_B;
    let mut i: usize = 0;
    let ghost whole: int = ((bytes@.len() / 8) * 8) as int;
    assert(bytes@.subrange(0, bytes@.len() as int) =~= bytes@);
    while bytes.len() - i >= 8
        invariant
            i <= bytes@.len(),
            i % 8 == 0,
            whole == (bytes@.len() / 8) * 8,
            i <= whole,
            digest_words((OFFSET_A, OFFSET_B), bytes@) == digest_words((a, b), bytes@.subrange(
                i as int,
                bytes@.len() as int,
            )),
        decreases bytes@.len() - i,
    {
        let ghost rest = bytes@.subrange(i as int, bytes@.len() as int);
        assert(rest.subrange(0, 8) =~= bytes@.subrange(i as int, i + 8));
        assert(rest.subrange(8, rest.len() as int) =~= bytes@.subrange(i + 8, bytes@.len() as int));
        let word = le_word(bytes, i, 8);
        a = (a ^ word).wrapping_mul(PRIME_A);
        let m = (b ^ word).wrapping_mul(PRIME_B);
        b = (m << 29u64) | (m >> 35u64);
        i += 8;
    }
    assert(i == whole);
    assert(digest_words((a, b), bytes@.subrange(i as int, bytes@.len() as int)) == (a, b));
    while i < bytes.len()
        invariant
            whole <= i <= bytes@.len(),
            whole == (bytes@.len() / 8) * 8,
            digest_bytes(digest_words((OFFSET_A, OFFSET_B), bytes@), bytes@.subrange(whole, bytes@.len() as int))
                == digest_bytes((a, b), bytes@.subrange(i as int, bytes@.len() as int)),
        decreases bytes@.len() - i,
    {
        let ghost rest = bytes@.subrange(i as int, bytes@.len() as int);
        assert(rest.drop_first() =~= bytes@.subrange(i + 1, bytes@.len() as int));
        let byte = bytes[i] as u64;
        a = (a ^ byte).wrapping_mul(PRIME_A);
        let m = (b ^ byte).wrapping_mul(PRIME_B);
        b = (m << 29u64) | (m >> 35u64);
        i += 1;
    }
    assert(bytes@.subrange(i as int, bytes@.len() as int) =~= Seq::<u8>::empty());
    a = a ^ (bytes.len() as u64);
    b = b.wrapping_add(bytes.len() as u64);
    (a, b)
}

} // verus!

//! CPython-compatible `random.Random`: the Mersenne Twister MT19937 with
//! CPython's integer and string seeding.
//!
//! A generator is described by the endless stream of 32-bit words it still has
//! to give out (`PyRandom::word`); every method says how many words it takes
//! from the front of that stream and what it makes of them.

use sha2::{Digest, Sha512};
use vstd::arithmetic::power2::*;
use vstd::prelude::*;
use vstd::string::*;

verus! {

/// Words in one block of generator state.
pub const BLOCK_WORDS: usize = 624;

/// Offset of the word that each new word is combined with.
pub const MIDDLE: usize = 397;

pub const MATRIX_A: u32 = 0x9908_b0df;

pub const UPPER_MASK: u32 = 0x8000_0000;

pub const LOWER_MASK: u32 = 0x7fff_ffff;

/// The linear map applied to the top bit of `u` joined with the low bits of `v`.
pub open spec fn twist(u: u32, v: u32) -> u32 {
    let y = (u & UPPER_MASK) | (v & LOWER_MASK);
    (y >> 1) ^ (if y & 1 == 1 {
        MATRIX_A
    } else {
        0
    })
}

/// Word `k` of the endless sequence that starts with the block `s`.
pub open spec fn mt_word(s: Seq<u32>, k: nat) -> u32
    decreases k,
{
    if k < 624 {
        s[k as int]
    } else {
        mt_word(s, (k - 227) as nat) ^ twist(mt_word(s, (k - 624) as nat), mt_word(s, (k - 623) as nat))
    }
}

/// The block that follows the block `s`.
pub open spec fn following_block(s: Seq<u32>) -> Seq<u32> {
    Seq::new(624, |i: int| mt_word(s, (624 + i) as nat))
}

/// The output scrambling of one word.
pub open spec fn temper(x: u32) -> u32 {
    let a = x ^ (x >> 11);
    let b = a ^ ((a << 7) & 0x9d2c_5680);
    let c = b ^ ((b << 15) & 0xefc6_0000);
    c ^ (c >> 18)
}

/// The state of a generator: the block that words are taken from, and how many of
/// them have been taken.
#[verifier::ext_equal]
pub struct Twister {
    pub block: Seq<u32>,
    pub index: nat,
}

impl Twister {
    /// The state once the next word has been taken: the next one of the block, or the
    /// first one of the next block where all have been taken.
    pub open spec fn next(self) -> Twister {
        if self.index < 624 {
            Twister { index: self.index + 1, ..self }
        } else {
            Twister { block: following_block(self.block), index: 1 }
        }
    }

    /// The state once `k` words have been taken.
    #[verifier::opaque]
    pub open spec fn after(self, k: nat) -> Twister
        decreases k,
    {
        if k == 0 {
            self
        } else {
            self.after((k - 1) as nat).next()
        }
    }
}

/// Taking no words changes nothing, and taking one leads to the next state.
pub proof fn lemma_after(t: Twister)
    ensures
        t.after(0) == t,
        t.after(1) == t.next(),
{
    reveal_with_fuel(Twister::after, 2);
}

/// Words can be taken in one go or in two.
pub proof fn lemma_after_sum(t: Twister, m: nat, k: nat)
    ensures
        t.after(m).after(k) == t.after(m + k),
    decreases k,
{
    reveal_with_fuel(Twister::after, 2);
    if k > 0 {
        lemma_after_sum(t, m, (k - 1) as nat);
    }
}

pub struct PyRandom {
    mt: [u32; 624],
    mti: usize,
}

impl View for PyRandom {
    type V = Twister;

    closed spec fn view(&self) -> Twister {
        Twister { block: self.mt@, index: self.mti as nat }
    }
}

impl PyRandom {
    #[verifier::type_invariant]
    closed spec fn index_in_block(self) -> bool {
        self.mti <= 624
    }

    /// The `n`-th 32-bit word that the generator will give out from here on.
    pub closed spec fn word(self, n: nat) -> u32 {
        temper(mt_word(self@.block, self@.index + n))
    }

    /// `self` is what `earlier` becomes once `k` words have been taken from it.
    pub open spec fn follows(self, earlier: PyRandom, k: nat) -> bool {
        &&& self@ == earlier@.after(k)
        &&& forall|n: nat| #[trigger] self.word(n) == earlier.word(n + k)
    }

    /// Replaces the block by the next one.
    fn next_block(mt: &mut [u32; 624])
        ensures
            forall|i: int| 0 <= i < 624 ==> #[trigger] final(mt)@[i] == mt_word(old(mt)@, (624 + i) as nat),
    {
        let ghost s = mt@;
        let mut kk: usize = 0;
        while kk < BLOCK_WORDS - MIDDLE
            invariant
                kk <= 227,
                s.len() == 624,
                forall|i: int| 0 <= i < kk ==> #[trigger] mt@[i] == mt_word(s, (624 + i) as nat),
                forall|i: int| kk <= i < 624 ==> #[trigger] mt@[i] == s[i],
            decreases 227 - kk,
        {
            let w = Self::recombine(mt[kk], mt[kk + 1], mt[kk + MIDDLE]);
            assert(w == mt_word(s, (624 + kk) as nat)) by {
                reveal_with_fuel(mt_word, 2);
            }
            mt[kk] = w;
            kk += 1;
        }
        while kk < BLOCK_WORDS - 1
            invariant
                227 <= kk <= 623,
                s.len() == 624,
                forall|i: int| 0 <= i < kk ==> #[trigger] mt@[i] == mt_word(s, (624 + i) as nat),
                forall|i: int| kk <= i < 624 ==> #[trigger] mt@[i] == s[i],
            decreases 623 - kk,
        {
            let w = Self::recombine(mt[kk], mt[kk + 1], mt[kk + MIDDLE - BLOCK_WORDS]);
            assert(w == mt_word(s, (624 + kk) as nat)) by {
                assert(mt@[kk - 227] == mt_word(s, (397 + kk) as nat));
                assert(mt_word(s, kk as nat) == s[kk as int]);
                assert(mt_word(s, (kk + 1) as nat) == s[kk + 1]);
            }
            mt[kk] = w;
            kk += 1;
        }
        let w = Self::recombine(mt[BLOCK_WORDS - 1], mt[0], mt[MIDDLE - 1]);
        assert(w == mt_word(s, 1247)) by {
            assert(mt@[0] == mt_word(s, 624));
            assert(mt@[396] == mt_word(s, 1020));
            assert(mt_word(s, 623) == s[623]);
        }
        mt[BLOCK_WORDS - 1] = w;
    }

    fn recombine(u: u32, v: u32, m: u32) -> (w: u32)
        ensures
            w == m ^ twist(u, v),
    {
        let y: u32 = (u & UPPER_MASK) | (v & LOWER_MASK);
        let mag: u32 = if y & 1 == 1 {
            MATRIX_A
        } else {
            0
        };
        let h: u32 = y >> 1;
        assert((m ^ h) ^ mag == m ^ (h ^ mag)) by (bit_vector);
        m ^ h ^ mag
    }

    /// The next 32-bit word: the next one of the block, or the first one of the next
    /// block once all have been taken.
    pub fn genrand_uint32(&mut self) -> (w: u32)
        ensures
            w == old(self).word(0),
            final(self).follows(*old(self), 1),
            old(self)@.index <= 624,
            final(self)@ == old(self)@.next(),
            w == temper(final(self)@.block[final(self)@.index - 1]),
    {
        proof {
            use_type_invariant(&*self);
            lemma_after(self@);
        }
        let ghost start = *self;
        if self.mti >= BLOCK_WORDS {
            let mut mt = self.mt;
            Self::next_block(&mut mt);
            proof {
                assert forall|n: nat| mt_word(mt@, n) == mt_word(start.mt@, 624 + n) by {
                    lemma_block_shift(start.mt@, mt@, n);
                }
                assert(mt@ =~= following_block(start.mt@));
            }
            self.mti = 0;
            self.mt = mt;
        }
        assert(forall|n: nat| #[trigger] self.word(n) == start.word(n));
        let ghost mid = *self;
        let x: u32 = self.mt[self.mti];
        self.mti = self.mti + 1;
        proof {
            assert(mid.word(0) == start.word(0));
            assert forall|n: nat| #[trigger] self.word(n) == start.word(n + 1) by {
                assert(mid.word(n + 1) == start.word(n + 1));
            }
        }
        let mut y: u32 = x;
        y = y ^ (y >> 11);
        y = y ^ ((y << 7) & 0x9d2c_5680);
        y = y ^ ((y << 15) & 0xefc6_0000);
        y ^ (y >> 18)
    }

    /// The number made of the top bits of the words from offset `at` on: one
    /// word gives up to 32 bits, a second one the bits above them.
    pub open spec fn bits_from(self, at: nat, k: u32) -> u64 {
        if k <= 32 {
            (self.word(at) >> ((32 - k) as u32)) as u64
        } else {
            (self.word(at) as u64) | (((self.word(at + 1) >> ((64 - k) as u32)) as u64) << 32u64)
        }
    }

    /// The next number from 0 up to 1, in units of two to the power -53.
    pub open spec fn fraction(self) -> nat {
        (self.word(0) >> 5) as nat * 67108864 + (self.word(1) >> 6) as nat
    }

    /// CPython's `getrandbits(k)`.
    pub fn getrandbits(&mut self, k: u32) -> (r: u64)
        requires
            1 <= k <= 64,
        ensures
            r == old(self).bits_from(0, k),
            final(self).follows(*old(self), words_for(k)),
            r < pow2(k as nat),
            k <= 32 ==> r == old(self).word(0) as nat / pow2((32 - k) as nat) && final(self).follows(*old(self), 1),
            k > 32 ==> r == old(self).word(0) + 0x1_0000_0000 * (old(self).word(1) as nat / pow2((64 - k) as nat))
                && final(self).follows(*old(self), 2),
    {
        proof {
            lemma_bits_from(*self, 0, k);
        }
        let ghost start = *self;
        if k <= 32 {
            let w: u32 = self.genrand_uint32();
            let sh: u32 = 32 - k;
            let r: u64 = (w >> sh) as u64;
            proof {
                lemma_top_bits(w, k);
            }
            r
        } else {
            let low: u32 = self.genrand_uint32();
            let ghost mid = *self;
            let high: u32 = self.genrand_uint32();
            proof {
                assert(mid.word(0) == start.word(1));
                lemma_follows(*self, mid, start, 1, 1);
                lemma_two_words(low, high, k);
            }
            let sh: u32 = 64 - k;
            (low as u64) | (((high >> sh) as u64) << 32u64)
        }
    }

    /// The `t`-th number that a draw below `n` tries.
    pub open spec fn attempt(self, n: u64, t: nat) -> u64 {
        let k = bit_len(n as nat) as u32;
        self.bits_from(t * words_for(k), k)
    }

    /// Drawing below `n` from `self` leaves `next` and gives `out`: the first
    /// attempt that is below `n`, or nothing where none of the first
    /// `ATTEMPT_LIMIT` is. Below 0 nothing is drawn and the answer is 0.
    pub open spec fn draws_below(self, n: u64, next: PyRandom, out: Option<u64>) -> bool {
        let w = words_for(bit_len(n as nat) as u32);
        if n == 0 {
            out == Some(0u64) && next.follows(self, 0)
        } else {
            match out {
                Some(r) => r < n && exists|t: nat|
                    {
                        &&& t < ATTEMPT_LIMIT
                        &&& #[trigger] self.attempt(n, t) == r
                        &&& forall|u: nat| u < t ==> #[trigger] self.attempt(n, u) >= n
                        &&& next.follows(self, (t + 1) * w)
                    },
                None => {
                    &&& forall|u: nat| u < ATTEMPT_LIMIT ==> #[trigger] self.attempt(n, u) >= n
                    &&& next.follows(self, ATTEMPT_LIMIT as nat * w)
                },
            }
        }
    }

    /// Drawing an integer from `a` to `b`, both included.
    pub open spec fn draws_int(self, a: i64, b: i64, next: PyRandom, out: Option<i64>) -> bool {
        match out {
            Some(v) => a <= v && self.draws_below((b - a + 1) as u64, next, Some((v - a) as u64)),
            None => self.draws_below((b - a + 1) as u64, next, None),
        }
    }

    /// CPython's `_randbelow_with_getrandbits(n)`: the first attempt below `n`.
    /// `None` says that none of the first `ATTEMPT_LIMIT` attempts was.
    pub fn randbelow(&mut self, n: u64) -> (out: Option<u64>)
        ensures
            old(self).draws_below(n, *final(self), out),
            n == 0 ==> *final(self) == *old(self),
    {
        proof {
            lemma_after(self@);
        }
        if n == 0 {
            return Some(0);
        }
        let k: u32 = bit_length(n);
        let ghost start = *self;
        let ghost w = words_for(k);
        let mut tried: u64 = 0;
        while tried < ATTEMPT_LIMIT
            invariant
                tried <= ATTEMPT_LIMIT,
                n > 0,
                1 <= k <= 64,
                k == bit_len(n as nat),
                w == words_for(k),
                start == *old(self),
                self.follows(start, tried as nat * w),
                forall|u: nat| u < tried ==> #[trigger] start.attempt(n, u) >= n,
            decreases ATTEMPT_LIMIT - tried,
        {
            let ghost mid = *self;
            let r: u64 = self.getrandbits(k);
            proof {
                assert(mid.word(0) == start.word(0 + tried as nat * w));
                assert(mid.word(1) == start.word(1 + tried as nat * w));
                assert(mid.bits_from(0, k) == start.bits_from(tried as nat * w, k));
                assert(r == start.attempt(n, tried as nat));
                assert((tried as nat + 1) * w == tried as nat * w + w) by (nonlinear_arith);
                lemma_follows(*self, mid, start, w, tried as nat * w);
            }
            if r < n {
                return Some(r);
            }
            tried += 1;
        }
        None
    }

    /// CPython's `randint(a, b)`: an integer from `a` to `b`, both included.
    pub fn randint(&mut self, a: i64, b: i64) -> (out: Option<i64>)
        requires
            a - 1 <= b,
            b - a + 1 <= i64::MAX,
        ensures
            old(self).draws_int(a, b, *final(self), out),
            out matches Some(v) ==> a <= v && (a <= b ==> v <= b),
    {
        let width: u64 = (b - a + 1) as u64;
        match self.randbelow(width) {
            Some(r) => Some(a + r as i64),
            None => None,
        }
    }

    /// CPython's `random()`, in units of 2 to the power -53: 27 bits of one
    /// word above 26 bits of the next.
    pub fn random(&mut self) -> (r: u64)
        ensures
            r == old(self).fraction(),
            r == 67108864 * (old(self).word(0) as nat / 32) + old(self).word(1) as nat / 64,
            r < 0x20_0000_0000_0000,
            final(self).follows(*old(self), 2),
    {
        let ghost start = *self;
        let wa: u32 = self.genrand_uint32();
        let ghost mid = *self;
        let wb: u32 = self.genrand_uint32();
        proof {
            assert(mid.word(0) == start.word(1));
            lemma_follows(*self, mid, start, 1, 1);
        }
        let a: u32 = wa >> 5;
        let b: u32 = wb >> 6;
        assert(wa >> 5 < 0x800_0000 && wb >> 6 < 0x400_0000) by (bit_vector);
        assert(wa >> 5 == wa / 32 && wb >> 6 == wb / 64) by (bit_vector);
        (a as u64) * 67108864 + b as u64
    }

    /// The generator that CPython seeds with the words of `key`.
    fn from_key(key: &Vec<u32>) -> (r: PyRandom)
        requires
            key@.len() > 0,
        ensures
            r.seeded_with(key@),
    {
        let mut r = PyRandom { mt: [0u32; 624], mti: BLOCK_WORDS };
        r.init_by_array(key);
        r
    }

    /// `self` is fresh from seeding with the words of `key`.
    pub open spec fn seeded_with(self, key: Seq<u32>) -> bool {
        &&& self@ == (Twister { block: seed_block(key), index: 624 })
        &&& forall|n: nat| #[trigger] self.word(n) == temper(mt_word(seed_block(key), 624 + n))
    }

    fn init_genrand(mt: &mut [u32; 624], s: u32)
        ensures
            forall|i: int| 0 <= i < 624 ==> #[trigger] final(mt)@[i] == linear_word(s, i as nat),
    {
        mt[0] = s;
        let mut i: usize = 1;
        while i < BLOCK_WORDS
            invariant
                1 <= i <= 624,
                forall|j: int| 0 <= j < i ==> #[trigger] mt@[j] == linear_word(s, j as nat),
            decreases 624 - i,
        {
            let prev: u32 = mt[i - 1];
            let w: u32 = 1812433253u32.wrapping_mul(prev ^ (prev >> 30)).wrapping_add(i as u32);
            mt[i] = w;
            i += 1;
        }
    }

    /// CPython's `init_by_array`: seeds the generator with the words of `key`, and
    /// leaves nothing of what it was.
    pub fn init_by_array(&mut self, key: &Vec<u32>)
        requires
            key@.len() > 0,
        ensures
            final(self).seeded_with(key@),
            final(self)@.block[0] == 0x8000_0000,
    {
        let mut mt: [u32; 624] = [0u32; 624];
        Self::mix(&mut mt, key);
        self.mti = BLOCK_WORDS;
        self.mt = mt;
    }

    fn mix(mt: &mut [u32; 624], key: &Vec<u32>)
        requires
            key@.len() > 0,
        ensures
            final(mt)@ == seed_block(key@),
            final(mt)@[0] == 0x8000_0000,
    {
        Self::init_genrand(mt, 19650218);
        assert(mt@ =~= key_mix(key@, 0));
        let rounds: usize = if BLOCK_WORDS > key.len() {
            BLOCK_WORDS
        } else {
            key.len()
        };
        let mut i: usize = 1;
        let mut j: usize = 0;
        let mut t: usize = 0;
        while t < rounds
            invariant
                t <= rounds,
                rounds == key_rounds(key@),
                key@.len() > 0,
                i == 1 + t as nat % 623,
                j == t as nat % key@.len(),
                mt@ == key_mix(key@, t as nat),
            decreases rounds - t,
        {
            let prev: u32 = mt[i - 1];
            let w: u32 = (mt[i] ^ (prev ^ (prev >> 30)).wrapping_mul(1664525)).wrapping_add(key[j]).wrapping_add(
                j as u32,
            );
            mt[i] = w;
            proof {
                lemma_next_mod(t as nat, 623);
                lemma_next_mod(t as nat, key@.len());
            }
            i += 1;
            j += 1;
            if i >= BLOCK_WORDS {
                let top: u32 = mt[BLOCK_WORDS - 1];
                mt[0] = top;
                i = 1;
            }
            if j >= key.len() {
                j = 0;
            }
            t += 1;
            assert(mt@ =~= key_mix(key@, t as nat));
        }
        let mut u: usize = 0;
        while u < BLOCK_WORDS - 1
            invariant
                u <= 623,
                rounds == key_rounds(key@),
                key@.len() > 0,
                i == 1 + (rounds as nat + u as nat) % 623,
                mt@ == index_mix(key@, u as nat),
            decreases 623 - u,
        {
            let prev: u32 = mt[i - 1];
            let w: u32 = (mt[i] ^ (prev ^ (prev >> 30)).wrapping_mul(1566083941)).wrapping_sub(i as u32);
            mt[i] = w;
            proof {
                lemma_next_mod(rounds as nat + u as nat, 623);
            }
            i += 1;
            if i >= BLOCK_WORDS {
                let top: u32 = mt[BLOCK_WORDS - 1];
                mt[0] = top;
                i = 1;
            }
            u += 1;
            assert(mt@ =~= index_mix(key@, u as nat));
        }
        mt[0] = 0x8000_0000;
    }

    /// CPython's `random.Random(n)` for a non-negative integer seed.
    pub fn from_int(n: u64) -> (r: PyRandom)
        ensures
            exists|key: Seq<u32>| #[trigger] is_key_of(key, n as nat) && r.seeded_with(key),
    {
        let mut be: Vec<u8> = Vec::new();
        let mut shift: u64 = 64;
        assert(n as nat / pow2(64) == 0) by {
            lemma2_to64();
            lemma2_to64_rest();
        }
        assert(be_value(be@) == 0);
        while shift > 0
            invariant
                shift <= 64,
                shift % 8 == 0,
                be_value(be@) == n as nat / pow2(shift as nat),
            decreases shift,
        {
            let ghost done = be@;
            shift -= 8;
            let byte: u8 = #[verifier::truncate] (((n >> shift) & 0xff) as u8);
            be.push(byte);
            proof {
                assert(be@.drop_last() =~= done);
                lemma_shifted_byte(n, shift);
            }
        }
        assert(be_value(be@) == n as nat) by {
            lemma2_to64();
            assert(n as nat / 1 == n as nat);
        }
        let key = int_to_mt_key(be.as_slice());
        assert(is_key_of(key@, n as nat));
        Self::from_key(&key)
    }

    /// CPython's `random.Random(s)` for a string seed, given as its bytes: the
    /// big-endian number made of the bytes and their SHA-512 digest.
    pub fn from_bytes(bytes: &[u8]) -> (r: PyRandom)
        ensures
            exists|key: Seq<u32>| #[trigger]
                is_key_of(key, be_value(bytes@ + sha512_digest(bytes@))) && r.seeded_with(key),
    {
        let mut all: Vec<u8> = Vec::new();
        all.extend_from_slice(bytes);
        let digest = sha512(bytes);
        all.extend_from_slice(digest.as_slice());
        assert(all@ =~= bytes@ + sha512_digest(bytes@));
        let key = int_to_mt_key(all.as_slice());
        Self::from_key(&key)
    }

    /// CPython's `random.Random(s)` for a string seed.
    pub fn from_str(s: &str) -> (r: PyRandom)
        ensures
            exists|key: Seq<u32>| #[trigger]
                is_key_of(key, be_value(s.spec_bytes() + sha512_digest(s.spec_bytes()))) && r.seeded_with(key),
    {
        Self::from_bytes(s.as_bytes())
    }
}

/// Attempts that a draw makes before it gives up.
pub const ATTEMPT_LIMIT: u64 = 0xffff_ffff_ffff_ffff;

/// Words that a number of `k` bits takes.
pub open spec fn words_for(k: u32) -> nat {
    if k <= 32 {
        1
    } else {
        2
    }
}

/// Binary digits of `n`.
pub open spec fn bit_len(n: nat) -> nat
    decreases n,
{
    if n == 0 {
        0
    } else {
        1 + bit_len(n / 2)
    }
}

/// The binary digits of `n` are the least number of bits that hold it.
pub proof fn lemma_bit_len(n: nat)
    ensures
        n < pow2(bit_len(n)),
        n > 0 ==> bit_len(n) > 0 && pow2((bit_len(n) - 1) as nat) <= n,
    decreases n,
{
    lemma2_to64();
    if n > 0 {
        lemma_bit_len(n / 2);
        lemma_pow2_unfold(bit_len(n));
        if n / 2 > 0 {
            lemma_pow2_unfold((bit_len(n) - 1) as nat);
        }
    }
}

fn bit_length(n: u64) -> (k: u32)
    ensures
        k == bit_len(n as nat),
        k <= 64,
        n > 0 ==> k > 0,
{
    let mut m: u64 = n;
    let mut k: u32 = 0;
    proof {
        lemma_bit_len_of_u64(n);
    }
    while m > 0
        invariant
            bit_len(n as nat) == k + bit_len(m as nat),
            bit_len(n as nat) <= 64,
        decreases m,
    {
        m = m / 2;
        k += 1;
    }
    k
}

proof fn lemma_bit_len_of_u64(n: u64)
    ensures
        bit_len(n as nat) <= 64,
{
    lemma_bit_len(n as nat);
    lemma2_to64_rest();
    if bit_len(n as nat) > 64 {
        if bit_len(n as nat) > 65 {
            lemma_pow2_strictly_increases(64, (bit_len(n as nat) - 1) as nat);
        }
    }
}

/// A draw takes a word at least.
pub proof fn lemma_draw_takes(g: PyRandom, a: i64, b: i64, next: PyRandom, v: i64)
    requires
        a <= b,
        b - a + 1 <= i64::MAX,
        g.draws_int(a, b, next, Some(v)),
    ensures
        exists|k: nat| k >= 1 && #[trigger] next.follows(g, k),
{
    let n = (b - a + 1) as u64;
    let w = words_for(bit_len(n as nat) as u32);
    let t = choose|t: nat|
        {
            &&& t < ATTEMPT_LIMIT
            &&& #[trigger] g.attempt(n, t) == (v - a) as u64
            &&& forall|u: nat| u < t ==> #[trigger] g.attempt(n, u) >= n
            &&& next.follows(g, (t + 1) * w)
        };
    assert((t + 1) * w >= 1) by (nonlinear_arith)
        requires
            w >= 1,
            t >= 0,
    ;
}

/// A draw gives one number and no other.
pub proof fn lemma_one_draw(g: PyRandom, a: i64, b: i64, next: PyRandom, v: i64, other: PyRandom, w: i64)
    requires
        a <= b,
        b - a + 1 <= i64::MAX,
        g.draws_int(a, b, next, Some(v)),
        g.draws_int(a, b, other, Some(w)),
        v <= b,
        w <= b,
    ensures
        v == w,
{
    let n = (b - a + 1) as u64;
    let (x, y) = ((v - a) as u64, (w - a) as u64);
    let t = choose|t: nat|
        {
            &&& t < ATTEMPT_LIMIT
            &&& #[trigger] g.attempt(n, t) == x
            &&& forall|u: nat| u < t ==> #[trigger] g.attempt(n, u) >= n
            &&& next.follows(g, (t + 1) * words_for(bit_len(n as nat) as u32))
        };
    let s = choose|s: nat|
        {
            &&& s < ATTEMPT_LIMIT
            &&& #[trigger] g.attempt(n, s) == y
            &&& forall|u: nat| u < s ==> #[trigger] g.attempt(n, u) >= n
            &&& other.follows(g, (s + 1) * words_for(bit_len(n as nat) as u32))
        };
    if t < s {
        assert(g.attempt(n, t) >= n);
    }
    if s < t {
        assert(g.attempt(n, s) >= n);
    }
}

/// Draws one after the other take the words of both.
pub proof fn lemma_draws_take(g: PyRandom, mid: PyRandom, end: PyRandom, m: nat, k: nat)
    requires
        mid.follows(g, m),
        end.follows(mid, k),
    ensures
        end.follows(g, m + k),
{
    lemma_follows(end, mid, g, k, m);
}

proof fn lemma_follows(c: PyRandom, b: PyRandom, a: PyRandom, k: nat, m: nat)
    requires
        c.follows(b, k),
        b.follows(a, m),
    ensures
        c.follows(a, m + k),
{
    lemma_after_sum(a@, m, k);
    assert forall|n: nat| #[trigger] c.word(n) == a.word(n + (m + k)) by {
        assert(b.word(n + k) == a.word(n + k + m));
    }
}

proof fn lemma_top_bits(w: u32, k: u32)
    requires
        1 <= k <= 32,
    ensures
        (w >> ((32 - k) as u32)) < pow2(k as nat),
{
    let sh = (32 - k) as u32;
    assert(((w >> sh) as u64) < (1u64 << (k as u64))) by (bit_vector)
        requires
            1 <= k <= 32,
            sh == 32 - k,
    ;
    lemma_one_shifted(k as u64);
}

/// A number of up to 32 bits is the top of one word. One of more bits has that word as
/// its low half, and above it the top of the next word.
pub proof fn lemma_bits_from(g: PyRandom, at: nat, k: u32)
    requires
        1 <= k <= 64,
    ensures
        k <= 32 ==> g.bits_from(at, k) == g.word(at) as nat / pow2((32 - k) as nat),
        k > 32 ==> g.bits_from(at, k) == g.word(at) + 0x1_0000_0000 * (g.word(at + 1) as nat / pow2((64 - k) as nat)),
{
    let low = g.word(at);
    let high = g.word(at + 1);
    if k <= 32 {
        lemma_shifted(low, (32 - k) as u32);
    } else {
        let sh = (64 - k) as u32;
        lemma_shifted(high, sh);
        let top = high >> sh;
        assert((low as u64) | ((top as u64) << 32u64) == low + 0x1_0000_0000 * top) by (bit_vector);
    }
}

proof fn lemma_shifted(w: u32, s: u32)
    requires
        s < 32,
    ensures
        (w >> s) == w as nat / pow2(s as nat),
{
    vstd::bits::lemma_u32_shr_is_div(w, s);
}

proof fn lemma_two_words(low: u32, high: u32, k: u32)
    requires
        33 <= k <= 64,
    ensures
        ((low as u64) | (((high >> ((64 - k) as u32)) as u64) << 32u64)) < pow2(k as nat),
{
    let sh = (64 - k) as u32;
    let r = (low as u64) | (((high >> sh) as u64) << 32u64);
    if k == 64 {
        lemma2_to64_rest();
    } else {
        assert(((low as u64) | (((high >> sh) as u64) << 32u64)) < (1u64 << (k as u64))) by (bit_vector)
            requires
                33 <= k < 64,
                sh == 64 - k,
        ;
        lemma_one_shifted(k as u64);
    }
}

proof fn lemma_one_shifted(k: u64)
    requires
        k < 64,
    ensures
        (1u64 << k) == pow2(k as nat),
{
    vstd::bits::lemma_u64_pow2_no_overflow(k as nat);
    vstd::bits::lemma_u64_shl_is_mul(1u64, k);
}

proof fn lemma_next_mod(t: nat, d: nat)
    requires
        d > 0,
    ensures
        (t + 1) % d == (if t % d + 1 == d {
            0
        } else {
            t % d + 1
        }),
{
    vstd::arithmetic::div_mod::lemma_fundamental_div_mod(t as int, d as int);
    let q = t / d;
    let r = t % d;
    assert(r < d);
    if r + 1 == d {
        assert(t + 1 == (q + 1) * d + 0) by (nonlinear_arith)
            requires
                t == d * q + r,
                r + 1 == d,
        ;
        vstd::arithmetic::div_mod::lemma_fundamental_div_mod_converse(
            (t + 1) as int,
            d as int,
            (q + 1) as int,
            0,
        );
    } else {
        assert(t + 1 == q * d + (r + 1)) by (nonlinear_arith)
            requires
                t == d * q + r,
        ;
        vstd::arithmetic::div_mod::lemma_fundamental_div_mod_converse(
            (t + 1) as int,
            d as int,
            q as int,
            (r + 1) as int,
        );
    }
}

/// Word `i` of the block that a single seed word expands to.
pub open spec fn linear_word(s: u32, i: nat) -> u32
    decreases i,
{
    if i == 0 {
        s
    } else {
        let p = linear_word(s, (i - 1) as nat);
        1812433253u32.wrapping_mul(p ^ (p >> 30)).wrapping_add(i as u32)
    }
}

/// Rounds that mix the key in.
pub open spec fn key_rounds(key: Seq<u32>) -> nat {
    if key.len() < 624 {
        624
    } else {
        key.len()
    }
}

/// The block with word `i` set to `w`; the last word is carried over into the
/// first one.
pub open spec fn with_word(b: Seq<u32>, i: int, w: u32) -> Seq<u32> {
    if i == 623 {
        b.update(623, w).update(0, w)
    } else {
        b.update(i, w)
    }
}

/// The block after `t` rounds of mixing the key in.
pub open spec fn key_mix(key: Seq<u32>, t: nat) -> Seq<u32>
    decreases t,
{
    if t == 0 {
        Seq::new(624, |i: int| linear_word(19650218, i as nat))
    } else {
        let b = key_mix(key, (t - 1) as nat);
        let i = 1 + (t - 1) % 623;
        let j = (t - 1) % (key.len() as int);
        let p = b[i - 1];
        with_word(
            b,
            i,
            (b[i] ^ (p ^ (p >> 30)).wrapping_mul(1664525)).wrapping_add(key[j]).wrapping_add(j as u32),
        )
    }
}

/// The block after `t` further rounds that mix the word index in.
pub open spec fn index_mix(key: Seq<u32>, t: nat) -> Seq<u32>
    decreases t,
{
    if t == 0 {
        key_mix(key, key_rounds(key))
    } else {
        let b = index_mix(key, (t - 1) as nat);
        let i = 1 + (key_rounds(key) + t - 1) % 623;
        let p = b[i - 1];
        with_word(b, i, (b[i] ^ (p ^ (p >> 30)).wrapping_mul(1566083941)).wrapping_sub(i as u32))
    }
}

/// The block that CPython's `init_by_array` makes of `key`.
pub open spec fn seed_block(key: Seq<u32>) -> Seq<u32> {
    index_mix(key, 623).update(0, 0x8000_0000u32)
}

/// The number whose big-endian bytes are `b`.
pub open spec fn be_value(b: Seq<u8>) -> nat
    decreases b.len(),
{
    if b.len() == 0 {
        0
    } else {
        be_value(b.drop_last()) * 256 + b.last() as nat
    }
}

/// The number whose 32-bit words are `w`, the least significant first.
pub open spec fn words_value(w: Seq<u32>) -> nat
    decreases w.len(),
{
    if w.len() == 0 {
        0
    } else {
        w[0] as nat + 0x1_0000_0000 * words_value(w.drop_first())
    }
}

/// `key` is the number `n` in 32-bit words, the least significant first,
/// without leading zero words; the number 0 is the one word 0.
pub open spec fn is_key_of(key: Seq<u32>, n: nat) -> bool {
    &&& words_value(key) == n
    &&& key.len() > 0
    &&& key.len() > 1 ==> key.last() != 0
}

/// The SHA-512 digest of `bytes`.
pub uninterp spec fn sha512_digest(bytes: Seq<u8>) -> Seq<u8>;

/// `sha2::Sha512::digest`, copied into a vector. The contract names its result:
/// the digest depends on the bytes alone, and is 64 bytes long.
#[verifier::external_body]
fn sha512(bytes: &[u8]) -> (d: Vec<u8>)
    ensures
        d@ == sha512_digest(bytes@),
        d@.len() == 64,
{
    Sha512::digest(bytes).to_vec()
}

fn int_to_mt_key(be: &[u8]) -> (key: Vec<u32>)
    ensures
        is_key_of(key@, be_value(be@)),
{
    let mut start: usize = 0;
    while start < be.len() && be[start] == 0
        invariant
            start <= be@.len(),
            forall|i: int| 0 <= i < start ==> be@[i] == 0,
        decreases be@.len() - start,
    {
        start += 1;
    }
    let mut key: Vec<u32> = Vec::new();
    let mut end: usize = be.len();
    proof {
        assert(be@.take(end as int) =~= be@);
        assert(radix(0) == 1);
    }
    while end > start
        invariant
            start <= end <= be@.len(),
            forall|i: int| 0 <= i < start ==> be@[i] == 0,
            start < be@.len() ==> be@[start as int] != 0,
            be_value(be@) == be_value(be@.take(end as int)) * radix(key@.len()) + words_value(key@),
            end < be@.len() ==> key@.len() > 0,
            end == start && key@.len() > 0 ==> key@.last() != 0,
        decreases end,
    {
        let ghost todo = be@.take(end as int);
        let b0: u8 = be[end - 1];
        let b1: u8 = if end - start >= 2 {
            be[end - 2]
        } else {
            0
        };
        let b2: u8 = if end - start >= 3 {
            be[end - 3]
        } else {
            0
        };
        let b3: u8 = if end - start >= 4 {
            be[end - 4]
        } else {
            0
        };
        let w: u32 = (b0 as u32) | ((b1 as u32) << 8) | ((b2 as u32) << 16) | ((b3 as u32) << 24);
        let next: usize = if end - start >= 4 {
            end - 4
        } else {
            start
        };
        proof {
            lemma_joined_bytes(b0, b1, b2, b3);
            lemma_last_word(be@, start as nat, end as nat, next as nat, b0, b1, b2, b3);
            lemma_push_word(key@, w);
            let high = be_value(be@.take(next as int));
            let r = radix(key@.len());
            assert(radix(key@.len() + 1) == 0x1_0000_0000 * r);
            assert((high * 0x1_0000_0000 + w as nat) * r == high * (0x1_0000_0000 * r) + w as nat * r)
                by (nonlinear_arith);
        }
        key.push(w);
        end = next;
    }
    if key.len() == 0 {
        proof {
            lemma_zero_bytes(be@);
        }
        key.push(0);
        assert(key@.drop_first() =~= Seq::<u32>::empty());
    } else {
        assert(be@.take(start as int).len() == start);
        proof {
            lemma_zero_bytes(be@.take(start as int));
        }
    }
    key
}

/// 2 to the power 32, `n` times.
spec fn radix(n: nat) -> nat
    decreases n,
{
    if n == 0 {
        1
    } else {
        0x1_0000_0000 * radix((n - 1) as nat)
    }
}

proof fn lemma_zero_bytes(b: Seq<u8>)
    requires
        forall|i: int| 0 <= i < b.len() ==> b[i] == 0,
    ensures
        be_value(b) == 0,
    decreases b.len(),
{
    if b.len() > 0 {
        lemma_zero_bytes(b.drop_last());
    }
}

proof fn lemma_push_word(k: Seq<u32>, w: u32)
    ensures
        words_value(k.push(w)) == words_value(k) + w as nat * radix(k.len()),
    decreases k.len(),
{
    if k.len() == 0 {
        assert(k.push(w).drop_first() =~= Seq::<u32>::empty());
        assert(words_value(Seq::<u32>::empty()) == 0 && words_value(k) == 0);
        assert(w as nat * radix(0) == w as nat) by (nonlinear_arith)
            requires
                radix(0) == 1,
        ;
    } else {
        assert(k.push(w).drop_first() =~= k.drop_first().push(w));
        lemma_push_word(k.drop_first(), w);
        let r = radix((k.len() - 1) as nat);
        assert(0x1_0000_0000 * (w as nat * r) == w as nat * (0x1_0000_0000 * r)) by (nonlinear_arith);
    }
}

proof fn lemma_joined_bytes(b0: u8, b1: u8, b2: u8, b3: u8)
    ensures
        ((b0 as u32) | ((b1 as u32) << 8) | ((b2 as u32) << 16) | ((b3 as u32) << 24)) == b0 + 256 * b1 + 65536 * b2
            + 16777216 * b3,
{
    assert(((b0 as u32) | ((b1 as u32) << 8) | ((b2 as u32) << 16) | ((b3 as u32) << 24)) == b0 + 256 * b1 + 65536 * b2
        + 16777216 * b3) by (bit_vector);
}

proof fn lemma_one_byte(b: Seq<u8>, end: nat)
    requires
        0 < end <= b.len(),
    ensures
        be_value(b.take(end as int)) == be_value(b.take(end - 1)) * 256 + b[end - 1] as nat,
{
    assert(b.take(end as int).drop_last() =~= b.take(end - 1));
}

proof fn lemma_last_word(b: Seq<u8>, start: nat, end: nat, next: nat, b0: u8, b1: u8, b2: u8, b3: u8)
    requires
        start < end <= b.len(),
        forall|i: int| 0 <= i < start ==> b[i] == 0,
        next == (if end - start >= 4 {
            (end - 4) as nat
        } else {
            start
        }),
        b0 == b[end - 1],
        b1 == (if end - start >= 2 {
            b[end - 2]
        } else {
            0
        }),
        b2 == (if end - start >= 3 {
            b[end - 3]
        } else {
            0
        }),
        b3 == (if end - start >= 4 {
            b[end - 4]
        } else {
            0
        }),
    ensures
        be_value(b.take(end as int)) == be_value(b.take(next as int)) * 0x1_0000_0000 + b0 + 256 * b1 + 65536 * b2
            + 16777216 * b3,
{
    lemma_zero_bytes(b.take(start as int));
    lemma_one_byte(b, end);
    if end - start >= 2 {
        lemma_one_byte(b, (end - 1) as nat);
    }
    if end - start >= 3 {
        lemma_one_byte(b, (end - 2) as nat);
    }
    if end - start >= 4 {
        lemma_one_byte(b, (end - 3) as nat);
    }
}

proof fn lemma_shifted_byte(n: u64, shift: u64)
    requires
        shift <= 56,
        shift % 8 == 0,
    ensures
        n as nat / pow2(shift as nat) == (n as nat / pow2((shift + 8) as nat)) * 256 + ((n >> shift) & 0xff) as u8 as nat,
{
    let m = n >> shift;
    assert((m & 0xff) as u8 as u64 == m % 256) by (bit_vector);
    vstd::bits::lemma_u64_shr_is_div(n, shift);
    lemma_pow2_adds(shift as nat, 8);
    lemma2_to64();
    lemma_pow2_pos(shift as nat);
    vstd::arithmetic::div_mod::lemma_div_denominator(n as int, pow2(shift as nat) as int, 256);
}

/// A number has one key: two keys of the same number are the same words.
pub proof fn lemma_key_unique(a: Seq<u32>, b: Seq<u32>, n: nat)
    requires
        is_key_of(a, n),
        is_key_of(b, n),
    ensures
        a == b,
{
    lemma_same_words(a, b);
}

proof fn lemma_same_words(a: Seq<u32>, b: Seq<u32>)
    requires
        words_value(a) == words_value(b),
        a.len() > 0,
        b.len() > 0,
        a.len() > 1 ==> a.last() != 0,
        b.len() > 1 ==> b.last() != 0,
    ensures
        a == b,
    decreases a.len() + b.len(),
{
    let (ta, tb) = (a.drop_first(), b.drop_first());
    assert(words_value(a) == a[0] as nat + 0x1_0000_0000 * words_value(ta));
    assert(words_value(b) == b[0] as nat + 0x1_0000_0000 * words_value(tb));
    assert(a[0] == b[0] && words_value(ta) == words_value(tb));
    if ta.len() > 0 && tb.len() > 0 {
        lemma_same_words(ta, tb);
        assert(a =~= seq![a[0]] + ta);
        assert(b =~= seq![b[0]] + tb);
    } else if ta.len() > 0 {
        lemma_nonzero_words(ta);
    } else if tb.len() > 0 {
        lemma_nonzero_words(tb);
    } else {
        assert(a =~= b);
    }
}

proof fn lemma_nonzero_words(w: Seq<u32>)
    requires
        w.len() > 0,
        w.last() != 0,
    ensures
        words_value(w) > 0,
    decreases w.len(),
{
    if w.len() > 1 {
        lemma_nonzero_words(w.drop_first());
    }
}

/// Moving on by one block leaves the rest of the sequence as it was.
proof fn lemma_block_shift(s: Seq<u32>, t: Seq<u32>, k: nat)
    requires
        s.len() == 624,
        t.len() == 624,
        forall|i: int| 0 <= i < 624 ==> #[trigger] t[i] == mt_word(s, (624 + i) as nat),
    ensures
        mt_word(t, k) == mt_word(s, 624 + k),
    decreases k,
{
    if k >= 624 {
        lemma_block_shift(s, t, (k - 227) as nat);
        lemma_block_shift(s, t, (k - 624) as nat);
        lemma_block_shift(s, t, (k - 623) as nat);
    }
}

/// The words to come are those of the block from the index on, and of the blocks
/// after it.
pub proof fn lemma_word(g: PyRandom, n: nat)
    ensures
        g.word(n) == temper(mt_word(g@.block, g@.index + n)),
{
}

/// What a generator gives as `k` bits after `t` attempts of a draw below `n` is the
/// next attempt.
pub proof fn lemma_attempt(g: PyRandom, later: PyRandom, n: u64, t: nat)
    requires
        later.follows(g, t * words_for(bit_len(n as nat) as u32)),
    ensures
        later.bits_from(0, bit_len(n as nat) as u32) == g.attempt(n, t),
{
    let w = words_for(bit_len(n as nat) as u32);
    assert(later.word(0) == g.word(0 + t * w));
    assert(later.word(1) == g.word(1 + t * w));
}

/// A draw below `n` gives the first attempt that is below `n`, and takes the words of
/// the attempts up to it and no others.
pub proof fn lemma_first_below(g: PyRandom, n: u64, next: PyRandom, out: Option<u64>, j: nat)
    requires
        n > 0,
        j < ATTEMPT_LIMIT,
        g.draws_below(n, next, out),
        g.attempt(n, j) < n,
        forall|u: nat| u < j ==> #[trigger] g.attempt(n, u) >= n,
    ensures
        out == Some(g.attempt(n, j)),
        next.follows(g, (j + 1) * words_for(bit_len(n as nat) as u32)),
{
    if let Some(r) = out {
        let t = choose|t: nat|
            {
                &&& t < ATTEMPT_LIMIT
                &&& #[trigger] g.attempt(n, t) == r
                &&& forall|u: nat| u < t ==> #[trigger] g.attempt(n, u) >= n
                &&& next.follows(g, (t + 1) * words_for(bit_len(n as nat) as u32))
            };
        assert(t == j) by {
            if t < j {
                assert(g.attempt(n, t) >= n);
            } else if j < t {
                assert(g.attempt(n, j) >= n);
            }
        }
    }
}

/// Generators that are seeded with the same number are in the same state and give the
/// same words.
pub proof fn lemma_same_seed(a: PyRandom, b: PyRandom, ka: Seq<u32>, kb: Seq<u32>, n: nat, i: nat)
    requires
        is_key_of(ka, n),
        is_key_of(kb, n),
        a.seeded_with(ka),
        b.seeded_with(kb),
    ensures
        a@ == b@,
        a.word(i) == b.word(i),
{
    lemma_key_unique(ka, kb, n);
}

} // verus!

//! The pseudo-random stream of a simulation: a PCG generator, the seed it was
//! started from and the index of the next draw in its stream.
use rand::SeedableRng;
use rand_pcg::Mcg128Xsl64;
use vstd::prelude::*;

verus! {

/// The 128-bit multiplicative PCG generator of `rand_pcg`.
#[verifier::external_type_specification]
#[verifier::external_body]
pub struct ExMcg128Xsl64(Mcg128Xsl64);

/// The generator that `Mcg128Xsl64::new` starts from `state`.
pub uninterp spec fn pcg_generator(state: u128) -> Mcg128Xsl64;

/// The generator that `Mcg128Xsl64::from_seed` starts from the 16 seed bytes.
pub uninterp spec fn seeded_generator(seed: Seq<u8>) -> Mcg128Xsl64;

/// The generator `rng` once `Mcg128Xsl64::advance` has moved it `delta` draws
/// ahead.
pub uninterp spec fn advanced(rng: Mcg128Xsl64, delta: u128) -> Mcg128Xsl64;

/// `Mcg128Xsl64::new`: a generator started from `state` (its low bit set),
/// named only; its state is private.
#[verifier::external_body]
fn generator(state: u128) -> (r: Mcg128Xsl64)
    ensures
        r == pcg_generator(state),
{
    Mcg128Xsl64::new(state)
}

/// `Mcg128Xsl64::from_seed`: a generator started from the 16 seed bytes, read
/// as a little-endian integer, named only.
#[verifier::external_body]
fn seeded(seed: [u8; 16]) -> (r: Mcg128Xsl64)
    ensures
        r == seeded_generator(seed@),
{
    Mcg128Xsl64::from_seed(seed)
}

/// `Mcg128Xsl64::advance`: jumps `delta` draws ahead in the stream, as
/// `delta` calls of `next_u64` would (behind, the long way round, for a
/// wrapped difference). Claimed: the result is named `advanced`, and two
/// jumps make one of the wrapped sum of their lengths, the state being
/// multiplied by a power of an odd multiplier modulo 2^128.
#[verifier::external_body]
fn advance(rng: &mut Mcg128Xsl64, delta: u128)
    ensures
        *final(rng) == advanced(*old(rng), delta),
        forall|g: Mcg128Xsl64, a: u128| *old(rng) == #[trigger] advanced(g, a)
            ==> *final(rng) == advanced(g, a.wrapping_add(delta)),
{
    rng.advance(delta)
}

/// `getrandom::getrandom`: 16 bytes from the system's entropy source, if it
/// answered. What they are, and whether it answers, is not claimed.
#[verifier::external_body]
fn entropy() -> Option<[u8; 16]> {
    let mut seed = [0u8; 16];
    match getrandom::getrandom(&mut seed) {
        Ok(()) => Some(seed),
        Err(_) => None,
    }
}

/// The 16 bytes of `v`, the least significant first.
pub open spec fn le_bytes(v: u128) -> Seq<u8> {
    Seq::new(16, |i: int| (v >> ((8 * i) as u128)) as u8)
}

/// The 16 bytes of `v`, the most significant first.
pub open spec fn be_bytes(v: u128) -> Seq<u8> {
    Seq::new(16, |i: int| le_bytes(v)[15 - i])
}

/// `u128::from_ne_bytes`: the integer whose bytes, in the machine's byte
/// order, are the given ones. Claimed: that order is little-endian or
/// big-endian; which one is not claimed.
#[verifier::external_body]
fn from_ne_bytes(bytes: [u8; 16]) -> (r: u128)
    ensures
        le_bytes(r) == bytes@ || be_bytes(r) == bytes@,
{
    u128::from_ne_bytes(bytes)
}

/// `u128::to_ne_bytes`: the bytes of `v`, in the machine's byte order.
/// Claimed: that order is little-endian or big-endian; which one is not
/// claimed.
#[verifier::external_body]
fn to_ne_bytes(v: u128) -> (r: [u8; 16])
    ensures
        r@ == le_bytes(v) || r@ == be_bytes(v),
{
    v.to_ne_bytes()
}

/// The bytes of an integer, least significant first, tell it apart.
proof fn lemma_le_bytes_injective(s: u128, t: u128)
    requires
        le_bytes(s) == le_bytes(t),
    ensures
        s == t,
{
    let a = le_bytes(s);
    let b = le_bytes(t);
    assert(a[0] == b[0] && a[1] == b[1] && a[2] == b[2] && a[3] == b[3]);
    assert(a[4] == b[4] && a[5] == b[5] && a[6] == b[6] && a[7] == b[7]);
    assert(a[8] == b[8] && a[9] == b[9] && a[10] == b[10] && a[11] == b[11]);
    assert(a[12] == b[12] && a[13] == b[13] && a[14] == b[14] && a[15] == b[15]);
    assert(s == t) by (bit_vector)
        requires
            (s >> 0u128) as u8 == (t >> 0u128) as u8,
            (s >> 8u128) as u8 == (t >> 8u128) as u8,
            (s >> 16u128) as u8 == (t >> 16u128) as u8,
            (s >> 24u128) as u8 == (t >> 24u128) as u8,
            (s >> 32u128) as u8 == (t >> 32u128) as u8,
            (s >> 40u128) as u8 == (t >> 40u128) as u8,
            (s >> 48u128) as u8 == (t >> 48u128) as u8,
            (s >> 56u128) as u8 == (t >> 56u128) as u8,
            (s >> 64u128) as u8 == (t >> 64u128) as u8,
            (s >> 72u128) as u8 == (t >> 72u128) as u8,
            (s >> 80u128) as u8 == (t >> 80u128) as u8,
            (s >> 88u128) as u8 == (t >> 88u128) as u8,
            (s >> 96u128) as u8 == (t >> 96u128) as u8,
            (s >> 104u128) as u8 == (t >> 104u128) as u8,
            (s >> 112u128) as u8 == (t >> 112u128) as u8,
            (s >> 120u128) as u8 == (t >> 120u128) as u8,
    ;
}

/// Law: different seeds have different bytes, in either byte order, so that
/// streams started from different seeds start from different seed bytes.
pub proof fn law_seed_bytes_distinct(s: u128, t: u128)
    requires
        s != t,
    ensures
        le_bytes(s) != le_bytes(t),
        be_bytes(s) != be_bytes(t),
        le_bytes(s).len() == 16 && be_bytes(s).len() == 16,
{
    if le_bytes(s) == le_bytes(t) {
        lemma_le_bytes_injective(s, t);
    }
    if be_bytes(s) == be_bytes(t) {
        assert(le_bytes(s) =~= le_bytes(t)) by {
            assert forall|i: int| 0 <= i < 16 implies le_bytes(s)[i] == le_bytes(t)[i] by {
                assert(be_bytes(s)[15 - i] == be_bytes(t)[15 - i]);
            }
        }
        lemma_le_bytes_injective(s, t);
    }
}

/// The generator started from the bytes of `seed`, in one byte order or the
/// other.
pub open spec fn seeded_from(rng: Mcg128Xsl64, seed: u128) -> bool {
    rng == seeded_generator(le_bytes(seed)) || rng == seeded_generator(be_bytes(seed))
}

/// The system's entropy source did not answer.
#[derive(Clone, Copy, PartialEq, Eq, Structural, Debug)]
pub struct SeedError;

impl SeedError {
    /// The text explaining this error.
    pub fn why(&self) -> (r: &'static str)
        ensures
            r@ == "could not seed random engine"@,
    {
        "could not seed random engine"
    }
}

/// A pseudo-random stream: its generator, its seed and the index of its next
/// draw.
pub struct Random {
    rng: Mcg128Xsl64,
    index: u128,
    seed: u128,
    /// The generator as the stream was last started.
    start: Ghost<Mcg128Xsl64>,
}

impl Random {
    pub closed spec fn spec_index(&self) -> u128 {
        self.index
    }

    pub closed spec fn spec_seed(&self) -> u128 {
        self.seed
    }

    /// The generator of the next draw.
    pub closed spec fn stream(&self) -> Mcg128Xsl64 {
        self.rng
    }

    /// The generator as the stream was last started.
    pub closed spec fn start(&self) -> Mcg128Xsl64 {
        self.start@
    }

    /// A stream seeded with `seed`, or else from the system's entropy source,
    /// at its start.
    pub fn new(seed: Option<u128>) -> (r: Result<Self, SeedError>)
        ensures
            match r {
                Ok(random) => random.spec_index() == 0
                    && random.stream() == random.start()
                    && seeded_from(random.stream(), random.spec_seed())
                    && (seed matches Some(s) ==> random.spec_seed() == s),
                Err(_) => seed is None,
            },
    {
        let rng = generator(0xCAFEF00DD15EA5E5);
        let mut random = Random { rng, seed: 0, index: 0, start: Ghost(rng) };
        random.initialise(seed)?;
        Ok(random)
    }

    /// The index of the next draw.
    pub fn index(&self) -> (r: u128)
        ensures
            r == self.spec_index(),
    {
        self.index
    }

    /// The seed of the stream.
    pub fn seed(&self) -> (r: u128)
        ensures
            r == self.spec_seed(),
    {
        self.seed
    }

    /// Restarts the stream from `seed`, or else from the system's entropy
    /// source. When that source does not answer, nothing changes.
    pub fn initialise(&mut self, seed: Option<u128>) -> (r: Result<(), SeedError>)
        ensures
            match r {
                Ok(()) => final(self).spec_index() == 0
                    && final(self).stream() == final(self).start()
                    && (exists|b: Seq<u8>| b.len() == 16 && final(self).stream() == #[trigger] seeded_generator(b))
                    && seeded_from(final(self).stream(), final(self).spec_seed())
                    && (seed matches Some(s) ==> final(self).spec_seed() == s),
                Err(_) => seed is None && *final(self) == *old(self),
            },
    {
        match seed {
            None => {
                let bytes = match entropy() {
                    None => return Err(SeedError),
                    Some(bytes) => bytes,
                };
                self.rng = seeded(bytes);
                self.seed = from_ne_bytes(bytes);
            },
            Some(seed) => {
                self.seed = seed;
                self.rng = seeded(to_ne_bytes(seed));
            },
        }
        self.index = 0;
        self.start = Ghost(self.rng);
        Ok(())
    }

    /// Moves the stream to the draw of index `index`, or back to its start.
    pub fn set_index(&mut self, index: Option<u128>)
        ensures
            final(self).spec_index() == match index {
                Some(i) => i,
                None => 0,
            },
            final(self).spec_seed() == old(self).spec_seed(),
            match index {
                Some(i) => final(self).start() == old(self).start()
                    && final(self).stream() == advanced(old(self).stream(), i.wrapping_sub(old(self).spec_index()))
                    && (old(self).stream() == advanced(old(self).start(), old(self).spec_index())
                        ==> final(self).stream() == advanced(final(self).start(), i)),
                None => final(self).stream() == final(self).start()
                    && seeded_from(final(self).stream(), final(self).spec_seed()),
            },
    {
        match index {
            None => {
                let seed = self.seed;
                let r = self.initialise(Some(seed));
                assert(r is Ok);
            },
            Some(index) => {
                let delta = index.wrapping_sub(self.index);
                advance(&mut self.rng, delta);
                assert(self.index.wrapping_add(delta) == index);
                self.index = index;
            },
        }
    }

    /// Restarts the stream from `seed`, or else from the system's entropy
    /// source.
    pub fn set_seed(&mut self, seed: Option<u128>) -> (r: Result<(), SeedError>)
        ensures
            match r {
                Ok(()) => final(self).spec_index() == 0
                    && final(self).stream() == final(self).start()
                    && seeded_from(final(self).stream(), final(self).spec_seed())
                    && (seed matches Some(s) ==> final(self).spec_seed() == s),
                Err(_) => seed is None && *final(self) == *old(self),
            },
    {
        self.initialise(seed)
    }

    /// The generator to take the next draw from, the index moving past it.
    pub fn draw(&mut self) -> (r: &mut Mcg128Xsl64)
        requires
            old(self).spec_index() < u128::MAX,
        ensures
            final(self).spec_index() == old(self).spec_index() + 1,
            final(self).spec_seed() == old(self).spec_seed(),
            final(self).start() == old(self).start(),
            *r == old(self).stream(),
            final(self).stream() == *final(r),
    {
        self.index = self.index + 1;
        &mut self.rng
    }
}

} // verus!

//! Samples and their little-endian byte form.
//!
//! A sample is one channel instant of the 32-bit float stream, carried as its
//! IEEE-754 bit pattern so that serialization is exact. Silence is the zero
//! pattern, whose four bytes are zero.

use vstd::prelude::*;

verus! {

/// One channel-sample: the bit pattern of a 32-bit float.
pub type Sample = u32;

/// The four little-endian bytes of one sample.
pub open spec fn le_bytes_of_sample(s: Sample) -> Seq<u8> {
    seq![
        (s & 0xff) as u8,
        ((s >> 8) & 0xff) as u8,
        ((s >> 16) & 0xff) as u8,
        ((s >> 24) & 0xff) as u8,
    ]
}

/// The sample whose little-endian bytes are `b0 b1 b2 b3`.
pub open spec fn sample_of_le_bytes(b0: u8, b1: u8, b2: u8, b3: u8) -> Sample {
    ((b0 as u32) | ((b1 as u32) << 8) | ((b2 as u32) << 16) | ((b3 as u32) << 24)) as u32
}

/// The byte stream of a sample sequence: each sample's four little-endian
/// bytes, in order.
pub open spec fn bytes_of_samples(s: Seq<Sample>) -> Seq<u8>
    decreases s.len(),
{
    if s.len() == 0 {
        Seq::empty()
    } else {
        le_bytes_of_sample(s[0]) + bytes_of_samples(s.drop_first())
    }
}

/// A sample's bytes decode back to the same sample: the little-endian
/// identity that lets a consumer recover every sample bit-exactly.
pub proof fn lemma_sample_le_round_trip(s: Sample)
    ensures
        sample_of_le_bytes(
            le_bytes_of_sample(s)[0],
            le_bytes_of_sample(s)[1],
            le_bytes_of_sample(s)[2],
            le_bytes_of_sample(s)[3],
        ) == s,
{
    assert(((((s & 0xff) as u8) as u32) | ((((s >> 8) & 0xff) as u8) as u32) << 8 | ((((s >> 16)
        & 0xff) as u8) as u32) << 16 | ((((s >> 24) & 0xff) as u8) as u32) << 24) as u32 == s)
        by (bit_vector);
}

/// Four bytes encode back to the same bytes: the other direction of the
/// little-endian identity.
pub proof fn lemma_bytes_le_round_trip(b0: u8, b1: u8, b2: u8, b3: u8)
    ensures
        le_bytes_of_sample(sample_of_le_bytes(b0, b1, b2, b3)) == seq![b0, b1, b2, b3],
{
    let s = sample_of_le_bytes(b0, b1, b2, b3);
    assert((((b0 as u32) | ((b1 as u32) << 8) | ((b2 as u32) << 16) | ((b3 as u32) << 24)) as u32)
        & 0xff == b0 as u32) by (bit_vector);
    assert(((((b0 as u32) | ((b1 as u32) << 8) | ((b2 as u32) << 16) | ((b3 as u32) << 24)) as u32)
        >> 8) & 0xff == b1 as u32) by (bit_vector);
    assert(((((b0 as u32) | ((b1 as u32) << 8) | ((b2 as u32) << 16) | ((b3 as u32) << 24)) as u32)
        >> 16) & 0xff == b2 as u32) by (bit_vector);
    assert(((((b0 as u32) | ((b1 as u32) << 8) | ((b2 as u32) << 16) | ((b3 as u32) << 24)) as u32)
        >> 24) & 0xff == b3 as u32) by (bit_vector);
    assert(le_bytes_of_sample(s) =~= seq![b0, b1, b2, b3]);
}

/// The byte stream of `n` samples is `4 * n` bytes long.
pub proof fn lemma_bytes_of_samples_len(s: Seq<Sample>)
    ensures
        bytes_of_samples(s).len() == 4 * s.len(),
    decreases s.len(),
{
    if s.len() > 0 {
        lemma_bytes_of_samples_len(s.drop_first());
    }
}

/// Serializes samples to their little-endian byte stream.
pub fn serialize_samples(samples: &Vec<Sample>) -> (r: Vec<u8>)
    ensures
        r@ == bytes_of_samples(samples@),
        r@.len() == 4 * samples@.len(),
{
    let mut out: Vec<u8> = Vec::new();
    let mut i: usize = 0;
    proof {
        assert(samples@.take(0) =~= Seq::<Sample>::empty());
    }
    while i < samples.len()
        invariant
            i <= samples@.len(),
            out@ == bytes_of_samples(samples@.take(i as int)),
            out@.len() == 4 * i,
        decreases samples@.len() - i,
    {
        proof {
            lemma_bytes_of_samples_len(samples@.take(i as int));
        }
        let s = samples[i];
        out.push((s & 0xff) as u8);
        out.push(((s >> 8) & 0xff) as u8);
        out.push(((s >> 16) & 0xff) as u8);
        out.push(((s >> 24) & 0xff) as u8);
        proof {
            lemma_bytes_of_samples_take_one_more(samples@, i as int);
        }
        i = i + 1;
    }
    proof {
        assert(samples@.take(samples@.len() as int) =~= samples@);
        lemma_bytes_of_samples_len(samples@);
    }
    out
}

/// Appending one sample appends its four bytes to the stream.
proof fn lemma_bytes_of_samples_take_one_more(s: Seq<Sample>, i: int)
    requires
        0 <= i < s.len(),
    ensures
        bytes_of_samples(s.take(i + 1)) == bytes_of_samples(s.take(i)) + le_bytes_of_sample(s[i]),
    decreases i,
{
    if i == 0 {
        assert(s.take(1).drop_first() =~= Seq::<Sample>::empty());
        assert(s.take(0) =~= Seq::<Sample>::empty());
        assert(bytes_of_samples(s.take(1)) =~= bytes_of_samples(s.take(0)) + le_bytes_of_sample(
            s[0],
        ));
    } else {
        lemma_bytes_of_samples_take_one_more(s.drop_first(), i - 1);
        assert(s.take(i + 1).drop_first() =~= s.drop_first().take(i));
        assert(s.take(i).drop_first() =~= s.drop_first().take(i - 1));
        assert(s.take(i + 1)[0] == s[0]);
        assert(s.take(i)[0] == s[0]);
        assert(bytes_of_samples(s.take(i + 1)) =~= bytes_of_samples(s.take(i))
            + le_bytes_of_sample(s[i]));
    }
}

/// Decodes a little-endian byte stream back to samples.
pub fn raw_samples_from_bytes(bytes: &Vec<u8>) -> (r: Vec<Sample>)
    requires
        bytes@.len() % 4 == 0,
    ensures
        bytes_of_samples(r@) == bytes@,
        r@.len() * 4 == bytes@.len(),
{
    let mut out: Vec<Sample> = Vec::new();
    let count = bytes.len() / 4;
    proof {
        assert(bytes@.take(0) =~= Seq::<u8>::empty());
        assert(4 * count == bytes@.len());
    }
    let mut k: usize = 0;
    while k < count
        invariant
            k <= count,
            4 * count <= usize::MAX,
            4 * count == bytes@.len(),
            bytes_of_samples(out@) == bytes@.take(4 * k),
            out@.len() == k,
        decreases count - k,
    {
        let i = 4 * k;
        let b0 = bytes[i];
        let b1 = bytes[i + 1];
        let b2 = bytes[i + 2];
        let b3 = bytes[i + 3];
        let s: u32 = (b0 as u32) | ((b1 as u32) << 8) | ((b2 as u32) << 16) | ((b3 as u32) << 24);
        proof {
            lemma_bytes_le_round_trip(b0, b1, b2, b3);
            assert(s == sample_of_le_bytes(b0, b1, b2, b3));
            lemma_bytes_of_samples_snoc(out@, s);
            assert(bytes@.take(4 * (k + 1)) =~= bytes@.take(4 * k as int) + seq![b0, b1, b2, b3]);
        }
        out.push(s);
        k = k + 1;
    }
    proof {
        assert(bytes@.take(4 * count as int) =~= bytes@);
    }
    out
}

/// Appending one sample to a sequence appends its bytes to the stream.
proof fn lemma_bytes_of_samples_snoc(s: Seq<Sample>, x: Sample)
    ensures
        bytes_of_samples(s.push(x)) == bytes_of_samples(s) + le_bytes_of_sample(x),
    decreases s.len(),
{
    if s.len() == 0 {
        assert(s.push(x)[0] == x);
        assert(s.push(x).drop_first() =~= Seq::<Sample>::empty());
        assert(bytes_of_samples(Seq::<Sample>::empty()) == Seq::<u8>::empty());
        assert(bytes_of_samples(s.push(x)) =~= bytes_of_samples(s) + le_bytes_of_sample(x));
    } else {
        lemma_bytes_of_samples_snoc(s.drop_first(), x);
        assert(s.push(x)[0] == s[0]);
        assert(s.push(x).drop_first() =~= s.drop_first().push(x));
        assert(bytes_of_samples(s.push(x)) == le_bytes_of_sample(s[0]) + (bytes_of_samples(
            s.drop_first(),
        ) + le_bytes_of_sample(x)));
        assert(bytes_of_samples(s.push(x)) =~= bytes_of_samples(s) + le_bytes_of_sample(x));
    }
}

} // verus!

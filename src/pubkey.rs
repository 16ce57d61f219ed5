use vstd::prelude::*;

verus! {

/// A 32-byte account identifier, held as four little-endian 64-bit words so
/// that equality and hashing go by value.
#[derive(Clone, Copy, Debug, PartialEq, Eq, Structural, Hash)]
pub struct Pubkey {
    pub w0: u64,
    pub w1: u64,
    pub w2: u64,
    pub w3: u64,
}

/// The eight little-endian bytes of `x`.
pub open spec fn le_bytes(x: u64) -> Seq<u8> {
    seq![
        x as u8,
        (x >> 8u64) as u8,
        (x >> 16u64) as u8,
        (x >> 24u64) as u8,
        (x >> 32u64) as u8,
        (x >> 40u64) as u8,
        (x >> 48u64) as u8,
        (x >> 56u64) as u8,
    ]
}

/// The little-endian 64-bit integer that starts at position `p` of `b`.
pub open spec fn u64_at(b: Seq<u8>, p: int) -> u64 {
    (b[p] as u64) | ((b[p + 1] as u64) << 8u64) | ((b[p + 2] as u64) << 16u64) | ((b[p + 3] as u64)
        << 24u64) | ((b[p + 4] as u64) << 32u64) | ((b[p + 5] as u64) << 40u64) | ((b[p + 6] as u64)
        << 48u64) | ((b[p + 7] as u64) << 56u64)
}

/// The 32 bytes of a key.
pub open spec fn pubkey_bytes(k: Pubkey) -> Seq<u8> {
    le_bytes(k.w0) + le_bytes(k.w1) + le_bytes(k.w2) + le_bytes(k.w3)
}

/// The key whose 32 bytes start at position `p` of `b`.
pub open spec fn pubkey_at(b: Seq<u8>, p: int) -> Pubkey {
    Pubkey { w0: u64_at(b, p), w1: u64_at(b, p + 8), w2: u64_at(b, p + 16), w3: u64_at(b, p + 24) }
}

proof fn lemma_u64_of_le_bytes(x: u64)
    ensures
        u64_at(le_bytes(x), 0) == x,
{
    let b = le_bytes(x);
    assert(((x as u8) as u64) | ((((x >> 8u64) as u8) as u64) << 8u64) | ((((x >> 16u64) as u8) as u64)
        << 16u64) | ((((x >> 24u64) as u8) as u64) << 24u64) | ((((x >> 32u64) as u8) as u64)
        << 32u64) | ((((x >> 40u64) as u8) as u64) << 40u64) | ((((x >> 48u64) as u8) as u64)
        << 48u64) | ((((x >> 56u64) as u8) as u64) << 56u64) == x) by (bit_vector);
}

/// Reading eight bytes that hold the encoding of `x` gives back `x`.
pub proof fn lemma_u64_at(b: Seq<u8>, p: int, x: u64)
    requires
        0 <= p,
        p + 8 <= b.len(),
        b.subrange(p, p + 8) == le_bytes(x),
    ensures
        u64_at(b, p) == x,
{
    lemma_u64_of_le_bytes(x);
    let e = le_bytes(x);
    assert forall|i: int| 0 <= i < 8 implies b[p + i] == e[i] by {
        assert(b.subrange(p, p + 8)[i] == b[p + i]);
    }
    assert(u64_at(b, p) == u64_at(e, 0));
}

/// Reading 32 bytes that hold the encoding of `k` gives back `k`.
pub proof fn lemma_pubkey_at(b: Seq<u8>, p: int, k: Pubkey)
    requires
        0 <= p,
        p + 32 <= b.len(),
        b.subrange(p, p + 32) == pubkey_bytes(k),
    ensures
        pubkey_at(b, p) == k,
{
    let e = pubkey_bytes(k);
    let s = b.subrange(p, p + 32);
    assert(b.subrange(p, p + 8) == e.subrange(0, 8));
    assert(b.subrange(p + 8, p + 16) == e.subrange(8, 16));
    assert(b.subrange(p + 16, p + 24) == e.subrange(16, 24));
    assert(b.subrange(p + 24, p + 32) == e.subrange(24, 32));
    assert(e.subrange(0, 8) == le_bytes(k.w0));
    assert(e.subrange(8, 16) == le_bytes(k.w1));
    assert(e.subrange(16, 24) == le_bytes(k.w2));
    assert(e.subrange(24, 32) == le_bytes(k.w3));
    lemma_u64_at(b, p, k.w0);
    lemma_u64_at(b, p + 8, k.w1);
    lemma_u64_at(b, p + 16, k.w2);
    lemma_u64_at(b, p + 24, k.w3);
}

/// Reads the little-endian integer at position `p`.
pub fn read_u64(b: &Vec<u8>, p: usize) -> (r: u64)
    requires
        p + 8 <= b@.len(),
    ensures
        r == u64_at(b@, p as int),
{
    let n: usize = b.len();
    assert(p + 8 <= n);
    (b[p] as u64) | ((b[p + 1] as u64) << 8u64) | ((b[p + 2] as u64) << 16u64) | ((b[p + 3] as u64)
        << 24u64) | ((b[p + 4] as u64) << 32u64) | ((b[p + 5] as u64) << 40u64) | ((b[p + 6] as u64)
        << 48u64) | ((b[p + 7] as u64) << 56u64)
}

/// Appends the eight little-endian bytes of `x`.
pub fn write_u64(out: &mut Vec<u8>, x: u64)
    ensures
        final(out)@ == old(out)@ + le_bytes(x),
{
    out.push(x as u8);
    out.push((x >> 8u64) as u8);
    out.push((x >> 16u64) as u8);
    out.push((x >> 24u64) as u8);
    out.push((x >> 32u64) as u8);
    out.push((x >> 40u64) as u8);
    out.push((x >> 48u64) as u8);
    out.push((x >> 56u64) as u8);
    assert(final(out)@ == old(out)@ + le_bytes(x));
}

impl Pubkey {
    /// Reads the key whose 32 bytes start at position `p`.
    pub fn read(b: &Vec<u8>, p: usize) -> (r: Pubkey)
        requires
            p + 32 <= b@.len(),
        ensures
            r == pubkey_at(b@, p as int),
    {
        let n: usize = b.len();
        assert(p + 32 <= n);
        Pubkey {
            w0: read_u64(b, p),
            w1: read_u64(b, p + 8),
            w2: read_u64(b, p + 16),
            w3: read_u64(b, p + 24),
        }
    }

    /// Appends the 32 bytes of the key.
    pub fn write(&self, out: &mut Vec<u8>)
        ensures
            final(out)@ == old(out)@ + pubkey_bytes(*self),
    {
        write_u64(out, self.w0);
        write_u64(out, self.w1);
        write_u64(out, self.w2);
        write_u64(out, self.w3);
        assert(final(out)@ == old(out)@ + pubkey_bytes(*self));
    }

    /// The key held in 32 bytes, as a key's bytes are written on the wire.
    pub fn from_bytes(bytes: &Vec<u8>) -> (r: Option<Pubkey>)
        ensures
            r.is_some() <==> bytes@.len() == 32,
            r.is_some() ==> r.unwrap() == pubkey_at(bytes@, 0) && pubkey_bytes(r.unwrap()) == bytes@,
    {
        if bytes.len() == 32 {
            let k = Pubkey::read(bytes, 0);
            proof { lemma_pubkey_bytes_of_at(bytes@); }
            Some(k)
        } else {
            None
        }
    }

    /// The 32 bytes of the key.
    pub fn to_bytes(&self) -> (r: Vec<u8>)
        ensures
            r@ == pubkey_bytes(*self),
            Pubkey::from_bytes_spec(r@) == *self,
    {
        let mut out: Vec<u8> = Vec::new();
        self.write(&mut out);
        proof {
            assert(out@ == pubkey_bytes(*self));
            assert(out@.subrange(0, 32) == out@);
            lemma_pubkey_at(out@, 0, *self);
        }
        out
    }

    pub open spec fn from_bytes_spec(b: Seq<u8>) -> Pubkey {
        pubkey_at(b, 0)
    }
}

proof fn lemma_le_bytes_of_at(b: Seq<u8>, p: int)
    requires
        0 <= p,
        p + 8 <= b.len(),
    ensures
        le_bytes(u64_at(b, p)) == b.subrange(p, p + 8),
{
    let b0 = b[p];
    let b1 = b[p + 1];
    let b2 = b[p + 2];
    let b3 = b[p + 3];
    let b4 = b[p + 4];
    let b5 = b[p + 5];
    let b6 = b[p + 6];
    let b7 = b[p + 7];
    let x = u64_at(b, p);
    assert(x == (b0 as u64) | ((b1 as u64) << 8u64) | ((b2 as u64) << 16u64) | ((b3 as u64) << 24u64)
        | ((b4 as u64) << 32u64) | ((b5 as u64) << 40u64) | ((b6 as u64) << 48u64) | ((b7 as u64)
        << 56u64));
    assert(x as u8 == b0 && (x >> 8u64) as u8 == b1 && (x >> 16u64) as u8 == b2 && (x >> 24u64) as u8
        == b3 && (x >> 32u64) as u8 == b4 && (x >> 40u64) as u8 == b5 && (x >> 48u64) as u8 == b6
        && (x >> 56u64) as u8 == b7) by (bit_vector)
        requires
            x == (b0 as u64) | ((b1 as u64) << 8u64) | ((b2 as u64) << 16u64) | ((b3 as u64) << 24u64)
                | ((b4 as u64) << 32u64) | ((b5 as u64) << 40u64) | ((b6 as u64) << 48u64) | ((b7
                as u64) << 56u64),
    ;
    assert(le_bytes(x) =~= b.subrange(p, p + 8));
}

proof fn lemma_pubkey_bytes_of_at(b: Seq<u8>)
    requires
        b.len() == 32,
    ensures
        pubkey_bytes(pubkey_at(b, 0)) == b,
{
    lemma_le_bytes_of_at(b, 0);
    lemma_le_bytes_of_at(b, 8);
    lemma_le_bytes_of_at(b, 16);
    lemma_le_bytes_of_at(b, 24);
    assert(pubkey_bytes(pubkey_at(b, 0)) =~= b);
}

} // verus!

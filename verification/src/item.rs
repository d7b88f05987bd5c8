use vstd::prelude::*;

verus! {

/// A value that can live in a virtual array: it has a fixed byte size and a
/// byte codec that loses no information.  Pages store items back to back with
/// no per-item framing, so every item of one type must encode to the same
/// number of bytes, and decoding must accept any byte pattern of that length.
pub trait Item: Sized + Copy {
    /// Byte length of every encoded value of this type.
    spec fn size_spec() -> nat;

    /// The encoded bytes of this value.
    spec fn enc(self) -> Seq<u8>;

    /// Encodings have the fixed length, are at least one byte, and determine
    /// the value: equal encodings mean equal values.
    proof fn lemma_enc(a: Self, b: Self)
        ensures
            Self::size_spec() >= 1,
            a.enc().len() == Self::size_spec(),
            a.enc() == b.enc() ==> a == b,
    ;

    fn byte_size() -> (n: usize)
        ensures
            n as nat == Self::size_spec(),
            n >= 1,
    ;

    fn encode(self) -> (b: Vec<u8>)
        ensures
            b@ == self.enc(),
    ;

    fn decode(b: &[u8]) -> (r: Self)
        requires
            b@.len() == Self::size_spec(),
        ensures
            r.enc() == b@,
    ;
}

impl Item for u8 {
    open spec fn size_spec() -> nat {
        1
    }

    open spec fn enc(self) -> Seq<u8> {
        seq![self]
    }

    proof fn lemma_enc(a: Self, b: Self) {
        if a.enc() == b.enc() {
            assert(a == a.enc()[0]);
            assert(b == b.enc()[0]);
        }
    }

    fn byte_size() -> (n: usize) {
        1
    }

    fn encode(self) -> (b: Vec<u8>) {
        let mut b: Vec<u8> = Vec::new();
        b.push(self);
        proof {
            assert(b@ =~= self.enc());
        }
        b
    }

    fn decode(b: &[u8]) -> (r: Self) {
        let r = b[0];
        proof {
            assert(r.enc() =~= b@);
        }
        r
    }
}


/// Little-endian byte image of a 32-bit value.
pub open spec fn spec_u32_le(x: u32) -> Seq<u8> {
    seq![
        (x & 0xff) as u8,
        ((x >> 8) & 0xff) as u8,
        ((x >> 16) & 0xff) as u8,
        ((x >> 24) & 0xff) as u8,
    ]
}

impl Item for u32 {
    open spec fn size_spec() -> nat {
        4
    }

    open spec fn enc(self) -> Seq<u8> {
        spec_u32_le(self)
    }

    proof fn lemma_enc(a: Self, b: Self) {
        if a.enc() == b.enc() {
            assert(a.enc()[0] == b.enc()[0] && a.enc()[1] == b.enc()[1]
                && a.enc()[2] == b.enc()[2] && a.enc()[3] == b.enc()[3]);
            assert(a == b) by (bit_vector)
                requires
                    (a & 0xff) as u8 == (b & 0xff) as u8,
                    ((a >> 8) & 0xff) as u8 == ((b >> 8) & 0xff) as u8,
                    ((a >> 16) & 0xff) as u8 == ((b >> 16) & 0xff) as u8,
                    ((a >> 24) & 0xff) as u8 == ((b >> 24) & 0xff) as u8,
            ;
        }
    }

    fn byte_size() -> (n: usize) {
        4
    }

    fn encode(self) -> (b: Vec<u8>) {
        let mut b: Vec<u8> = Vec::new();
        b.push((self & 0xff) as u8);
        b.push(((self >> 8) & 0xff) as u8);
        b.push(((self >> 16) & 0xff) as u8);
        b.push(((self >> 24) & 0xff) as u8);
        proof {
            assert(b@ =~= self.enc());
        }
        b
    }

    fn decode(b: &[u8]) -> (r: Self) {
        let r = (b[0] as u32) | ((b[1] as u32) << 8) | ((b[2] as u32) << 16)
            | ((b[3] as u32) << 24);
        proof {
            let b0 = b@[0];
            let b1 = b@[1];
            let b2 = b@[2];
            let b3 = b@[3];
            assert((r & 0xff) as u8 == b0 && ((r >> 8) & 0xff) as u8 == b1
                && ((r >> 16) & 0xff) as u8 == b2 && ((r >> 24) & 0xff) as u8 == b3)
                by (bit_vector)
                requires
                    r == (b0 as u32) | ((b1 as u32) << 8) | ((b2 as u32) << 16)
                        | ((b3 as u32) << 24),
            ;
            assert(r.enc() =~= b@);
        }
        r
    }
}

/// Little-endian byte image of a 64-bit value.
pub open spec fn spec_u64_le(x: u64) -> Seq<u8> {
    seq![
        (x & 0xff) as u8,
        ((x >> 8) & 0xff) as u8,
        ((x >> 16) & 0xff) as u8,
        ((x >> 24) & 0xff) as u8,
        ((x >> 32) & 0xff) as u8,
        ((x >> 40) & 0xff) as u8,
        ((x >> 48) & 0xff) as u8,
        ((x >> 56) & 0xff) as u8,
    ]
}

impl Item for u64 {
    open spec fn size_spec() -> nat {
        8
    }

    open spec fn enc(self) -> Seq<u8> {
        spec_u64_le(self)
    }

    proof fn lemma_enc(a: Self, b: Self) {
        if a.enc() == b.enc() {
            assert(forall|i: int| 0 <= i < 8 ==> a.enc()[i] == b.enc()[i]);
            assert(a.enc()[0] == b.enc()[0] && a.enc()[1] == b.enc()[1]
                && a.enc()[2] == b.enc()[2] && a.enc()[3] == b.enc()[3]
                && a.enc()[4] == b.enc()[4] && a.enc()[5] == b.enc()[5]
                && a.enc()[6] == b.enc()[6] && a.enc()[7] == b.enc()[7]);
            assert(a == b) by (bit_vector)
                requires
                    (a & 0xff) as u8 == (b & 0xff) as u8,
                    ((a >> 8) & 0xff) as u8 == ((b >> 8) & 0xff) as u8,
                    ((a >> 16) & 0xff) as u8 == ((b >> 16) & 0xff) as u8,
                    ((a >> 24) & 0xff) as u8 == ((b >> 24) & 0xff) as u8,
                    ((a >> 32) & 0xff) as u8 == ((b >> 32) & 0xff) as u8,
                    ((a >> 40) & 0xff) as u8 == ((b >> 40) & 0xff) as u8,
                    ((a >> 48) & 0xff) as u8 == ((b >> 48) & 0xff) as u8,
                    ((a >> 56) & 0xff) as u8 == ((b >> 56) & 0xff) as u8,
            ;
        }
    }

    fn byte_size() -> (n: usize) {
        8
    }

    fn encode(self) -> (b: Vec<u8>) {
        let mut b: Vec<u8> = Vec::new();
        b.push((self & 0xff) as u8);
        b.push(((self >> 8) & 0xff) as u8);
        b.push(((self >> 16) & 0xff) as u8);
        b.push(((self >> 24) & 0xff) as u8);
        b.push(((self >> 32) & 0xff) as u8);
        b.push(((self >> 40) & 0xff) as u8);
        b.push(((self >> 48) & 0xff) as u8);
        b.push(((self >> 56) & 0xff) as u8);
        proof {
            assert(b@ =~= self.enc());
        }
        b
    }

    fn decode(b: &[u8]) -> (r: Self) {
        let r = (b[0] as u64) | ((b[1] as u64) << 8) | ((b[2] as u64) << 16)
            | ((b[3] as u64) << 24) | ((b[4] as u64) << 32) | ((b[5] as u64) << 40)
            | ((b[6] as u64) << 48) | ((b[7] as u64) << 56);
        proof {
            let b0 = b@[0];
            let b1 = b@[1];
            let b2 = b@[2];
            let b3 = b@[3];
            let b4 = b@[4];
            let b5 = b@[5];
            let b6 = b@[6];
            let b7 = b@[7];
            assert((r & 0xff) as u8 == b0 && ((r >> 8) & 0xff) as u8 == b1
                && ((r >> 16) & 0xff) as u8 == b2 && ((r >> 24) & 0xff) as u8 == b3
                && ((r >> 32) & 0xff) as u8 == b4 && ((r >> 40) & 0xff) as u8 == b5
                && ((r >> 48) & 0xff) as u8 == b6 && ((r >> 56) & 0xff) as u8 == b7)
                by (bit_vector)
                requires
                    r == (b0 as u64) | ((b1 as u64) << 8) | ((b2 as u64) << 16)
                        | ((b3 as u64) << 24) | ((b4 as u64) << 32) | ((b5 as u64) << 40)
                        | ((b6 as u64) << 48) | ((b7 as u64) << 56),
            ;
            assert(r.enc() =~= b@);
        }
        r
    }
}

/// A small two-field record, showing how a multi-field value is laid out in a
/// page: one byte per field, first field first.
#[derive(Clone, Copy, Debug, PartialEq, Eq, Structural)]
pub struct BytePair {
    pub first: u8,
    pub second: u8,
}

impl Item for BytePair {
    open spec fn size_spec() -> nat {
        2
    }

    open spec fn enc(self) -> Seq<u8> {
        seq![self.first, self.second]
    }

    proof fn lemma_enc(a: Self, b: Self) {
        if a.enc() == b.enc() {
            assert(a.first == a.enc()[0] && a.second == a.enc()[1]);
            assert(b.first == b.enc()[0] && b.second == b.enc()[1]);
        }
    }

    fn byte_size() -> (n: usize) {
        2
    }

    fn encode(self) -> (b: Vec<u8>) {
        let mut b: Vec<u8> = Vec::new();
        b.push(self.first);
        b.push(self.second);
        proof {
            assert(b@ =~= self.enc());
        }
        b
    }

    fn decode(b: &[u8]) -> (r: Self) {
        let r = BytePair { first: b[0], second: b[1] };
        proof {
            assert(r.enc() =~= b@);
        }
        r
    }
}

} // verus!

use vstd::prelude::*;

verus! {

/// A growable bit set packed into bytes, least significant bit first
/// within each byte. It backs the per-connection flag set and carries a
/// peer's advertised piece map.
#[derive(Debug)]
pub struct BitMap {
    data: Vec<u8>,
}

/// Whether bit `idx` is set in the packed bytes; bits past the end read
/// as clear.
pub open spec fn spec_bit(data: Seq<u8>, idx: int) -> bool {
    0 <= idx && idx / 8 < data.len() && (data[idx / 8] >> (idx % 8)) & 1 == 1
}

impl View for BitMap {
    type V = Seq<u8>;

    closed spec fn view(&self) -> Seq<u8> {
        self.data@
    }
}

impl BitMap {
    pub fn new() -> (r: BitMap)
        ensures
            r@ == Seq::<u8>::empty(),
            forall|i: int| !spec_bit(r@, i),
    {
        BitMap { data: Vec::new() }
    }

    /// Wrap raw bytes (such as a received bitfield) as a bit map.
    pub fn from_vec(data: Vec<u8>) -> (r: BitMap)
        ensures
            r@ == data@,
    {
        BitMap { data }
    }

    /// Read bit `idx`; the byte holding it must exist.
    pub fn get(&self, idx: usize) -> (r: bool)
        requires
            idx / 8 < self@.len(),
        ensures
            r == spec_bit(self@, idx as int),
    {
        let byte = idx / 8;
        let bit = idx % 8;
        let b = self.data[byte];
        let r = b & (1u8 << bit) != 0;
        proof {
            assert(r == ((b >> (bit as u8)) & 1 == 1)) by (bit_vector)
                requires
                    bit < 8,
                    r == (b & (1u8 << (bit as u8)) != 0),
            ;
        }
        r
    }

    /// Set bit `idx`, growing the byte vector as needed. Every other
    /// bit keeps its value.
    pub fn set(&mut self, idx: usize)
        requires
            idx < usize::MAX - 8,
        ensures
            spec_bit(final(self)@, idx as int),
            forall|i: int| i != idx ==> spec_bit(final(self)@, i) == spec_bit(old(self)@, i),
            final(self)@.len() == if old(self)@.len() > idx / 8 {
                old(self)@.len() as int
            } else {
                idx / 8 + 1
            },
    {
        let byte = idx / 8;
        let bit = idx % 8;
        let ghost before = self.data@;
        if byte >= self.data.len() {
            self.data.resize(byte + 1, 0u8);
        }
        let ghost grown = self.data@;
        let b = self.data[byte];
        let nb = b | (1u8 << bit);
        self.data[byte] = nb;
        proof {
            assert((nb >> (bit as u8)) & 1 == 1 && forall|j: u8|
                j < 8 && j != bit as u8 ==> (nb >> j) & 1 == (b >> j) & 1) by (bit_vector)
                requires
                    bit < 8,
                    nb == b | (1u8 << (bit as u8)),
            ;
            assert forall|i: int| i != idx ==> spec_bit(final(self)@, i) == spec_bit(
                old(self)@,
                i,
            ) by {
                assert forall|i: int| 0 <= i && i != idx implies spec_bit(final(self)@, i)
                    == spec_bit(before, i) by {
                    let bi = i / 8;
                    let o = i % 8;
                    vstd::arithmetic::div_mod::lemma_fundamental_div_mod(i, 8);
                    vstd::arithmetic::div_mod::lemma_fundamental_div_mod(idx as int, 8);
                    if bi < grown.len() {
                        if bi == byte {
                            assert(o != bit as int || i == idx);
                            if o != bit as int {
                                assert((nb >> (o as u8)) & 1 == (b >> (o as u8)) & 1);
                            }
                            if byte >= before.len() {
                                assert(grown[bi] == 0);
                                assert(forall|j: u8| (0u8 >> j) & 1 == 0) by (bit_vector);
                            }
                        } else {
                            if bi < before.len() {
                                assert(grown[bi] == before[bi]);
                            } else {
                                assert(grown[bi] == 0);
                                assert(forall|j: u8| (0u8 >> j) & 1 == 0) by (bit_vector);
                            }
                        }
                    }
                }
            }
            assert(spec_bit(final(self)@, idx as int)) by {
                vstd::arithmetic::div_mod::lemma_fundamental_div_mod(idx as int, 8);
            }
        }
    }

    /// Clear bit `idx`; bits past the end are already clear. Every
    /// other bit keeps its value.
    pub fn unset(&mut self, idx: usize)
        ensures
            !spec_bit(final(self)@, idx as int),
            forall|i: int| i != idx ==> spec_bit(final(self)@, i) == spec_bit(old(self)@, i),
            final(self)@.len() == old(self)@.len(),
    {
        let byte = idx / 8;
        let bit = idx % 8;
        if byte < self.data.len() {
            let b = self.data[byte];
            let nb = b & !(1u8 << bit);
            self.data[byte] = nb;
            proof {
                assert((nb >> (bit as u8)) & 1 == 0 && forall|j: u8|
                    j < 8 && j != bit as u8 ==> (nb >> j) & 1 == (b >> j) & 1) by (bit_vector)
                    requires
                        bit < 8,
                        nb == b & !(1u8 << (bit as u8)),
                ;
                assert forall|i: int| 0 <= i && i != idx implies spec_bit(final(self)@, i)
                    == spec_bit(old(self)@, i) by {
                    let bi = i / 8;
                    let o = i % 8;
                    vstd::arithmetic::div_mod::lemma_fundamental_div_mod(i, 8);
                    vstd::arithmetic::div_mod::lemma_fundamental_div_mod(idx as int, 8);
                    if bi == byte && bi < self@.len() {
                        assert(o != bit as int || i == idx);
                        if o != bit as int {
                            assert((nb >> (o as u8)) & 1 == (b >> (o as u8)) & 1);
                        }
                    }
                }
                assert(!spec_bit(final(self)@, idx as int)) by {
                    vstd::arithmetic::div_mod::lemma_fundamental_div_mod(idx as int, 8);
                }
            }
        }
    }
}

} // verus!

//! Content hashes: the 32-byte digest type, the digest function behind it,
//! and the lowercase hexadecimal spelling used to name chunk files.

use vstd::prelude::*;
use tiny_keccak::Hasher;

verus! {

broadcast use vstd::std_specs::vec::group_vec_axioms;

/// A 32-byte digest.  Every content address in the snapshot is one.
#[derive(Debug, PartialEq)]
pub struct H256 {
    /// The digest bytes, exactly 32 of them.
    pub bytes: Vec<u8>,
}

impl View for H256 {
    type V = Seq<u8>;

    open spec fn view(&self) -> Seq<u8> {
        self.bytes@
    }
}

impl H256 {
    /// Well-formed: exactly 32 bytes.
    pub open spec fn wf(&self) -> bool {
        self.bytes@.len() == 32
    }

    /// Wraps 32 bytes as a digest.
    pub fn from_vec(bytes: Vec<u8>) -> (r: H256)
        requires
            bytes@.len() == 32,
        ensures
            r@ == bytes@,
            r.wf(),
    {
        H256 { bytes }
    }

    /// An independent copy of this digest.
    pub fn duplicate(&self) -> (r: H256)
        ensures
            r@ == self@,
    {
        let mut bytes: Vec<u8> = Vec::new();
        let mut i: usize = 0;
        while i < self.bytes.len()
            invariant
                i <= self.bytes@.len(),
                bytes@ == self.bytes@.subrange(0, i as int),
            decreases self.bytes@.len() - i,
        {
            bytes.push(self.bytes[i]);
            proof {
                assert(self.bytes@.subrange(0, (i + 1) as int)
                    =~= self.bytes@.subrange(0, i as int).push(self.bytes@[i as int]));
            }
            i = i + 1;
        }
        proof {
            assert(self.bytes@.subrange(0, self.bytes@.len() as int) =~= self.bytes@);
        }
        H256 { bytes }
    }

    /// Whether two digests hold the same bytes.
    pub fn same(&self, other: &H256) -> (r: bool)
        ensures
            r == (self@ == other@),
    {
        if self.bytes.len() != other.bytes.len() {
            proof {
                assert(self@ != other@);
            }
            return false;
        }
        let mut i: usize = 0;
        while i < self.bytes.len()
            invariant
                i <= self.bytes@.len(),
                self.bytes@.len() == other.bytes@.len(),
                forall|j: int| 0 <= j < i ==> self.bytes@[j] == other.bytes@[j],
            decreases self.bytes@.len() - i,
        {
            if self.bytes[i] != other.bytes[i] {
                proof {
                    assert(self@[i as int] != other@[i as int]);
                }
                return false;
            }
            i = i + 1;
        }
        proof {
            assert(self@ =~= other@);
        }
        true
    }
}

/// What the 256-bit digest function returns for a byte string: a value of
/// the input alone, the same in every process and on every machine.
pub uninterp spec fn keccak_of(data: Seq<u8>) -> Seq<u8>;

/// Relies on tiny_keccak's 256-bit Keccak hasher: the 32-byte digest of the
/// input bytes, depending on the input alone.
#[verifier::external_body]
pub(crate) fn keccak256(data: &Vec<u8>) -> (r: H256)
    ensures
        r@ == keccak_of(data@),
        r@.len() == 32,
{
    let mut state = tiny_keccak::Keccak::v256();
    state.update(data.as_slice());
    let mut out = [0u8; 32];
    state.finalize(&mut out);
    H256 { bytes: out.to_vec() }
}

/// One hexadecimal digit, lowercase, as an ASCII byte.
pub open spec fn hex_digit(n: u8) -> u8 {
    if n < 10 {
        (0x30 + n) as u8
    } else {
        (0x57 + n) as u8
    }
}

/// The lowercase hexadecimal spelling of a byte string, two digits a byte.
pub open spec fn hex_of(s: Seq<u8>) -> Seq<u8>
    decreases s,
{
    if s.len() == 0 {
        Seq::empty()
    } else {
        hex_of(s.drop_last()).push(hex_digit(s.last() / 16)).push(hex_digit(s.last() % 16))
    }
}

/// Spells a byte string in lowercase hexadecimal.
#[verifier::loop_isolation(false)]
pub fn to_hex(s: &Vec<u8>) -> (r: Vec<u8>)
    ensures
        r@ == hex_of(s@),
{
    let mut r: Vec<u8> = Vec::new();
    let mut i: usize = 0;
    proof {
        assert(s@.subrange(0, 0) =~= Seq::<u8>::empty());
    }
    while i < s.len()
        invariant
            i <= s@.len(),
            r@ == hex_of(s@.subrange(0, i as int)),
        decreases s@.len() - i,
    {
        let b = s[i];
        let hi = b / 16;
        let lo = b % 16;
        if hi < 10 {
            r.push(0x30 + hi);
        } else {
            r.push(0x57 + hi);
        }
        if lo < 10 {
            r.push(0x30 + lo);
        } else {
            r.push(0x57 + lo);
        }
        proof {
            let pre = s@.subrange(0, i as int);
            let cur = s@.subrange(0, (i + 1) as int);
            assert(cur.drop_last() =~= pre);
            assert(cur.last() == b);
        }
        i = i + 1;
    }
    proof {
        assert(s@.subrange(0, s@.len() as int) =~= s@);
    }
    r
}

} // verus!

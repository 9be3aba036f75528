//! The version handshake that opens an inter-process session: a semantic
//! version pair in a fixed 48-byte binary form, convertible to and from
//! the version type of the semver crate.

use std::collections::VecDeque;

use vstd::prelude::*;
use vstd::bytes::{spec_u64_to_le_bytes, u64_from_le_bytes, u64_to_le_bytes,
    lemma_auto_spec_u64_to_from_le_bytes};
use crate::binary::{BinaryConvertable, BinaryConvertError};
use crate::rlp::{copy_range, push_all};

verus! {

broadcast use vstd::std_specs::vec::group_vec_axioms;

#[verifier::external_type_specification]
#[verifier::external_body]
/// The semantic-version type of the semver crate, opaque to the library.
pub struct ExVersion(semver::Version);

/// Relies on the derived clone of semver::Version.
pub assume_specification[ <semver::Version as core::clone::Clone>::clone ](
    v: &semver::Version,
) -> semver::Version;

/// Relies on semver::Version::new: the version with the three given
/// numbers and empty pre-release and build fields.
#[verifier::external_body]
fn version_new(major: u64, minor: u64, patch: u64) -> semver::Version {
    semver::Version::new(major, minor, patch)
}

/// Relies on the public `major`, `minor` and `patch` fields of
/// semver::Version.
#[verifier::external_body]
fn version_parts(v: &semver::Version) -> (u64, u64, u64) {
    (v.major, v.minor, v.patch)
}

/// A pair of semantic versions, as the handshake exchanges them.
#[derive(Debug, PartialEq)]
pub struct Handshake {
    /// The version of the api the peer offers.
    pub api_version: semver::Version,
    /// The version of the wire protocol the peer speaks.
    pub protocol_version: semver::Version,
}

/// Shortened version without the pre-release and build information.
#[derive(Clone, Copy, Debug, PartialEq, Eq, Structural)]
pub struct BinVersion {
    /// Major version.
    pub major: u64,
    /// Minor version.
    pub minor: u64,
    /// Patch version.
    pub patch: u64,
}

/// Fixed-sized version of the handshake.
#[derive(Clone, Copy, Debug, PartialEq, Eq, Structural)]
pub struct BinHandshake {
    /// The version of the api the peer offers.
    pub api_version: BinVersion,
    /// The version of the wire protocol the peer speaks.
    pub protocol_version: BinVersion,
}

impl BinVersion {
    /// The three numbers as a semver version with empty pre-release and
    /// build fields.
    pub fn to_semver(self) -> semver::Version {
        version_new(self.major, self.minor, self.patch)
    }

    /// The three numbers of a semver version, dropping its pre-release
    /// and build fields.
    pub fn from_semver(other: &semver::Version) -> BinVersion {
        let (major, minor, patch) = version_parts(other);
        BinVersion { major, minor, patch }
    }
}

impl BinHandshake {
    /// The handshake this fixed form stands for.
    pub fn to_semver(self) -> Handshake {
        Handshake {
            api_version: self.api_version.to_semver(),
            protocol_version: self.protocol_version.to_semver(),
        }
    }

    /// The fixed form of a handshake, dropping pre-release and build
    /// fields of both versions.
    pub fn from_handshake(other: &Handshake) -> BinHandshake {
        BinHandshake {
            api_version: BinVersion::from_semver(&other.api_version),
            protocol_version: BinVersion::from_semver(&other.protocol_version),
        }
    }
}

impl BinaryConvertable for BinHandshake {
    open spec fn fixed() -> bool {
        true
    }

    open spec fn fixed_len() -> nat {
        48
    }

    open spec fn encoded(&self) -> Seq<u8> {
        spec_u64_to_le_bytes(self.api_version.major) + spec_u64_to_le_bytes(
            self.api_version.minor,
        ) + spec_u64_to_le_bytes(self.api_version.patch) + spec_u64_to_le_bytes(
            self.protocol_version.major,
        ) + spec_u64_to_le_bytes(self.protocol_version.minor) + spec_u64_to_le_bytes(
            self.protocol_version.patch,
        )
    }

    open spec fn lengths(&self) -> Seq<usize> {
        Seq::empty()
    }

    open spec fn encodable(&self) -> bool {
        true
    }

    open spec fn decodable(buffer: Seq<u8>, stack: Seq<usize>) -> bool {
        buffer.len() == 48
    }

    open spec fn stack_used(buffer: Seq<u8>, stack: Seq<usize>) -> Seq<usize> {
        Seq::empty()
    }

    open spec fn empty_decodable() -> bool {
        false
    }

    fn fixed_width() -> (r: usize) {
        proof {
            lemma_auto_spec_u64_to_from_le_bytes();
        }
        48
    }

    fn size(&self) -> (r: usize) {
        proof {
            lemma_auto_spec_u64_to_from_le_bytes();
        }
        48
    }

    fn len_params() -> (r: usize) {
        0
    }

    fn to_bytes(&self, buffer: &mut Vec<u8>, length_stack: &mut VecDeque<usize>) -> (r: Result<
        (),
        BinaryConvertError,
    >) {
        let w0 = u64_to_le_bytes(self.api_version.major);
        push_all(buffer, &w0);
        let w1 = u64_to_le_bytes(self.api_version.minor);
        push_all(buffer, &w1);
        let w2 = u64_to_le_bytes(self.api_version.patch);
        push_all(buffer, &w2);
        let w3 = u64_to_le_bytes(self.protocol_version.major);
        push_all(buffer, &w3);
        let w4 = u64_to_le_bytes(self.protocol_version.minor);
        push_all(buffer, &w4);
        let w5 = u64_to_le_bytes(self.protocol_version.patch);
        push_all(buffer, &w5);
        proof {
            assert(final(buffer)@ =~= old(buffer)@ + self.encoded());
            assert(final(length_stack)@ == old(length_stack)@ + Seq::<usize>::empty());
        }
        Ok(())
    }

    fn from_bytes(buffer: &Vec<u8>, length_stack: &mut VecDeque<usize>) -> (r: Result<
        Self,
        BinaryConvertError,
    >) {
        proof {
            lemma_auto_spec_u64_to_from_le_bytes();
        }
        if buffer.len() != 48 {
            return Err(BinaryConvertError);
        }
        let w0 = copy_range(buffer, 0, 8);
        let w1 = copy_range(buffer, 8, 16);
        let w2 = copy_range(buffer, 16, 24);
        let w3 = copy_range(buffer, 24, 32);
        let w4 = copy_range(buffer, 32, 40);
        let w5 = copy_range(buffer, 40, 48);
        let v = BinHandshake {
            api_version: BinVersion {
                major: u64_from_le_bytes(w0.as_slice()),
                minor: u64_from_le_bytes(w1.as_slice()),
                patch: u64_from_le_bytes(w2.as_slice()),
            },
            protocol_version: BinVersion {
                major: u64_from_le_bytes(w3.as_slice()),
                minor: u64_from_le_bytes(w4.as_slice()),
                patch: u64_from_le_bytes(w5.as_slice()),
            },
        };
        proof {
            assert(v.encoded() =~= buffer@);
            assert(old(length_stack)@ == v.lengths() + length_stack@);
        }
        Ok(v)
    }

    fn from_empty_bytes() -> (r: Result<Self, BinaryConvertError>) {
        Err(BinaryConvertError)
    }
}

} // verus!

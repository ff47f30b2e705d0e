//! Fixed-size account addresses and loader-owner classification.

use vstd::prelude::*;
use crate::util::{bytes_eq, clone_bytes};

verus! {

/// Number of bytes in an address.
pub const ADDRESS_LEN: usize = 32;

/// A fixed-size account identifier. Its view is the 32-byte sequence.
#[derive(Debug)]
pub struct Address {
    pub bytes: Vec<u8>,
}

impl View for Address {
    type V = Seq<u8>;

    open spec fn view(&self) -> Seq<u8> {
        self.bytes@
    }
}

impl Address {
    /// Well-formed: exactly `ADDRESS_LEN` bytes.
    pub open spec fn wf(self) -> bool {
        self@.len() == ADDRESS_LEN
    }

    /// Builds an address from exactly `ADDRESS_LEN` bytes; any other length is rejected.
    pub fn from_bytes(bytes: Vec<u8>) -> (r: Option<Address>)
        ensures
            bytes@.len() == ADDRESS_LEN ==> (r matches Some(a) && a@ == bytes@ && a.wf()),
            bytes@.len() != ADDRESS_LEN ==> r is None,
    {
        if bytes.len() == ADDRESS_LEN {
            Some(Address { bytes })
        } else {
            None
        }
    }

    /// Builds an address from bytes already known to be full-length.
    pub fn from_full_bytes(bytes: Vec<u8>) -> (a: Address)
        requires
            bytes@.len() == ADDRESS_LEN,
        ensures
            a@ == bytes@,
            a.wf(),
    {
        Address { bytes }
    }

    /// The raw bytes.
    pub fn as_bytes(&self) -> (r: &Vec<u8>)
        ensures
            r@ == self@,
    {
        &self.bytes
    }

    /// An identical copy.
    pub fn duplicate(&self) -> (r: Address)
        ensures
            r@ == self@,
    {
        Address { bytes: clone_bytes(&self.bytes) }
    }

    /// Byte-for-byte comparison.
    pub fn same_as(&self, other: &Address) -> (r: bool)
        ensures
            r <==> self@ == other@,
    {
        bytes_eq(&self.bytes, &other.bytes)
    }
}

/// The all-zero address: owner of permissively materialized empty records.
pub open spec fn zero_address() -> Seq<u8> {
    Seq::new(ADDRESS_LEN as nat, |i: int| 0u8)
}

impl Default for Address {
    /// The all-zero address.
    fn default() -> (a: Address)
        ensures
            a@ == zero_address(),
            a.wf(),
    {
        let bytes: Vec<u8> = vec![0u8; 32];
        proof {
            assert(bytes@ =~= zero_address());
        }
        Address { bytes }
    }
}

/// Owner address of executable accounts whose bytecode sits inline in the
/// account data (the direct loader).
pub open spec fn direct_loader() -> Seq<u8> {
    seq![
        2u8, 168, 246, 145, 78, 136, 161, 110, 57, 90, 225, 40, 148, 143, 250, 105,
        86, 147, 55, 104, 24, 221, 71, 67, 82, 33, 243, 198, 0, 0, 0, 0,
    ]
}

/// Owner address of executable accounts that hold a pointer to a second
/// account carrying the bytecode (the indirect, versioned loader).
pub open spec fn indirect_loader() -> Seq<u8> {
    seq![
        2u8, 168, 246, 145, 78, 136, 161, 176, 226, 16, 21, 62, 247, 99, 174, 43,
        0, 194, 185, 61, 22, 193, 36, 210, 192, 83, 122, 16, 4, 128, 0, 0,
    ]
}

/// The direct-loader owner constant as an address value.
pub fn direct_loader_address() -> (a: Address)
    ensures
        a@ == direct_loader(),
        a.wf(),
{
    let bytes: Vec<u8> = vec![
        2u8, 168, 246, 145, 78, 136, 161, 110, 57, 90, 225, 40, 148, 143, 250, 105,
        86, 147, 55, 104, 24, 221, 71, 67, 82, 33, 243, 198, 0, 0, 0, 0,
    ];
    proof {
        assert(bytes@ =~= direct_loader());
    }
    Address { bytes }
}

/// The indirect-loader owner constant as an address value.
pub fn indirect_loader_address() -> (a: Address)
    ensures
        a@ == indirect_loader(),
        a.wf(),
{
    let bytes: Vec<u8> = vec![
        2u8, 168, 246, 145, 78, 136, 161, 176, 226, 16, 21, 62, 247, 99, 174, 43,
        0, 194, 185, 61, 22, 193, 36, 210, 192, 83, 122, 16, 4, 128, 0, 0,
    ];
    proof {
        assert(bytes@ =~= indirect_loader());
    }
    Address { bytes }
}

/// Which loader format, if any, an executable account's owner selects.
#[derive(Debug, Clone, Copy, PartialEq, Eq, Structural)]
pub enum LoaderKind {
    /// Bytecode is the whole account data.
    Direct,
    /// The account data embeds a pointer to the bytecode-holding account.
    Indirect,
    /// Not a loader this system understands; such accounts are skipped.
    Unknown,
}

/// Classification of an owner address against the two loader constants.
pub open spec fn classify(owner: Seq<u8>) -> LoaderKind {
    if owner == direct_loader() {
        LoaderKind::Direct
    } else if owner == indirect_loader() {
        LoaderKind::Indirect
    } else {
        LoaderKind::Unknown
    }
}

/// Determines the loader format an owner address selects.
pub fn classify_owner(owner: &Address) -> (k: LoaderKind)
    ensures
        k == classify(owner@),
{
    let d = direct_loader_address();
    if owner.same_as(&d) {
        return LoaderKind::Direct;
    }
    let ind = indirect_loader_address();
    if owner.same_as(&ind) {
        return LoaderKind::Indirect;
    }
    LoaderKind::Unknown
}

} // verus!

//! Structural validation of extracted bytecode images.

use vstd::prelude::*;

verus! {

/// Minimum number of bytes a well-formed bytecode header occupies.
pub const MIN_BYTECODE_LEN: usize = 52;

/// What a well-formed bytecode image looks like: it is at least
/// `MIN_BYTECODE_LEN` bytes long, starts with the four magic bytes
/// `0x7f 'E' 'L' 'F'`, and its class byte is one of the two recognized
/// values (1 for 32-bit, 2 for 64-bit).
pub open spec fn elf_ok(data: Seq<u8>) -> bool {
    &&& data.len() >= MIN_BYTECODE_LEN
    &&& data[0] == 0x7f
    &&& data[1] == 0x45
    &&& data[2] == 0x4c
    &&& data[3] == 0x46
    &&& (data[4] == 1 || data[4] == 2)
}

/// Why a candidate bytecode image was rejected.
#[derive(Debug, Clone, Copy, PartialEq, Eq, Structural)]
pub enum ValidationError {
    /// Fewer bytes than the fixed minimum header size.
    TooSmall { len: usize },
    /// The first four bytes are not the expected magic signature.
    BadMagic,
    /// The class byte is neither of the two recognized values.
    BadClass { class: u8 },
}

/// The error `validate_elf` reports for an image that fails `elf_ok`: the
/// first of the three structural checks that does not hold.
pub open spec fn elf_error(data: Seq<u8>) -> ValidationError {
    if data.len() < MIN_BYTECODE_LEN {
        ValidationError::TooSmall { len: data.len() as usize }
    } else if !(data[0] == 0x7f && data[1] == 0x45 && data[2] == 0x4c && data[3] == 0x46) {
        ValidationError::BadMagic
    } else {
        ValidationError::BadClass { class: data[4] }
    }
}

/// Checks that `data` begins with a well-formed executable header.
///
/// Succeeds exactly on inputs satisfying `elf_ok`; otherwise reports the
/// first structural check that failed.
pub fn validate_elf(data: &[u8]) -> (r: Result<(), ValidationError>)
    ensures
        r is Ok <==> elf_ok(data@),
        !elf_ok(data@) ==> r == Err::<(), ValidationError>(elf_error(data@)),
{
    let n: usize = data.len();
    if n < MIN_BYTECODE_LEN {
        return Err(ValidationError::TooSmall { len: n });
    }
    if !(data[0] == 0x7f && data[1] == 0x45 && data[2] == 0x4c && data[3] == 0x46) {
        return Err(ValidationError::BadMagic);
    }
    if data[4] != 1 && data[4] != 2 {
        return Err(ValidationError::BadClass { class: data[4] });
    }
    Ok(())
}

} // verus!

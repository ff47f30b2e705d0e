use rpc_account_store::validate::{validate_elf, ValidationError};

fn elf(len: usize, class: u8) -> Vec<u8> {
    let mut data = vec![0u8; len];
    data[0] = 0x7f;
    data[1] = 0x45;
    data[2] = 0x4c;
    data[3] = 0x46;
    data[4] = class;
    data
}

#[test]
fn wellformed_image_passes() {
    assert!(validate_elf(&elf(60, 2)).is_ok());
    assert!(validate_elf(&elf(60, 1)).is_ok());
}

#[test]
fn minimum_length_is_the_boundary() {
    assert!(validate_elf(&elf(52, 2)).is_ok());
    assert!(validate_elf(&elf(51, 2)) == Err(ValidationError::TooSmall { len: 51 }));
}

#[test]
fn short_image_fails() {
    assert!(validate_elf(&[0u8; 10]) == Err(ValidationError::TooSmall { len: 10 }));
}

#[test]
fn wrong_magic_fails() {
    let mut data = elf(60, 2);
    data[1] = 0x58;
    assert!(validate_elf(&data) == Err(ValidationError::BadMagic));
}

#[test]
fn unknown_class_fails() {
    assert!(validate_elf(&elf(60, 3)) == Err(ValidationError::BadClass { class: 3 }));
}

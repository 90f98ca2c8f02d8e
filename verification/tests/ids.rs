use op_heads::op_store::{OperationId, ViewId};

#[test]
fn hex_writes_two_lowercase_digits_for_each_byte() {
    let id = OperationId::new(vec![0x00, 0x01, 0x0f, 0x10, 0xab, 0xff]);
    assert_eq!(id.hex(), "00010f10abff");
}

#[test]
fn hex_of_no_bytes_is_empty() {
    assert_eq!(OperationId::new(vec![]).hex(), "");
}

#[test]
fn from_hex_reads_either_case() {
    assert_eq!(OperationId::from_hex("012345").to_bytes(), vec![0x01, 0x23, 0x45]);
    assert_eq!(OperationId::from_hex("abcdef").to_bytes(), vec![0xab, 0xcd, 0xef]);
    assert_eq!(OperationId::from_hex("ABCDEF").to_bytes(), vec![0xab, 0xcd, 0xef]);
    assert_eq!(OperationId::from_hex("aBcDeF"), OperationId::from_hex("abcdef"));
}

#[test]
fn from_hex_puts_the_first_digit_high() {
    assert_eq!(OperationId::from_hex("1f").to_bytes(), vec![0x1f]);
    assert_eq!(OperationId::from_hex("f1").to_bytes(), vec![0xf1]);
}

#[test]
fn hex_and_from_hex_are_inverse() {
    let bytes: Vec<u8> = (0..=255).collect();
    let id = OperationId::new(bytes.clone());
    let name = id.hex();
    assert_eq!(name.len(), 512);
    assert_eq!(OperationId::from_hex(&name).to_bytes(), bytes);
    assert_eq!(OperationId::from_hex(&name).hex(), name);
}

#[test]
fn try_from_hex_refuses_what_is_no_hexadecimal_form() {
    assert_eq!(OperationId::try_from_hex("lock"), None);
    assert_eq!(OperationId::try_from_hex("simple_op_heads"), None);
    assert_eq!(OperationId::try_from_hex("123"), None);
    assert_eq!(OperationId::try_from_hex("0g"), None);
    assert_eq!(OperationId::try_from_hex("ab cd"), None);
    assert_eq!(OperationId::try_from_hex("é"), None);
    assert_eq!(OperationId::try_from_hex("aé"), None);
    assert_eq!(OperationId::try_from_hex("abé1"), None);
}

#[test]
fn try_from_hex_reads_a_hexadecimal_form() {
    assert_eq!(OperationId::try_from_hex("00ff"), Some(OperationId::new(vec![0x00, 0xff])));
    assert_eq!(OperationId::try_from_hex("00FF"), Some(OperationId::new(vec![0x00, 0xff])));
    assert_eq!(OperationId::try_from_hex(""), Some(OperationId::new(vec![])));
}

#[test]
fn ids_are_equal_when_their_bytes_are() {
    assert_eq!(OperationId::new(vec![1, 2]), OperationId::new(vec![1, 2]));
    assert_ne!(OperationId::new(vec![1, 2]), OperationId::new(vec![1, 3]));
    assert_ne!(OperationId::new(vec![1, 2]), OperationId::new(vec![1]));
    assert_ne!(OperationId::new(vec![1]), OperationId::new(vec![1, 2]));
    assert_eq!(ViewId::new(vec![9]), ViewId::new(vec![9]));
    assert_ne!(ViewId::new(vec![9]), ViewId::new(vec![]));
    assert_eq!(ViewId::new(vec![4, 5]).to_bytes(), vec![4, 5]);
}

#[test]
fn a_clone_is_equal() {
    let id = OperationId::new(vec![5, 6, 7]);
    assert_eq!(id.clone(), id);
    let view_id = ViewId::new(vec![8]);
    assert_eq!(view_id.clone(), view_id);
}

use rustyraftlab::state_machine::Command;
use rustyraftlab::storage::{key_bytes, storage_op, StorageOp};

#[test]
fn put_becomes_a_write_of_utf8_bytes() {
    assert_eq!(
        storage_op(&Command::set("k", "v")),
        StorageOp::Write {
            key: b"k".to_vec(),
            value: b"v".to_vec(),
        }
    );
    assert_eq!(
        storage_op(&Command::set("é", "ü")),
        StorageOp::Write {
            key: vec![0xc3, 0xa9],
            value: vec![0xc3, 0xbc],
        }
    );
}

#[test]
fn delete_becomes_a_delete_of_the_key_bytes() {
    assert_eq!(
        storage_op(&Command::delete("gone")),
        StorageOp::Delete {
            key: b"gone".to_vec(),
        }
    );
}

#[test]
fn keys_are_stored_as_utf8() {
    assert_eq!(key_bytes("ab"), b"ab");
    assert_eq!(key_bytes(""), b"");
}

//! What a replicated command asks of a node's persistent key-value store.
//!
//! The store itself keys and holds raw bytes; a command's strings are stored as
//! their UTF-8 bytes.

use vstd::prelude::*;
use vstd::utf8::*;
use crate::state_machine::{copy_bytes, Command, CommandView};

verus! {

/// One write to the persistent store.
#[derive(Debug, PartialEq, Eq)]
pub enum StorageOp {
    /// Store `value` at `key`, replacing any value there.
    Write { key: Vec<u8>, value: Vec<u8> },
    /// Remove `key` and its value.
    Delete { key: Vec<u8> },
}

/// The value of a [`StorageOp`].
pub enum StorageOpView {
    Write { key: Seq<u8>, value: Seq<u8> },
    Delete { key: Seq<u8> },
}

impl View for StorageOp {
    type V = StorageOpView;

    open spec fn view(&self) -> StorageOpView {
        match self {
            StorageOp::Write { key, value } => StorageOpView::Write { key: key@, value: value@ },
            StorageOp::Delete { key } => StorageOpView::Delete { key: key@ },
        }
    }
}

/// The store operation for a command: `Put` writes the value's UTF-8 bytes at the
/// key's UTF-8 bytes, `Delete` removes the key's UTF-8 bytes.
pub open spec fn storage_op_spec(c: CommandView) -> StorageOpView {
    match c {
        CommandView::Put { key, value } => StorageOpView::Write {
            key: encode_utf8(key),
            value: encode_utf8(value),
        },
        CommandView::Delete { key } => StorageOpView::Delete { key: encode_utf8(key) },
    }
}

/// The bytes under which a key is stored: its UTF-8 encoding.
pub fn key_bytes(key: &str) -> (r: &[u8])
    ensures
        r@ == encode_utf8(key@),
{
    key.as_bytes()
}

/// The store operation that applying `command` to a persistent store performs.
pub fn storage_op(command: &Command) -> (op: StorageOp)
    ensures
        op@ == storage_op_spec(command@),
{
    match command {
        Command::Put { key, value } => StorageOp::Write {
            key: copy_bytes(key_bytes(key.as_str())),
            value: copy_bytes(value.as_str().as_bytes()),
        },
        Command::Delete { key } => StorageOp::Delete { key: copy_bytes(key_bytes(key.as_str())) },
    }
}

} // verus!

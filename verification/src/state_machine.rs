//! In-memory key-value state machine driven by committed Raft log entries,
//! together with the byte encoding of the commands it applies.

use vstd::prelude::*;
use vstd::hash_map::StringHashMap;
use vstd::utf8::*;
use vstd::string::StringSliceAdditionalSpecFns;

verus! {

/// Client command applied to the replicated state machine.
#[derive(Debug, PartialEq, Eq)]
pub enum Command {
    Put { key: String, value: String },
    Delete { key: String },
}

/// The mathematical value of a [`Command`]: its strings taken as character sequences.
pub enum CommandView {
    Put { key: Seq<char>, value: Seq<char> },
    Delete { key: Seq<char> },
}

impl View for Command {
    type V = CommandView;

    open spec fn view(&self) -> CommandView {
        match self {
            Command::Put { key, value } => CommandView::Put { key: key@, value: value@ },
            Command::Delete { key } => CommandView::Delete { key: key@ },
        }
    }
}

/// Error decoding a command from a log entry payload.
#[derive(Debug, Clone, Copy, PartialEq, Eq, Structural)]
pub enum CommandError {
    Empty,
    UnknownTag(u8),
    Truncated,
    InvalidUtf8,
}

/// The four big-endian bytes of `n` (taken modulo 2^32).
pub open spec fn be_u32_bytes(n: nat) -> Seq<u8> {
    seq![
        ((n / 0x1000000) % 0x100) as u8,
        ((n / 0x10000) % 0x100) as u8,
        ((n / 0x100) % 0x100) as u8,
        (n % 0x100) as u8,
    ]
}

/// The number that four big-endian bytes stand for.
pub open spec fn be_u32_value(b: Seq<u8>) -> nat
    recommends
        b.len() >= 4,
{
    (b[0] * 0x1000000 + b[1] * 0x10000 + b[2] * 0x100 + b[3]) as nat
}

/// A string written as its UTF-8 byte length (a 32-bit big-endian number, wrapping
/// at 2^32) followed by its UTF-8 bytes.
pub open spec fn length_prefixed(s: Seq<char>) -> Seq<u8> {
    be_u32_bytes(encode_utf8(s).len() % 0x1_0000_0000) + encode_utf8(s)
}

/// The byte encoding of a command: tag 1 then key and value for `Put`, tag 2 then
/// key for `Delete`.
pub open spec fn encode_spec(c: CommandView) -> Seq<u8> {
    match c {
        CommandView::Put { key, value } => seq![1u8] + length_prefixed(key) + length_prefixed(value),
        CommandView::Delete { key } => seq![2u8] + length_prefixed(key),
    }
}

/// Reads one length-prefixed UTF-8 string from the front of `b`, giving the
/// string and the bytes after it.
pub open spec fn read_str_spec(b: Seq<u8>) -> Result<(Seq<char>, Seq<u8>), CommandError> {
    if b.len() < 4 {
        Err(CommandError::Truncated)
    } else {
        let len = be_u32_value(b) as int;
        let rest = b.skip(4);
        if rest.len() < len {
            Err(CommandError::Truncated)
        } else if !valid_utf8(rest.take(len)) {
            Err(CommandError::InvalidUtf8)
        } else {
            Ok((decode_utf8(rest.take(len)), rest.skip(len)))
        }
    }
}

/// What decoding the bytes `b` gives: a command, or the first error met reading
/// them front to back. Bytes left over after a complete command are `Truncated`.
pub open spec fn decode_spec(b: Seq<u8>) -> Result<CommandView, CommandError> {
    if b.len() == 0 {
        Err(CommandError::Empty)
    } else if b[0] == 1 {
        match read_str_spec(b.drop_first()) {
            Err(e) => Err(e),
            Ok((key, rest)) => match read_str_spec(rest) {
                Err(e) => Err(e),
                Ok((value, rest2)) => if rest2.len() != 0 {
                    Err(CommandError::Truncated)
                } else {
                    Ok(CommandView::Put { key, value })
                },
            },
        }
    } else if b[0] == 2 {
        match read_str_spec(b.drop_first()) {
            Err(e) => Err(e),
            Ok((key, rest)) => if rest.len() != 0 {
                Err(CommandError::Truncated)
            } else {
                Ok(CommandView::Delete { key })
            },
        }
    } else {
        Err(CommandError::UnknownTag(b[0]))
    }
}

/// True when the bytes decode to a command.
pub open spec fn decodes(b: Seq<u8>) -> bool {
    decode_spec(b) is Ok
}

/// The command that decodable bytes stand for.
pub open spec fn decoded(b: Seq<u8>) -> CommandView
    recommends
        decodes(b),
{
    decode_spec(b)->Ok_0
}

/// True when a string's UTF-8 encoding is short enough for its length to fit the
/// 32-bit prefix.
pub open spec fn fits_prefix(s: Seq<char>) -> bool {
    encode_utf8(s).len() < 0x1_0000_0000
}

/// True when every string of the command fits the 32-bit length prefix.
pub open spec fn encodable(c: CommandView) -> bool {
    match c {
        CommandView::Put { key, value } => fits_prefix(key) && fits_prefix(value),
        CommandView::Delete { key } => fits_prefix(key),
    }
}

/// Whether a result of `decode` agrees with the specified one.
pub open spec fn decode_result_matches(
    r: Result<Command, CommandError>,
    s: Result<CommandView, CommandError>,
) -> bool {
    match r {
        Ok(c) => s == Ok::<CommandView, CommandError>(c@),
        Err(e) => s == Err::<CommandView, CommandError>(e),
    }
}

/// The key-value map after one command: `Put` writes its key, `Delete` removes it.
pub open spec fn apply_spec(store: Map<Seq<char>, Seq<char>>, c: CommandView) -> Map<
    Seq<char>,
    Seq<char>,
> {
    match c {
        CommandView::Put { key, value } => store.insert(key, value),
        CommandView::Delete { key } => store.remove(key),
    }
}

/// The key-value map that replaying the commands in order, from an empty map, gives.
pub open spec fn replay(cmds: Seq<CommandView>) -> Map<Seq<char>, Seq<char>>
    decreases cmds.len(),
{
    if cmds.len() == 0 {
        Map::empty()
    } else {
        apply_spec(replay(cmds.drop_last()), cmds.last())
    }
}

/// The views of a sequence of commands.
pub open spec fn commands_view(cmds: Seq<Command>) -> Seq<CommandView> {
    cmds.map_values(|c: Command| c@)
}

proof fn lemma_be_u32_round_trip(n: nat)
    requires
        n < 0x1_0000_0000,
    ensures
        be_u32_value(be_u32_bytes(n)) == n,
{
    let b = be_u32_bytes(n);
    assert(b[0] == (n / 0x1000000) % 0x100);
    assert(b[1] == (n / 0x10000) % 0x100);
    assert(b[2] == (n / 0x100) % 0x100);
    assert(b[3] == n % 0x100);
    assert((n / 0x1000000) % 0x100 * 0x1000000 + (n / 0x10000) % 0x100 * 0x10000
        + (n / 0x100) % 0x100 * 0x100 + n % 0x100 == n) by (nonlinear_arith)
        requires
            n < 0x1_0000_0000,
    ;
}

proof fn lemma_read_length_prefixed(s: Seq<char>, tail: Seq<u8>)
    requires
        fits_prefix(s),
    ensures
        read_str_spec(length_prefixed(s) + tail) == Ok::<(Seq<char>, Seq<u8>), CommandError>(
            (s, tail),
        ),
{
    let e = encode_utf8(s);
    let b = length_prefixed(s) + tail;
    lemma_be_u32_round_trip(e.len());
    assert(b.take(4) =~= be_u32_bytes(e.len()));
    assert(be_u32_value(b) == be_u32_value(be_u32_bytes(e.len())));
    let rest = b.skip(4);
    assert(rest =~= e + tail);
    assert(rest.take(e.len() as int) =~= e);
    assert(rest.skip(e.len() as int) =~= tail);
    encode_utf8_valid_utf8(s);
    encode_utf8_decode_utf8(s);
}

/// Four bytes stand for a number below 2^32, whose four big-endian bytes they are.
proof fn lemma_be_u32_bytes_of_value(b: Seq<u8>)
    requires
        b.len() >= 4,
    ensures
        be_u32_value(b) < 0x1_0000_0000,
        be_u32_bytes(be_u32_value(b)) == b.take(4),
{
    let (b0, b1, b2, b3) = (b[0] as int, b[1] as int, b[2] as int, b[3] as int);
    let v = b0 * 0x1000000 + b1 * 0x10000 + b2 * 0x100 + b3;
    assert(be_u32_value(b) == v);
    assert(v < 0x1_0000_0000 && (v / 0x1000000) % 0x100 == b0 && (v / 0x10000) % 0x100 == b1 && (v
        / 0x100) % 0x100 == b2 && v % 0x100 == b3) by (nonlinear_arith)
        requires
            0 <= b0 < 0x100,
            0 <= b1 < 0x100,
            0 <= b2 < 0x100,
            0 <= b3 < 0x100,
            v == b0 * 0x1000000 + b1 * 0x10000 + b2 * 0x100 + b3,
    ;
    assert(be_u32_bytes(v as nat) =~= b.take(4));
}

/// A string read from the front of `b` was written there: `b` is its length-prefixed
/// form followed by what is left.
proof fn lemma_read_canonical(b: Seq<u8>)
    requires
        read_str_spec(b) is Ok,
    ensures
        ({
            let (s, rest) = read_str_spec(b)->Ok_0;
            b == length_prefixed(s) + rest
        }),
{
    let (s, rest) = read_str_spec(b)->Ok_0;
    let len = be_u32_value(b) as int;
    let r = b.skip(4);
    lemma_be_u32_bytes_of_value(b);
    decode_utf8_encode_utf8(r.take(len));
    assert(encode_utf8(s) == r.take(len));
    assert(encode_utf8(s).len() % 0x1_0000_0000 == len);
    assert(b =~= b.take(4) + r.take(len) + r.skip(len));
}

/// Four big-endian bytes written for a length below 2^32 read back, as a base-256
/// number with the first byte most significant, as that length.
proof fn lemma_be_u32_bytes_value(n: nat)
    requires
        n < 0x1_0000_0000,
    ensures
        be_u32_bytes(n).len() == 4,
        be_u32_bytes(n)[0] * 0x1000000 + be_u32_bytes(n)[1] * 0x10000 + be_u32_bytes(n)[2] * 0x100
            + be_u32_bytes(n)[3] == n,
{
    lemma_be_u32_round_trip(n);
}

/// The layout of an encoded command: the tag (1 for `Put`, 2 for `Delete`), then for
/// each string its UTF-8 length as four big-endian bytes (first byte most
/// significant) followed by its UTF-8 bytes.
pub proof fn lemma_encoding_layout(c: CommandView)
    requires
        encodable(c),
    ensures
        ({
            let b = encode_spec(c);
            match c {
                CommandView::Put { key, value } => {
                    let k = encode_utf8(key);
                    let v = encode_utf8(value);
                    let o: int = 5 + k.len() as int;
                    &&& b.len() == 9 + k.len() + v.len()
                    &&& b[0] == 1
                    &&& b[1] * 0x1000000 + b[2] * 0x10000 + b[3] * 0x100 + b[4] == k.len()
                    &&& b.subrange(5, o) == k
                    &&& b[o] * 0x1000000 + b[o + 1] * 0x10000 + b[o + 2] * 0x100 + b[o + 3] == v.len()
                    &&& b.subrange(o + 4, b.len() as int) == v
                },
                CommandView::Delete { key } => {
                    let k = encode_utf8(key);
                    &&& b.len() == 5 + k.len()
                    &&& b[0] == 2
                    &&& b[1] * 0x1000000 + b[2] * 0x10000 + b[3] * 0x100 + b[4] == k.len()
                    &&& b.subrange(5, b.len() as int) == k
                },
            }
        }),
{
    let b = encode_spec(c);
    match c {
        CommandView::Put { key, value } => {
            let pk = length_prefixed(key);
            let pv = length_prefixed(value);
            lemma_prefix_layout(key);
            lemma_prefix_layout(value);
            let o: int = 5 + encode_utf8(key).len() as int;
            assert(b == seq![1u8] + pk + pv);
            assert forall|i: int| 0 <= i < pk.len() implies b[1 + i] == #[trigger] pk[i] by {
                assert((seq![1u8] + pk)[1 + i] == pk[i]);
            }
            assert forall|i: int| 0 <= i < pv.len() implies b[o + i] == #[trigger] pv[i] by {}
            assert(b.subrange(5, o) =~= pk.subrange(4, pk.len() as int));
            assert(b.subrange(o + 4, b.len() as int) =~= pv.subrange(4, pv.len() as int));
        },
        CommandView::Delete { key } => {
            let pk = length_prefixed(key);
            lemma_prefix_layout(key);
            assert(b == seq![2u8] + pk);
            assert forall|i: int| 0 <= i < pk.len() implies b[1 + i] == #[trigger] pk[i] by {}
            assert(b.subrange(5, b.len() as int) =~= pk.subrange(4, pk.len() as int));
        },
    }
}

/// A length-prefixed string is its UTF-8 length as four big-endian bytes (first
/// byte most significant) followed by its UTF-8 bytes.
proof fn lemma_prefix_layout(s: Seq<char>)
    requires
        fits_prefix(s),
    ensures
        ({
            let p = length_prefixed(s);
            let k = encode_utf8(s);
            &&& p.len() == 4 + k.len()
            &&& p[0] * 0x1000000 + p[1] * 0x10000 + p[2] * 0x100 + p[3] == k.len()
            &&& p.subrange(4, p.len() as int) == k
        }),
{
    let k = encode_utf8(s);
    let h = be_u32_bytes(k.len() % 0x1_0000_0000);
    lemma_be_u32_bytes_value(k.len());
    let p = length_prefixed(s);
    assert(p[0] == h[0] && p[1] == h[1] && p[2] == h[2] && p[3] == h[3]);
    assert(p.subrange(4, p.len() as int) =~= k);
}

/// Reading a length-prefixed string takes its length from the first four bytes as a
/// big-endian number (first byte most significant): a read string has that many
/// UTF-8 bytes, which follow the prefix, and bytes shorter than the prefix says are
/// truncated.
pub proof fn lemma_read_length_is_big_endian(b: Seq<u8>)
    ensures
        read_str_spec(b) is Ok ==> {
            let (s, rest) = read_str_spec(b)->Ok_0;
            &&& encode_utf8(s).len() == b[0] * 0x1000000 + b[1] * 0x10000 + b[2] * 0x100 + b[3]
            &&& b.len() == 4 + encode_utf8(s).len() + rest.len()
            &&& b.subrange(4, 4 + encode_utf8(s).len() as int) == encode_utf8(s)
        },
        b.len() >= 4 && b.len() - 4 < b[0] * 0x1000000 + b[1] * 0x10000 + b[2] * 0x100 + b[3]
            ==> read_str_spec(b) == Err::<(Seq<char>, Seq<u8>), CommandError>(CommandError::Truncated),
{
    if read_str_spec(b) is Ok {
        let (s, rest) = read_str_spec(b)->Ok_0;
        let len = be_u32_value(b) as int;
        let r = b.skip(4);
        decode_utf8_encode_utf8(r.take(len));
        assert(encode_utf8(s) == r.take(len));
        assert(b.subrange(4, 4 + len) =~= r.take(len));
    }
}

/// Decoding accepts only the canonical encoding: bytes that decode to a command are
/// exactly that command's encoding.
pub proof fn lemma_encode_decode(b: Seq<u8>)
    requires
        decode_spec(b) is Ok,
    ensures
        encode_spec(decode_spec(b)->Ok_0) == b,
{
    let d = b.drop_first();
    assert(b =~= seq![b[0]] + d);
    lemma_read_canonical(d);
    let (key, rest) = read_str_spec(d)->Ok_0;
    if b[0] == 1 {
        lemma_read_canonical(rest);
        let (value, rest2) = read_str_spec(rest)->Ok_0;
        assert(rest2 =~= Seq::<u8>::empty());
        assert(b =~= seq![1u8] + length_prefixed(key) + length_prefixed(value));
    } else {
        assert(rest =~= Seq::<u8>::empty());
        assert(b =~= seq![2u8] + length_prefixed(key));
    }
}

/// Decoding what `encode` produced gives back the command, for every command whose
/// strings are short enough for their UTF-8 lengths to fit the 32-bit prefix.
pub proof fn lemma_decode_encode(c: CommandView)
    requires
        encodable(c),
    ensures
        decode_spec(encode_spec(c)) == Ok::<CommandView, CommandError>(c),
{
    match c {
        CommandView::Put { key, value } => {
            let b = encode_spec(c);
            assert(b.drop_first() =~= length_prefixed(key) + (length_prefixed(value) + Seq::<
                u8,
            >::empty()));
            lemma_read_length_prefixed(key, length_prefixed(value) + Seq::<u8>::empty());
            lemma_read_length_prefixed(value, Seq::<u8>::empty());
            assert(length_prefixed(value) + Seq::<u8>::empty() =~= length_prefixed(value));
        },
        CommandView::Delete { key } => {
            let b = encode_spec(c);
            assert(b.drop_first() =~= length_prefixed(key) + Seq::<u8>::empty());
            lemma_read_length_prefixed(key, Seq::<u8>::empty());
        },
    }
}

impl Clone for Command {
    fn clone(&self) -> (r: Self)
        ensures
            r@ == self@,
    {
        match self {
            Command::Put { key, value } => Command::Put { key: key.clone(), value: value.clone() },
            Command::Delete { key } => Command::Delete { key: key.clone() },
        }
    }
}

/// Calls `std::str::from_utf8`. Its contract is trusted, not proved: the call
/// succeeds exactly on valid UTF-8 and then gives the string slice whose bytes are
/// the input.
#[verifier::external_body]
fn str_from_utf8(bytes: &[u8]) -> (r: Option<&str>)
    ensures
        match r {
            Some(s) => valid_utf8(bytes@) && s.spec_bytes() == bytes@,
            None => !valid_utf8(bytes@),
        },
{
    std::str::from_utf8(bytes).ok()
}

/// Appends the four big-endian bytes of `n`.
fn push_be_u32(bytes: &mut Vec<u8>, n: u32)
    ensures
        final(bytes)@ == old(bytes)@ + be_u32_bytes(n as nat),
        final(bytes)@.len() == old(bytes)@.len() + 4,
        ({
            let b = final(bytes)@;
            let o = old(bytes)@.len() as int;
            b[o] * 0x1000000 + b[o + 1] * 0x10000 + b[o + 2] * 0x100 + b[o + 3] == n
        }),
{
    proof {
        lemma_be_u32_bytes_value(n as nat);
    }
    bytes.push((n / 0x1000000) as u8);
    bytes.push(((n / 0x10000) % 0x100) as u8);
    bytes.push(((n / 0x100) % 0x100) as u8);
    bytes.push((n % 0x100) as u8);
    assert(final(bytes)@ =~= old(bytes)@ + be_u32_bytes(n as nat));
}

/// A fresh vector holding the same bytes.
pub fn copy_bytes(src: &[u8]) -> (r: Vec<u8>)
    ensures
        r@ == src@,
{
    let mut r: Vec<u8> = Vec::new();
    push_all(&mut r, src);
    assert(r@ =~= src@);
    r
}

/// Appends the bytes of a slice, one by one.
fn push_all(bytes: &mut Vec<u8>, src: &[u8])
    ensures
        final(bytes)@ == old(bytes)@ + src@,
{
    let ghost start = bytes@;
    let mut i: usize = 0;
    while i < src.len()
        invariant
            i <= src@.len(),
            bytes@ == start + src@.take(i as int),
        decreases src@.len() - i,
    {
        bytes.push(src[i]);
        i = i + 1;
        assert(bytes@ =~= start + src@.take(i as int));
    }
    assert(src@.take(i as int) =~= src@);
}

proof fn lemma_as_u32_wraps(x: usize)
    ensures
        (x as u32) as nat == (x as nat) % 0x1_0000_0000,
{
    assert((x as u32) as u64 == (x as u64) % 0x1_0000_0000) by (bit_vector);
}

/// Appends `value` as its 32-bit big-endian UTF-8 length followed by its UTF-8 bytes.
fn extend_length_prefixed_str(bytes: &mut Vec<u8>, value: &str)
    ensures
        final(bytes)@ == old(bytes)@ + length_prefixed(value@),
{
    let value_bytes = value.as_bytes();
    let len: u32 = value_bytes.len() as u32;
    proof {
        lemma_as_u32_wraps(value_bytes.len());
    }
    push_be_u32(bytes, len);
    push_all(bytes, value_bytes);
    assert(final(bytes)@ =~= old(bytes)@ + length_prefixed(value@));
}

/// Reads one length-prefixed UTF-8 string from the front of `bytes`.
fn read_length_prefixed_str(bytes: &[u8]) -> (r: Result<(String, &[u8]), CommandError>)
    ensures
        match r {
            Ok((s, rest)) => read_str_spec(bytes@) == Ok::<(Seq<char>, Seq<u8>), CommandError>((s@, rest@)),
            Err(e) => read_str_spec(bytes@) == Err::<(Seq<char>, Seq<u8>), CommandError>(e),
        },
        r matches Ok((s, rest)) ==> encode_utf8(s@).len() == bytes@[0] * 0x1000000 + bytes@[1]
            * 0x10000 + bytes@[2] * 0x100 + bytes@[3],
{
    proof {
        lemma_read_length_is_big_endian(bytes@);
    }
    if bytes.len() < 4 {
        return Err(CommandError::Truncated);
    }
    let len: u32 = (bytes[0] as u32) * 0x1000000 + (bytes[1] as u32) * 0x10000
        + (bytes[2] as u32) * 0x100 + (bytes[3] as u32);
    let len: usize = len as usize;
    let (_, bytes) = bytes.split_at(4);
    if bytes.len() < len {
        return Err(CommandError::Truncated);
    }
    let (raw, rest) = bytes.split_at(len);
    match str_from_utf8(raw) {
        Some(s) => {
            proof {
                encode_utf8_decode_utf8(s@);
            }
            Ok((s.to_owned(), rest))
        },
        None => Err(CommandError::InvalidUtf8),
    }
}

impl Command {
    /// True when both commands have the same kind and the same strings.
    pub fn same(&self, other: &Command) -> (r: bool)
        ensures
            r == (self@ == other@),
    {
        match (self, other) {
            (Command::Put { key: k1, value: v1 }, Command::Put { key: k2, value: v2 }) => {
                *k1 == *k2 && *v1 == *v2
            },
            (Command::Delete { key: k1 }, Command::Delete { key: k2 }) => *k1 == *k2,
            _ => false,
        }
    }

    /// A `Put` command; each argument is turned into a `String` by its `Into`
    /// (`set_str` builds one from string slices and names the strings it holds).
    pub fn set<K: Into<String>, V: Into<String>>(key: K, value: V) -> (c: Self)
        ensures
            c is Put,
            call_ensures(K::into, (key,), c->Put_key),
            call_ensures(V::into, (value,), c->Put_value),
    {
        Command::Put { key: key.into(), value: value.into() }
    }

    /// A `Delete` command; the argument is turned into a `String` by its `Into`
    /// (`delete_str` builds one from a string slice and names the key it holds).
    pub fn delete<K: Into<String>>(key: K) -> (c: Self)
        ensures
            c is Delete,
            call_ensures(K::into, (key,), c->Delete_key),
    {
        Command::Delete { key: key.into() }
    }

    /// A `Put` command holding copies of the given key and value.
    pub fn set_str(key: &str, value: &str) -> (c: Self)
        ensures
            c@ == (CommandView::Put { key: key@, value: value@ }),
    {
        Command::Put { key: key.to_owned(), value: value.to_owned() }
    }

    /// A `Delete` command holding a copy of the given key.
    pub fn delete_str(key: &str) -> (c: Self)
        ensures
            c@ == (CommandView::Delete { key: key@ }),
    {
        Command::Delete { key: key.to_owned() }
    }

    /// The byte encoding of the command.
    pub fn encode(&self) -> (bytes: Vec<u8>)
        ensures
            bytes@ == encode_spec(self@),
    {
        match self {
            Command::Put { key, value } => {
                let mut bytes: Vec<u8> = Vec::new();
                bytes.push(1);
                extend_length_prefixed_str(&mut bytes, key.as_str());
                extend_length_prefixed_str(&mut bytes, value.as_str());
                assert(bytes@ =~= encode_spec(self@));
                bytes
            },
            Command::Delete { key } => {
                let mut bytes: Vec<u8> = Vec::new();
                bytes.push(2);
                extend_length_prefixed_str(&mut bytes, key.as_str());
                assert(bytes@ =~= encode_spec(self@));
                bytes
            },
        }
    }

    /// Decodes a command from its bytes, or says why they are not one.
    pub fn decode(bytes: &[u8]) -> (r: Result<Self, CommandError>)
        ensures
            decode_result_matches(r, decode_spec(bytes@)),
            r matches Ok(c) ==> encode_spec(c@) == bytes@,
    {
        proof {
            if decode_spec(bytes@) is Ok {
                lemma_encode_decode(bytes@);
            }
        }
        if bytes.len() == 0 {
            return Err(CommandError::Empty);
        }
        let (head, rest) = bytes.split_at(1);
        let tag = head[0];
        assert(rest@ =~= bytes@.drop_first());
        if tag == 1 {
            match read_length_prefixed_str(rest) {
                Err(e) => Err(e),
                Ok((key, rest)) => match read_length_prefixed_str(rest) {
                    Err(e) => Err(e),
                    Ok((value, rest)) => {
                        if rest.len() != 0 {
                            return Err(CommandError::Truncated);
                        }
                        Ok(Command::Put { key, value })
                    },
                },
            }
        } else if tag == 2 {
            match read_length_prefixed_str(rest) {
                Err(e) => Err(e),
                Ok((key, rest)) => {
                    if rest.len() != 0 {
                        return Err(CommandError::Truncated);
                    }
                    Ok(Command::Delete { key })
                },
            }
        } else {
            Err(CommandError::UnknownTag(tag))
        }
    }
}

/// True when the `String`-valued map holds exactly the entries of `m`.
pub open spec fn store_matches(store: Map<Seq<char>, String>, m: Map<Seq<char>, Seq<char>>) -> bool {
    &&& store.dom() == m.dom()
    &&& forall|k: Seq<char>| #[trigger] store.contains_key(k) ==> store[k]@ == m[k]
}

/// Deterministic key-value store updated by committed log entries.
///
/// Its contents are always the replay of the commands it applied, in order.
pub struct StateMachine {
    store: StringHashMap<String>,
    applied_commands: Vec<Command>,
}

impl View for StateMachine {
    type V = Seq<CommandView>;

    /// A state machine is the sequence of commands it has applied; its key-value
    /// contents are `replay` of that sequence.
    closed spec fn view(&self) -> Seq<CommandView> {
        commands_view(self.applied_commands@)
    }
}

impl StateMachine {
    #[verifier::type_invariant]
    spec fn store_is_replay(&self) -> bool {
        store_matches(self.store@, replay(commands_view(self.applied_commands@)))
    }

    /// An empty state machine that has applied nothing.
    pub fn new() -> (sm: Self)
        ensures
            sm@ == Seq::<CommandView>::empty(),
    {
        let sm = StateMachine { store: StringHashMap::new(), applied_commands: Vec::new() };
        assert(commands_view(sm.applied_commands@) =~= Seq::<CommandView>::empty());
        sm
    }

    /// Applies one command: `Put` writes its key, `Delete` removes it; the command is
    /// recorded as applied.
    pub fn apply(&mut self, command: &Command)
        ensures
            final(self)@ == old(self)@.push(command@),
    {
        proof {
            use_type_invariant(&*self);
        }
        let ghost old_cmds = commands_view(self.applied_commands@);
        let mut taken = StateMachine::new();
        std::mem::swap(self, &mut taken);
        proof {
            use_type_invariant(&taken);
        }
        let StateMachine { mut store, mut applied_commands } = taken;
        match command {
            Command::Put { key, value } => {
                store.insert(key.clone(), value.clone());
            },
            Command::Delete { key } => {
                store.remove(key.as_str());
            },
        }
        applied_commands.push(command.clone());
        proof {
            let new_cmds = commands_view(applied_commands@);
            assert(new_cmds =~= old_cmds.push(command@));
            assert(new_cmds.drop_last() =~= old_cmds);
        }
        *self = StateMachine { store, applied_commands };
    }

    /// Decodes a command from bytes and applies it; on a decoding error nothing changes.
    pub fn apply_bytes(&mut self, data: &[u8]) -> (r: Result<(), CommandError>)
        ensures
            match decode_spec(data@) {
                Ok(c) => r is Ok && final(self)@ == old(self)@.push(c),
                Err(e) => r == Err::<(), CommandError>(e) && final(self)@ == old(self)@,
            },
    {
        match Command::decode(data) {
            Ok(command) => {
                self.apply(&command);
                Ok(())
            },
            Err(e) => Err(e),
        }
    }

    /// The value stored at `key`, if any.
    pub fn get(&self, key: &str) -> (r: Option<&str>)
        ensures
            match r {
                Some(v) => replay(self@).contains_key(key@) && v@ == replay(self@)[key@],
                None => !replay(self@).contains_key(key@),
            },
    {
        proof {
            use_type_invariant(self);
        }
        match self.store.get(key) {
            Some(v) => Some(v.as_str()),
            None => None,
        }
    }

    /// The whole key-value store.
    pub fn store(&self) -> (r: &StringHashMap<String>)
        ensures
            store_matches(r@, replay(self@)),
    {
        proof {
            use_type_invariant(self);
        }
        &self.store
    }

    /// The commands applied so far, in order.
    pub fn applied_commands(&self) -> (r: &[Command])
        ensures
            commands_view(r@) == self@,
    {
        self.applied_commands.as_slice()
    }

    /// The key-value contents of the store, each value taken as its characters.
    pub closed spec fn contents(&self) -> Map<Seq<char>, Seq<char>> {
        Map::new(|k: Seq<char>| self.store@.contains_key(k), |k: Seq<char>| self.store@[k]@)
    }

    /// True when both state machines applied the same commands. State machines with
    /// the same history hold stores with the same contents.
    pub fn same_state(&self, other: &StateMachine) -> (r: bool)
        ensures
            r == (self@ == other@),
            self@ == other@ ==> self.contents() == other.contents(),
    {
        proof {
            use_type_invariant(self);
            use_type_invariant(other);
            assert(self.contents() =~= replay(self@));
            assert(other.contents() =~= replay(other@));
        }
        let a = &self.applied_commands;
        let b = &other.applied_commands;
        if a.len() != b.len() {
            proof {
                assert(self@.len() != other@.len());
            }
            return false;
        }
        let mut i: usize = 0;
        while i < a.len()
            invariant
                a.len() == b.len(),
                i <= a.len(),
                a == self.applied_commands,
                b == other.applied_commands,
                forall|j: int| 0 <= j < i ==> #[trigger] a@[j]@ == b@[j]@,
            decreases a.len() - i,
        {
            if !a[i].same(&b[i]) {
                proof {
                    assert(self@[i as int] != other@[i as int]);
                }
                return false;
            }
            i = i + 1;
        }
        proof {
            assert(self@ =~= other@);
        }
        true
    }
}

impl Clone for StateMachine {
    /// A state machine with the same history, rebuilt by applying the same commands
    /// in order.
    fn clone(&self) -> (r: Self)
        ensures
            r@ == self@,
    {
        let mut r = StateMachine::new();
        let mut i: usize = 0;
        while i < self.applied_commands.len()
            invariant
                i <= self.applied_commands@.len(),
                r@ == commands_view(self.applied_commands@.take(i as int)),
            decreases self.applied_commands@.len() - i,
        {
            proof {
                assert(commands_view(self.applied_commands@.take(i + 1)) =~= commands_view(
                    self.applied_commands@.take(i as int),
                ).push(self.applied_commands@[i as int]@));
            }
            r.apply(&self.applied_commands[i]);
            i = i + 1;
        }
        proof {
            assert(self.applied_commands@.take(i as int) =~= self.applied_commands@);
        }
        r
    }
}

impl Default for StateMachine {
    fn default() -> (sm: Self)
        ensures
            sm@ == Seq::<CommandView>::empty(),
    {
        StateMachine::new()
    }
}

/// Replaying a history extended by one command is applying that command to the
/// replay of the history.
pub proof fn lemma_replay_push(cmds: Seq<CommandView>, c: CommandView)
    ensures
        replay(cmds.push(c)) == apply_spec(replay(cmds), c),
{
    assert(cmds.push(c).drop_last() =~= cmds);
}

} // verus!

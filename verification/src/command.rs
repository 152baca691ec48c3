//! The command value type the write-ahead log persists and replay applies,
//! and its self-delimiting byte encoding.

use vstd::prelude::*;
use vstd::utf8::encode_utf8;

use crate::codec::{
    append_piece, lemma_take_piece_at, read_piece, spec_piece, spec_take_piece, MAX_PIECE_LEN,
};
use crate::error::{PlexError, PlexResult};

verus! {

/// One operation against the store.
pub enum Command {
    Put { key: String, value: String },
    Get { key: String },
    Delete { key: String },
    Compact,
}

/// A command as specifications see it.
pub ghost enum CommandView {
    Put { key: Seq<char>, value: Seq<char> },
    Get { key: Seq<char> },
    Delete { key: Seq<char> },
    Compact,
}

impl Command {
    /// The view of a command.
    pub open spec fn view(self) -> CommandView {
        match self {
            Command::Put { key, value } => CommandView::Put { key: key@, value: value@ },
            Command::Get { key } => CommandView::Get { key: key@ },
            Command::Delete { key } => CommandView::Delete { key: key@ },
            Command::Compact => CommandView::Compact,
        }
    }
}

/// The byte encoding of a command: a variant tag, then its string pieces.
pub open spec fn spec_command_bytes(c: CommandView) -> Seq<u8> {
    match c {
        CommandView::Put { key, value } => seq![0u8] + spec_piece(key) + spec_piece(value),
        CommandView::Get { key } => seq![1u8] + spec_piece(key),
        CommandView::Delete { key } => seq![2u8] + spec_piece(key),
        CommandView::Compact => seq![3u8],
    }
}

/// Whether a command's strings fit their length fields.
pub open spec fn spec_command_fits(c: CommandView) -> bool {
    match c {
        CommandView::Put { key, value } => encode_utf8(key).len() <= MAX_PIECE_LEN && encode_utf8(
            value,
        ).len() <= MAX_PIECE_LEN,
        CommandView::Get { key } => encode_utf8(key).len() <= MAX_PIECE_LEN,
        CommandView::Delete { key } => encode_utf8(key).len() <= MAX_PIECE_LEN,
        CommandView::Compact => true,
    }
}

/// Parsing a command; `None` unless the bytes are exactly one encoded
/// command.
pub open spec fn spec_decode_command(b: Seq<u8>) -> Option<CommandView> {
    if b.len() < 1 {
        None
    } else if b[0] == 0u8 {
        match spec_take_piece(b, 1) {
            Some((k, p)) => match spec_take_piece(b, p) {
                Some((v, end)) => if end == b.len() {
                    Some(CommandView::Put { key: k, value: v })
                } else {
                    None
                },
                None => None,
            },
            None => None,
        }
    } else if b[0] == 1u8 {
        match spec_take_piece(b, 1) {
            Some((k, end)) => if end == b.len() {
                Some(CommandView::Get { key: k })
            } else {
                None
            },
            None => None,
        }
    } else if b[0] == 2u8 {
        match spec_take_piece(b, 1) {
            Some((k, end)) => if end == b.len() {
                Some(CommandView::Delete { key: k })
            } else {
                None
            },
            None => None,
        }
    } else if b[0] == 3u8 {
        if b.len() == 1 {
            Some(CommandView::Compact)
        } else {
            None
        }
    } else {
        None
    }
}

/// Decoding an encoded command returns the original command.
pub proof fn lemma_command_round_trip(c: CommandView)
    requires
        spec_command_fits(c),
    ensures
        spec_decode_command(spec_command_bytes(c)) == Some(c),
{
    let b = spec_command_bytes(c);
    match c {
        CommandView::Put { key, value } => {
            let kp = spec_piece(key).len() as int;
            assert(b.subrange(1, 1 + kp) =~= spec_piece(key));
            lemma_take_piece_at(b, 1, key);
            assert(b.subrange(1 + kp, 1 + kp + spec_piece(value).len() as int) =~= spec_piece(
                value,
            ));
            lemma_take_piece_at(b, 1 + kp, value);
        },
        CommandView::Get { key } => {
            assert(b.subrange(1, 1 + spec_piece(key).len() as int) =~= spec_piece(key));
            lemma_take_piece_at(b, 1, key);
        },
        CommandView::Delete { key } => {
            assert(b.subrange(1, 1 + spec_piece(key).len() as int) =~= spec_piece(key));
            lemma_take_piece_at(b, 1, key);
        },
        CommandView::Compact => {
        },
    }
}

/// Serializes a command; rejects one whose strings overflow a length
/// field.
pub fn encode_command(c: &Command) -> (r: PlexResult<Vec<u8>>)
    ensures
        match r {
            Ok(v) => v@ == spec_command_bytes(c@),
            Err(e) => e is WAL,
        },
        r is Err <==> !spec_command_fits(c@),
{
    let mut out: Vec<u8> = Vec::new();
    match c {
        Command::Put { key, value } => {
            out.push(0u8);
            if !append_piece(&mut out, key.as_str()) {
                return Err(PlexError::WAL("command too large to serialize".to_owned()));
            }
            if !append_piece(&mut out, value.as_str()) {
                return Err(PlexError::WAL("command too large to serialize".to_owned()));
            }
            assert(out@ =~= spec_command_bytes(c@));
        },
        Command::Get { key } => {
            out.push(1u8);
            if !append_piece(&mut out, key.as_str()) {
                return Err(PlexError::WAL("command too large to serialize".to_owned()));
            }
            assert(out@ =~= spec_command_bytes(c@));
        },
        Command::Delete { key } => {
            out.push(2u8);
            if !append_piece(&mut out, key.as_str()) {
                return Err(PlexError::WAL("command too large to serialize".to_owned()));
            }
            assert(out@ =~= spec_command_bytes(c@));
        },
        Command::Compact => {
            out.push(3u8);
            assert(out@ =~= spec_command_bytes(c@));
        },
    }
    Ok(out)
}

/// Deserializes a command, exactly as `spec_decode_command` describes.
pub fn decode_command(b: &[u8]) -> (r: Option<Command>)
    ensures
        match r {
            Some(c) => spec_decode_command(b@) == Some(c@),
            None => spec_decode_command(b@) is None,
        },
{
    if b.len() < 1 {
        return None;
    }
    let tag = *vstd::slice::slice_index_get(b, 0);
    if tag == 0u8 {
        match read_piece(b, 1) {
            Some((k, p)) => match read_piece(b, p) {
                Some((v, end)) => if end == b.len() {
                    Some(Command::Put { key: k, value: v })
                } else {
                    None
                },
                None => None,
            },
            None => None,
        }
    } else if tag == 1u8 {
        match read_piece(b, 1) {
            Some((k, end)) => if end == b.len() {
                Some(Command::Get { key: k })
            } else {
                None
            },
            None => None,
        }
    } else if tag == 2u8 {
        match read_piece(b, 1) {
            Some((k, end)) => if end == b.len() {
                Some(Command::Delete { key: k })
            } else {
                None
            },
            None => None,
        }
    } else if tag == 3u8 {
        if b.len() == 1 {
            Some(Command::Compact)
        } else {
            None
        }
    } else {
        None
    }
}

} // verus!

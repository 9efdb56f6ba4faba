//! Commands, and the record that stands for each in the log.
//!
//! A record is one JSON object on a line of its own, with the members `key`,
//! `value` and `kind`, in this order. The two strings are written as
//! `serde_json` writes them; a record is read with `gjson`, member by member.

use vstd::prelude::*;
use vstd::string::*;
use vstd::utf8::*;
use crate::error::CustomError;
use crate::json::{
    json_literal, json_member, member_bytes, to_json_literal, utf8_text, MAX_RECORD,
};
use crate::shape::{is_whole_object, whole_object};
use crate::text::{newline_free, NEWLINE};

verus! {

/// One mutation of the store, as it is kept in the log.
#[derive(Debug, PartialEq, Eq)]
pub enum Command {
    /// Gives `key` the value `value`.
    Write { key: String, value: String },
    /// Takes the value of `key` away.
    Delete { key: String },
}

/// What a command says, in mathematical terms.
pub enum CommandView {
    Write { key: Seq<char>, value: Seq<char> },
    Delete { key: Seq<char> },
}

impl View for Command {
    type V = CommandView;

    open spec fn view(&self) -> CommandView {
        match self {
            Command::Write { key, value } => CommandView::Write { key: key@, value: value@ },
            Command::Delete { key } => CommandView::Delete { key: key@ },
        }
    }
}

impl Clone for Command {
    fn clone(&self) -> (copy: Command)
        ensures
            copy@ == self@,
    {
        match self {
            Command::Write { key, value } => Command::Write {
                key: key.clone(),
                value: value.clone(),
            },
            Command::Delete { key } => Command::Delete { key: key.clone() },
        }
    }
}

impl CommandView {
    /// The key that the command is about.
    pub open spec fn key(self) -> Seq<char> {
        match self {
            CommandView::Write { key, .. } => key,
            CommandView::Delete { key } => key,
        }
    }
}

/// The view of a command that may be missing.
pub open spec fn view_of(cmd: Option<Command>) -> Option<CommandView> {
    match cmd {
        Some(c) => Some(c@),
        None => None,
    }
}

/// The tag of a write, `set`, as bytes.
pub open spec fn write_tag() -> Seq<u8> {
    seq![115u8, 101u8, 116u8]
}

/// The tag of a delete, `rm`, as bytes.
pub open spec fn delete_tag() -> Seq<u8> {
    seq![114u8, 109u8]
}

/// The text of a record with the given members. `key` and `value` are JSON
/// string literals, quotes included; `tag` is bare.
pub open spec fn record_text(key: Seq<char>, value: Seq<char>, tag: Seq<char>) -> Seq<char> {
    "{\"key\":"@ + key + ",\"value\":"@ + value + ",\"kind\":\""@ + tag + "\"}"@
}

/// The record of a command. A delete carries the empty string as its value.
pub open spec fn encoded(cmd: CommandView) -> Seq<char> {
    match cmd {
        CommandView::Write { key, value } => record_text(
            json_literal(key),
            json_literal(value),
            "set"@,
        ),
        CommandView::Delete { key } => record_text(json_literal(key), "\"\""@, "rm"@),
    }
}

/// The command that three members stand for: a write where the kind is
/// `set`, a delete where it is `rm`, none where it is anything else or where
/// a string that the command needs is not UTF-8.
pub open spec fn command_of(kind: Seq<u8>, key: Seq<u8>, value: Seq<u8>) -> Option<CommandView> {
    if kind == write_tag() {
        if valid_utf8(key) && valid_utf8(value) {
            Some(CommandView::Write { key: decode_utf8(key), value: decode_utf8(value) })
        } else {
            None
        }
    } else if kind == delete_tag() {
        if valid_utf8(key) {
            Some(CommandView::Delete { key: decode_utf8(key) })
        } else {
            None
        }
    } else {
        None
    }
}

/// The command that a line of the log holds, if it holds one. A line that is
/// no whole object, as a record that was cut short, holds none; nor does a
/// line that is not UTF-8, or longer than `MAX_RECORD`.
pub open spec fn decoded(line: Seq<u8>) -> Option<CommandView> {
    if line.len() <= MAX_RECORD && whole_object(line) && valid_utf8(line) {
        let json = decode_utf8(line);
        command_of(
            json_member(json, "kind"@),
            json_member(json, "key"@),
            json_member(json, "value"@),
        )
    } else {
        None
    }
}

/// The bytes of the record of a command.
pub open spec fn record_bytes(cmd: CommandView) -> Seq<u8> {
    encode_utf8(encoded(cmd))
}

/// A command is faithful when its record fits on one line, and reading the
/// record gives the command back.
pub open spec fn faithful(cmd: CommandView) -> bool {
    &&& newline_free(record_bytes(cmd))
    &&& decoded(record_bytes(cmd)) == Some(cmd)
}

/// Whether `bytes` holds exactly the bytes of `tag`.
fn is_tag(bytes: &[u8], tag: &[u8]) -> (r: bool)
    ensures
        r == (bytes@ == tag@),
{
    if bytes.len() != tag.len() {
        return false;
    }
    let mut i: usize = 0;
    while i < bytes.len()
        invariant
            i <= bytes.len(),
            bytes.len() == tag.len(),
            forall|j: int| 0 <= j < i ==> bytes@[j] == tag@[j],
        decreases bytes.len() - i,
    {
        if bytes[i] != tag[i] {
            return false;
        }
        i = i + 1;
    }
    assert(bytes@ =~= tag@);
    true
}

/// The string that `bytes` spells, where they are valid UTF-8.
fn text_of(bytes: &[u8]) -> (r: Option<String>)
    ensures
        r is Some <==> valid_utf8(bytes@),
        r matches Some(text) ==> text@ == decode_utf8(bytes@),
{
    match utf8_text(bytes) {
        Some(text) => {
            proof {
                encode_utf8_decode_utf8(text@);
            }
            Some(text.to_owned())
        },
        None => None,
    }
}

/// Whether no byte of `line` is a newline.
fn fits_on_a_line(line: &[u8]) -> (r: bool)
    ensures
        r == newline_free(line@),
{
    let mut i: usize = 0;
    while i < line.len()
        invariant
            i <= line.len(),
            forall|j: int| 0 <= j < i ==> line@[j] != NEWLINE,
        decreases line.len() - i,
    {
        if line[i] == NEWLINE {
            return false;
        }
        i = i + 1;
    }
    true
}

impl Command {
    /// The key that the command is about.
    pub fn key(&self) -> (r: &String)
        ensures
            r@ == self@.key(),
    {
        match self {
            Command::Write { key, .. } => key,
            Command::Delete { key } => key,
        }
    }

    /// Whether two commands say the same.
    pub fn same(&self, other: &Command) -> (r: bool)
        ensures
            r == (self@ == other@),
    {
        match (self, other) {
            (Command::Write { key: k1, value: v1 }, Command::Write { key: k2, value: v2 }) => {
                *k1 == *k2 && *v1 == *v2
            },
            (Command::Delete { key: k1 }, Command::Delete { key: k2 }) => *k1 == *k2,
            _ => false,
        }
    }

    /// Puts a record together from its members: `key` and `value` as JSON
    /// string literals, `tag` bare.
    pub fn frame(key: &str, value: &str, tag: &str) -> (r: String)
        ensures
            r@ == record_text(key@, value@, tag@),
    {
        let mut record = String::from_str("{\"key\":");
        record.append(key);
        record.append(",\"value\":");
        record.append(value);
        record.append(",\"kind\":\"");
        record.append(tag);
        record.append("\"}");
        record
    }

    /// The command that three members of a record stand for.
    pub fn from_members(kind: &[u8], key: &[u8], value: &[u8]) -> (r: Option<Command>)
        ensures
            view_of(r) == command_of(kind@, key@, value@),
    {
        let set: [u8; 3] = [115, 101, 116];
        let rm: [u8; 2] = [114, 109];
        if is_tag(kind, set.as_slice()) {
            match (text_of(key), text_of(value)) {
                (Some(key), Some(value)) => Some(Command::Write { key, value }),
                _ => None,
            }
        } else if is_tag(kind, rm.as_slice()) {
            match text_of(key) {
                Some(key) => Some(Command::Delete { key }),
                None => None,
            }
        } else {
            None
        }
    }

    /// The record of the command, without the newline that ends it in the
    /// log.
    pub fn encode(&self) -> (record: String)
        ensures
            record@ == encoded(self@),
    {
        match self {
            Command::Write { key, value } => {
                let k = to_json_literal(key.as_str()).unwrap();
                let v = to_json_literal(value.as_str()).unwrap();
                Command::frame(k.as_str(), v.as_str(), "set")
            },
            Command::Delete { key } => {
                let k = to_json_literal(key.as_str()).unwrap();
                Command::frame(k.as_str(), "\"\"", "rm")
            },
        }
    }

    /// Reads one line of the log. A line that is no whole object, that is
    /// not UTF-8, that is longer than `MAX_RECORD`, or whose kind is neither
    /// of the two tags, holds no command.
    pub fn decode(line: &[u8]) -> (r: Option<Command>)
        ensures
            view_of(r) == decoded(line@),
    {
        if line.len() > MAX_RECORD || !is_whole_object(line) {
            return None;
        }
        match utf8_text(line) {
            Some(json) => {
                proof {
                    encode_utf8_decode_utf8(json@);
                    reveal_strlit("kind");
                    reveal_strlit("key");
                    reveal_strlit("value");
                }
                let kind = member_bytes(json, "kind");
                let key = member_bytes(json, "key");
                let value = member_bytes(json, "value");
                Command::from_members(kind.as_slice(), key.as_slice(), value.as_slice())
            },
            None => None,
        }
    }

    /// The bytes to append to the log for this command, the newline not
    /// among them. Succeeds exactly for a faithful command: the record is
    /// read back before it is handed out, so nothing goes into the log that
    /// would not be understood later.
    pub fn to_record(&self) -> (r: Result<Vec<u8>, CustomError>)
        ensures
            match r {
                Ok(bytes) => faithful(self@) && bytes@ == record_bytes(self@),
                Err(e) => e == CustomError::SerializationError && !faithful(self@),
            },
    {
        let record = self.encode();
        let bytes = record.as_str().as_bytes_vec();
        if !fits_on_a_line(bytes.as_slice()) {
            return Err(CustomError::SerializationError);
        }
        match Command::decode(bytes.as_slice()) {
            Some(back) => {
                if back.same(self) {
                    Ok(bytes)
                } else {
                    Err(CustomError::SerializationError)
                }
            },
            None => Err(CustomError::SerializationError),
        }
    }
}

} // verus!

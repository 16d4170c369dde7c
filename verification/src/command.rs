//! Turning frames into GET/SET commands and building reply frames.
//!
//! A command arrives as an array of bulk strings: the command name, then its
//! positional arguments. An unrecognized name or a wrong argument count is
//! answered with an error frame on the same connection; it never ends the
//! session, let alone the process.

use vstd::prelude::*;
use vstd::utf8::{decode_utf8, valid_utf8};
use crate::decode::string_from_utf8;
use crate::frame::{crlf_free, frames_model, lemma_frames_model, Frame, FrameModel, CR, LF};
use crate::store::ShardedStore;

verus! {

/// A typed operation derived from a command frame.
#[derive(Debug, PartialEq)]
pub enum Command {
    /// The GET command: look a key up.
    Get { key: String },
    /// The SET command: bind a key to a value.
    Put { key: String, value: Vec<u8> },
}

/// The model of a command.
pub enum CmdModel {
    Get(Seq<char>),
    Put(Seq<char>, Seq<u8>),
}

impl View for Command {
    type V = CmdModel;

    open spec fn view(&self) -> CmdModel {
        match self {
            Command::Get { key } => CmdModel::Get(key@),
            Command::Put { key, value } => CmdModel::Put(key@, value@),
        }
    }
}

/// Why a frame is not a command; each is answered with an error reply.
#[derive(Debug, PartialEq, Eq, Structural)]
pub enum CommandError {
    /// Not an array of bulk strings, or a key that is not UTF-8 text.
    Malformed,
    /// A command name other than GET or SET.
    Unknown,
    /// A recognized name with the wrong number of arguments.
    WrongArity,
}

/// ASCII uppercase of one byte.
pub open spec fn upper_byte(b: u8) -> u8 {
    if 97 <= b <= 122 {
        (b - 32) as u8
    } else {
        b
    }
}

/// ASCII uppercase of a byte string: command names match case-insensitively.
pub open spec fn upper(b: Seq<u8>) -> Seq<u8> {
    b.map_values(|x: u8| upper_byte(x))
}

/// How a frame reads as a command: the name, case-folded, picks the
/// operation; arity and key decoding are checked per operation.
pub open spec fn parse_command(m: FrameModel) -> Result<CmdModel, CommandError> {
    match m {
        FrameModel::Array(fs) => {
            if fs.len() == 0 {
                Err(CommandError::Malformed)
            } else {
                match fs[0] {
                    FrameModel::Bulk(name) => {
                        if upper(name) == seq![71u8, 69u8, 84u8] {
                            if fs.len() != 2 {
                                Err(CommandError::WrongArity)
                            } else {
                                match fs[1] {
                                    FrameModel::Bulk(k) => {
                                        if valid_utf8(k) {
                                            Ok(CmdModel::Get(decode_utf8(k)))
                                        } else {
                                            Err(CommandError::Malformed)
                                        }
                                    },
                                    _ => Err(CommandError::Malformed),
                                }
                            }
                        } else if upper(name) == seq![83u8, 69u8, 84u8] {
                            if fs.len() != 3 {
                                Err(CommandError::WrongArity)
                            } else {
                                match fs[1] {
                                    FrameModel::Bulk(k) => {
                                        match fs[2] {
                                            FrameModel::Bulk(v) => {
                                                if valid_utf8(k) {
                                                    Ok(CmdModel::Put(decode_utf8(k), v))
                                                } else {
                                                    Err(CommandError::Malformed)
                                                }
                                            },
                                            _ => Err(CommandError::Malformed),
                                        }
                                    },
                                    _ => Err(CommandError::Malformed),
                                }
                            }
                        } else {
                            Err(CommandError::Unknown)
                        }
                    },
                    _ => Err(CommandError::Malformed),
                }
            }
        },
        _ => Err(CommandError::Malformed),
    }
}

/// ASCII uppercase of one byte, executably.
fn upper_byte_ex(b: u8) -> (r: u8)
    ensures
        r == upper_byte(b),
{
    if 97 <= b && b <= 122 {
        b - 32
    } else {
        b
    }
}

/// Does the name, case-folded, spell the three given bytes?
fn name_is(name: &Vec<u8>, c0: u8, c1: u8, c2: u8) -> (r: bool)
    ensures
        r == (upper(name@) == seq![c0, c1, c2]),
{
    proof {
        assert(upper(name@).len() == name@.len());
    }
    if name.len() != 3 {
        return false;
    }
    let b0 = upper_byte_ex(name[0]);
    let b1 = upper_byte_ex(name[1]);
    let b2 = upper_byte_ex(name[2]);
    let eq = b0 == c0 && b1 == c1 && b2 == c2;
    proof {
        assert(upper(name@)[0] == upper_byte(name@[0]));
        assert(upper(name@)[1] == upper_byte(name@[1]));
        assert(upper(name@)[2] == upper_byte(name@[2]));
        if eq {
            assert(upper(name@) =~= seq![c0, c1, c2]);
        }
    }
    eq
}

impl Command {
    /// Reads a command out of a frame without changing it; `Err` says
    /// exactly why the frame is no command.
    pub fn from_frame(f: &Frame) -> (r: Result<Command, CommandError>)
        ensures
            match r {
                Ok(c) => parse_command(f@) == Ok::<CmdModel, CommandError>(c@),
                Err(e) => parse_command(f@) == Err::<CmdModel, CommandError>(e),
            },
    {
        match f {
            Frame::Array(items) => {
                proof {
                    lemma_frames_model(items@);
                }
                let ghost fs = frames_model(items@);
                if items.len() == 0 {
                    return Err(CommandError::Malformed);
                }
                match &items[0] {
                    Frame::Bulk(name) => {
                        proof {
                            assert(fs[0] == items@[0].model());
                        }
                        if name_is(name, 71, 69, 84) {
                            if items.len() != 2 {
                                return Err(CommandError::WrongArity);
                            }
                            match &items[1] {
                                Frame::Bulk(k) => {
                                    proof {
                                        assert(fs[1] == items@[1].model());
                                    }
                                    let kb = vstd::slice::slice_to_vec(k.as_slice());
                                    match string_from_utf8(kb) {
                                        Some(key) => Ok(Command::Get { key }),
                                        None => Err(CommandError::Malformed),
                                    }
                                },
                                _ => Err(CommandError::Malformed),
                            }
                        } else if name_is(name, 83, 69, 84) {
                            if items.len() != 3 {
                                return Err(CommandError::WrongArity);
                            }
                            match &items[1] {
                                Frame::Bulk(k) => {
                                    proof {
                                        assert(fs[1] == items@[1].model());
                                        assert(fs[2] == items@[2].model());
                                    }
                                    match &items[2] {
                                        Frame::Bulk(v) => {
                                            let kb = vstd::slice::slice_to_vec(k.as_slice());
                                            match string_from_utf8(kb) {
                                                Some(key) => {
                                                    let value = vstd::slice::slice_to_vec(
                                                        v.as_slice(),
                                                    );
                                                    Ok(Command::Put { key, value })
                                                },
                                                None => Err(CommandError::Malformed),
                                            }
                                        },
                                        _ => Err(CommandError::Malformed),
                                    }
                                },
                                _ => Err(CommandError::Malformed),
                            }
                        } else {
                            Err(CommandError::Unknown)
                        }
                    },
                    _ => Err(CommandError::Malformed),
                }
            },
            _ => Err(CommandError::Malformed),
        }
    }
}

/// An ASCII character other than CR and LF.
pub open spec fn plain_ascii(c: char) -> bool {
    &&& '\0' <= c <= '\u{7f}'
    &&& c != '\r'
    &&& c != '\n'
}

/// CR/LF-free ASCII text makes a well-formed simple or error frame.
proof fn lemma_text_wf(s: Seq<char>)
    requires
        forall|i: int| 0 <= i < s.len() ==> plain_ascii(#[trigger] s[i]),
    ensures
        crlf_free(vstd::utf8::encode_utf8(s)),
{
    assert(vstd::utf8::is_ascii_chars(s)) by {
        assert forall|i: int| 0 <= i < s.len() implies '\0' <= #[trigger] s[i] <= '\u{7f}' by {
            assert(plain_ascii(s[i]));
        }
    }
    vstd::utf8::is_ascii_chars_encode_utf8(s);
    let e = vstd::utf8::encode_utf8(s);
    assert forall|i: int| 0 <= i < e.len() implies #[trigger] e[i] != CR && e[i] != LF by {
        assert(e[i] == s[i] as u8);
        assert(plain_ascii(s[i]));
        assert((s[i] as u32) != 13 && (s[i] as u32) != 10 && (s[i] as u32) < 128) by {
            vstd::utf8::char_u32_cast(s[i], s[i] as u32);
            vstd::utf8::char_u32_cast('\r', '\r' as u32);
            vstd::utf8::char_u32_cast('\n', '\n' as u32);
        }
    }
}

/// The reply to a successful SET.
pub fn set_reply() -> (r: Frame)
    ensures
        r@ == FrameModel::Simple("OK"@),
        r.wf(),
{
    let s: String = "OK".to_owned();
    proof {
        reveal_strlit("OK");
        lemma_text_wf("OK"@);
    }
    Frame::Simple(s)
}

/// The reply to a GET: the stored bytes, or the null frame when the key is
/// absent — an empty value is a bulk frame, not null.
pub fn get_reply(v: Option<Vec<u8>>) -> (r: Frame)
    ensures
        match v {
            Some(b) => r@ == FrameModel::Bulk(b@),
            None => r@ == FrameModel::Null,
        },
        r.wf(),
{
    match v {
        Some(b) => {
            let n = b.len();
            proof {
                assert(b@.len() == n);
            }
            Frame::Bulk(b)
        },
        None => Frame::Null,
    }
}

/// The error reply's message text, per cause.
pub open spec fn error_text(e: CommandError) -> Seq<char> {
    match e {
        CommandError::Malformed => "ERR malformed command"@,
        CommandError::Unknown => "ERR unknown command"@,
        CommandError::WrongArity => "ERR wrong number of arguments"@,
    }
}

/// The reply to a frame that is no command; the session goes on.
pub fn error_reply(e: &CommandError) -> (r: Frame)
    ensures
        r@ == FrameModel::Error(error_text(*e)),
        r.wf(),
{
    match e {
        CommandError::Malformed => {
            let s: String = "ERR malformed command".to_owned();
            proof {
                reveal_strlit("ERR malformed command");
                lemma_text_wf("ERR malformed command"@);
            }
            Frame::Error(s)
        },
        CommandError::Unknown => {
            let s: String = "ERR unknown command".to_owned();
            proof {
                reveal_strlit("ERR unknown command");
                lemma_text_wf("ERR unknown command"@);
            }
            Frame::Error(s)
        },
        CommandError::WrongArity => {
            let s: String = "ERR wrong number of arguments".to_owned();
            proof {
                reveal_strlit("ERR wrong number of arguments");
                lemma_text_wf("ERR wrong number of arguments"@);
            }
            Frame::Error(s)
        },
    }
}

/// One request-reply step of a session: reads the frame as a command,
/// applies it to the store, and returns the reply frame to send.
pub fn dispatch(store: &mut ShardedStore, frame: &Frame) -> (reply: Frame)
    requires
        old(store).wf(),
    ensures
        final(store).wf(),
        reply.wf(),
        match parse_command(frame@) {
            Ok(c) => match c {
                CmdModel::Get(k) => final(store)@ == old(store)@ && reply@ == (
                if old(store)@.contains_key(k) {
                    FrameModel::Bulk(old(store)@[k])
                } else {
                    FrameModel::Null
                }),
                CmdModel::Put(k, v) => final(store)@ == old(store)@.insert(k, v) && reply@
                    == FrameModel::Simple("OK"@),
            },
            Err(e) => final(store)@ == old(store)@ && reply@ == FrameModel::Error(error_text(e)),
        },
{
    match Command::from_frame(frame) {
        Ok(Command::Get { key }) => get_reply(store.get(key.as_str())),
        Ok(Command::Put { key, value }) => {
            store.set(key, value);
            set_reply()
        },
        Err(e) => error_reply(&e),
    }
}

} // verus!

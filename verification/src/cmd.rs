//! The command model: a typed command is validated and extracted from a
//! decoded array-of-bulk-strings frame. Validation checks, in order, the
//! fixed arity, the case-insensitive command name, and that key and field
//! arguments are well-formed UTF-8 text.

use vstd::prelude::*;

use crate::frame::{Frame, FrameModel};
use crate::text::{check_text, is_text, lower, lower_byte, to_lower_byte};

verus! {

/// Why a frame is not a command.
#[derive(Debug, Clone, Copy, PartialEq, Eq)]
pub enum CommandError {
    /// The frame is not an array of bulk strings of the right shape: wrong
    /// arity, unknown or mistyped name, or a key/field that is not text.
    InvalidArgument,
}

/// Read one field of a hash key.
#[derive(Debug, PartialEq, Eq)]
pub struct HGet {
    pub key: Vec<u8>,
    pub field: Vec<u8>,
}

/// Write one field of a hash key.
#[derive(Debug, PartialEq, Eq)]
pub struct HSet {
    pub key: Vec<u8>,
    pub field: Vec<u8>,
    pub value: Frame,
}

/// Read every field of a hash key.
#[derive(Debug, PartialEq, Eq)]
pub struct HGetAll {
    pub key: Vec<u8>,
}

/// Any command this core understands.
#[derive(Debug, PartialEq, Eq)]
pub enum Command {
    HGet(HGet),
    HSet(HSet),
    HGetAll(HGetAll),
}

/// Mathematical shape of a parsed command.
#[verifier::ext_equal]
pub enum CommandModel {
    HGet(Seq<u8>, Seq<u8>),
    HSet(Seq<u8>, Seq<u8>, FrameModel),
    HGetAll(Seq<u8>),
}

impl View for Command {
    type V = CommandModel;

    open spec fn view(&self) -> CommandModel {
        match self {
            Command::HGet(c) => CommandModel::HGet(c.key@, c.field@),
            Command::HSet(c) => CommandModel::HSet(c.key@, c.field@, c.value@),
            Command::HGetAll(c) => CommandModel::HGetAll(c.key@),
        }
    }
}

pub open spec fn hget_name() -> Seq<u8> {
    seq![104u8, 103u8, 101u8, 116u8]
}

pub open spec fn hset_name() -> Seq<u8> {
    seq![104u8, 115u8, 101u8, 116u8]
}

pub open spec fn hgetall_name() -> Seq<u8> {
    seq![104u8, 103u8, 101u8, 116u8, 97u8, 108u8, 108u8]
}

/// The payload of a bulk-string frame.
pub open spec fn payload_of(e: FrameModel) -> Seq<u8> {
    match e {
        FrameModel::BulkString(b) => b,
        _ => Seq::empty(),
    }
}

/// Every element is a bulk string.
pub open spec fn all_bulk(els: Seq<FrameModel>) -> bool {
    forall|i: int| 0 <= i < els.len() ==> (#[trigger] els[i]) is BulkString
}

/// What `HGET` accepts and extracts: an array `[name, key, field]` of bulk
/// strings whose name folds to `hget` and whose key and field are text.
pub open spec fn spec_hget(f: FrameModel) -> Result<(Seq<u8>, Seq<u8>), CommandError> {
    match f {
        FrameModel::Array(els) => {
            if els.len() == 3 && all_bulk(els) && lower(payload_of(els[0])) == hget_name() {
                let k = payload_of(els[1]);
                let fd = payload_of(els[2]);
                if is_text(k) && is_text(fd) {
                    Ok((k, fd))
                } else {
                    Err(CommandError::InvalidArgument)
                }
            } else {
                Err(CommandError::InvalidArgument)
            }
        },
        _ => Err(CommandError::InvalidArgument),
    }
}

/// What `HSET` accepts and extracts: `[name, key, field, value]`, all bulk
/// strings, name folding to `hset`, key and field text; the value is kept
/// as an opaque frame so binary content can be stored.
pub open spec fn spec_hset(f: FrameModel) -> Result<
    (Seq<u8>, Seq<u8>, FrameModel),
    CommandError,
> {
    match f {
        FrameModel::Array(els) => {
            if els.len() == 4 && all_bulk(els) && lower(payload_of(els[0])) == hset_name() {
                let k = payload_of(els[1]);
                let fd = payload_of(els[2]);
                if is_text(k) && is_text(fd) {
                    Ok((k, fd, els[3]))
                } else {
                    Err(CommandError::InvalidArgument)
                }
            } else {
                Err(CommandError::InvalidArgument)
            }
        },
        _ => Err(CommandError::InvalidArgument),
    }
}

/// What `HGETALL` accepts and extracts: `[name, key]`, both bulk strings,
/// name folding to `hgetall`, key text.
pub open spec fn spec_hgetall(f: FrameModel) -> Result<Seq<u8>, CommandError> {
    match f {
        FrameModel::Array(els) => {
            if els.len() == 2 && all_bulk(els) && lower(payload_of(els[0])) == hgetall_name() {
                let k = payload_of(els[1]);
                if is_text(k) {
                    Ok(k)
                } else {
                    Err(CommandError::InvalidArgument)
                }
            } else {
                Err(CommandError::InvalidArgument)
            }
        },
        _ => Err(CommandError::InvalidArgument),
    }
}

/// Dispatch on the (case-folded) name, then parse by that command's rule.
pub open spec fn spec_command(f: FrameModel) -> Result<CommandModel, CommandError> {
    match f {
        FrameModel::Array(els) => {
            if els.len() >= 1 && els[0] is BulkString {
                let nm = lower(payload_of(els[0]));
                if nm == hget_name() {
                    match spec_hget(f) {
                        Ok(p) => Ok(CommandModel::HGet(p.0, p.1)),
                        Err(e) => Err(e),
                    }
                } else if nm == hset_name() {
                    match spec_hset(f) {
                        Ok(p) => Ok(CommandModel::HSet(p.0, p.1, p.2)),
                        Err(e) => Err(e),
                    }
                } else if nm == hgetall_name() {
                    match spec_hgetall(f) {
                        Ok(k) => Ok(CommandModel::HGetAll(k)),
                        Err(e) => Err(e),
                    }
                } else {
                    Err(CommandError::InvalidArgument)
                }
            } else {
                Err(CommandError::InvalidArgument)
            }
        },
        _ => Err(CommandError::InvalidArgument),
    }
}

/// Case-fold `name` and compare with an expected all-lowercase name.
fn folds_to(name: &Vec<u8>, expect: &Vec<u8>) -> (r: bool)
    ensures
        r == (lower(name@) == expect@),
{
    if name.len() != expect.len() {
        proof {
            assert(lower(name@).len() == name@.len());
        }
        return false;
    }
    let mut i: usize = 0;
    while i < name.len()
        invariant
            i <= name.len(),
            name.len() == expect.len(),
            forall|j: int| 0 <= j < i ==> lower_byte(name@[j]) == expect@[j],
        decreases name.len() - i,
    {
        if to_lower_byte(name[i]) != expect[i] {
            proof {
                assert(lower(name@)[i as int] != expect@[i as int]);
            }
            return false;
        }
        i = i + 1;
    }
    proof {
        assert(lower(name@) =~= expect@);
    }
    true
}

fn hget_text() -> (r: Vec<u8>)
    ensures
        r@ == hget_name(),
{
    let mut v: Vec<u8> = Vec::new();
    v.push(104);
    v.push(103);
    v.push(101);
    v.push(116);
    proof {
        assert(v@ =~= hget_name());
    }
    v
}

fn hset_text() -> (r: Vec<u8>)
    ensures
        r@ == hset_name(),
{
    let mut v: Vec<u8> = Vec::new();
    v.push(104);
    v.push(115);
    v.push(101);
    v.push(116);
    proof {
        assert(v@ =~= hset_name());
    }
    v
}

fn hgetall_text() -> (r: Vec<u8>)
    ensures
        r@ == hgetall_name(),
{
    let mut v: Vec<u8> = Vec::new();
    v.push(104);
    v.push(103);
    v.push(101);
    v.push(116);
    v.push(97);
    v.push(108);
    v.push(108);
    proof {
        assert(v@ =~= hgetall_name());
    }
    v
}

impl HGet {
    /// Validate and extract an `HGET` from a decoded frame.
    pub fn try_parse(frame: &Frame) -> (r: Result<HGet, CommandError>)
        ensures
            r is Ok <==> spec_hget(frame@) is Ok,
            r matches Ok(c) ==> spec_hget(frame@) == Ok::<_, CommandError>((c.key@, c.field@)),
    {
        broadcast use crate::frame::lemma_frames_view;

        match frame {
            Frame::Array(els) => {
                proof {
                    assert(frame@ == FrameModel::Array(crate::frame::frames_view(els@)));
                    assert(crate::frame::frames_view(els@).len() == els@.len());
                }
                if els.len() != 3 {
                    return Err(CommandError::InvalidArgument);
                }
                match (&els[0], &els[1], &els[2]) {
                    (Frame::BulkString(name), Frame::BulkString(k), Frame::BulkString(fd)) => {
                        proof {
                            assert(crate::frame::frames_view(els@)[0] == els@[0]@);
                            assert(crate::frame::frames_view(els@)[1] == els@[1]@);
                            assert(crate::frame::frames_view(els@)[2] == els@[2]@);
                            assert(all_bulk(crate::frame::frames_view(els@)));
                        }
                        let expect = hget_text();
                        if !folds_to(name, &expect) {
                            return Err(CommandError::InvalidArgument);
                        }
                        if !check_text(k) || !check_text(fd) {
                            return Err(CommandError::InvalidArgument);
                        }
                        Ok(HGet { key: crate::text::copy_bytes(k), field: crate::text::copy_bytes(fd) })
                    },
                    _ => {
                        proof {
                            assert(crate::frame::frames_view(els@)[0] == els@[0]@);
                            assert(crate::frame::frames_view(els@)[1] == els@[1]@);
                            assert(crate::frame::frames_view(els@)[2] == els@[2]@);
                        }
                        Err(CommandError::InvalidArgument)
                    },
                }
            },
            _ => Err(CommandError::InvalidArgument),
        }
    }
}

impl HSet {
    /// Validate and extract an `HSET` from a decoded frame.
    pub fn try_parse(frame: &Frame) -> (r: Result<HSet, CommandError>)
        ensures
            r is Ok <==> spec_hset(frame@) is Ok,
            r matches Ok(c) ==> spec_hset(frame@) == Ok::<_, CommandError>(
                (c.key@, c.field@, c.value@),
            ),
    {
        broadcast use crate::frame::lemma_frames_view;

        match frame {
            Frame::Array(els) => {
                proof {
                    assert(frame@ == FrameModel::Array(crate::frame::frames_view(els@)));
                    assert(crate::frame::frames_view(els@).len() == els@.len());
                }
                if els.len() != 4 {
                    return Err(CommandError::InvalidArgument);
                }
                match (&els[0], &els[1], &els[2], &els[3]) {
                    (
                        Frame::BulkString(name),
                        Frame::BulkString(k),
                        Frame::BulkString(fd),
                        Frame::BulkString(_),
                    ) => {
                        proof {
                            assert(crate::frame::frames_view(els@)[0] == els@[0]@);
                            assert(crate::frame::frames_view(els@)[1] == els@[1]@);
                            assert(crate::frame::frames_view(els@)[2] == els@[2]@);
                            assert(crate::frame::frames_view(els@)[3] == els@[3]@);
                            assert(all_bulk(crate::frame::frames_view(els@)));
                        }
                        let expect = hset_text();
                        if !folds_to(name, &expect) {
                            return Err(CommandError::InvalidArgument);
                        }
                        if !check_text(k) || !check_text(fd) {
                            return Err(CommandError::InvalidArgument);
                        }
                        Ok(
                            HSet {
                                key: crate::text::copy_bytes(k),
                                field: crate::text::copy_bytes(fd),
                                value: els[3].duplicate(),
                            },
                        )
                    },
                    _ => {
                        proof {
                            assert(crate::frame::frames_view(els@)[0] == els@[0]@);
                            assert(crate::frame::frames_view(els@)[1] == els@[1]@);
                            assert(crate::frame::frames_view(els@)[2] == els@[2]@);
                            assert(crate::frame::frames_view(els@)[3] == els@[3]@);
                        }
                        Err(CommandError::InvalidArgument)
                    },
                }
            },
            _ => Err(CommandError::InvalidArgument),
        }
    }
}

impl HGetAll {
    /// Validate and extract an `HGETALL` from a decoded frame.
    pub fn try_parse(frame: &Frame) -> (r: Result<HGetAll, CommandError>)
        ensures
            r is Ok <==> spec_hgetall(frame@) is Ok,
            r matches Ok(c) ==> spec_hgetall(frame@) == Ok::<_, CommandError>(c.key@),
    {
        broadcast use crate::frame::lemma_frames_view;

        match frame {
            Frame::Array(els) => {
                proof {
                    assert(frame@ == FrameModel::Array(crate::frame::frames_view(els@)));
                    assert(crate::frame::frames_view(els@).len() == els@.len());
                }
                if els.len() != 2 {
                    return Err(CommandError::InvalidArgument);
                }
                match (&els[0], &els[1]) {
                    (Frame::BulkString(name), Frame::BulkString(k)) => {
                        proof {
                            assert(crate::frame::frames_view(els@)[0] == els@[0]@);
                            assert(crate::frame::frames_view(els@)[1] == els@[1]@);
                            assert(all_bulk(crate::frame::frames_view(els@)));
                        }
                        let expect = hgetall_text();
                        if !folds_to(name, &expect) {
                            return Err(CommandError::InvalidArgument);
                        }
                        if !check_text(k) {
                            return Err(CommandError::InvalidArgument);
                        }
                        Ok(HGetAll { key: crate::text::copy_bytes(k) })
                    },
                    _ => {
                        proof {
                            assert(crate::frame::frames_view(els@)[0] == els@[0]@);
                            assert(crate::frame::frames_view(els@)[1] == els@[1]@);
                        }
                        Err(CommandError::InvalidArgument)
                    },
                }
            },
            _ => Err(CommandError::InvalidArgument),
        }
    }
}

impl Command {
    /// Validate and extract any known command from a decoded frame.
    pub fn try_parse(frame: &Frame) -> (r: Result<Command, CommandError>)
        ensures
            r is Ok <==> spec_command(frame@) is Ok,
            r matches Ok(c) ==> spec_command(frame@) == Ok::<_, CommandError>(c@),
    {
        broadcast use crate::frame::lemma_frames_view;

        match frame {
            Frame::Array(els) => {
                proof {
                    assert(frame@ == FrameModel::Array(crate::frame::frames_view(els@)));
                    assert(crate::frame::frames_view(els@).len() == els@.len());
                }
                if els.len() == 0 {
                    return Err(CommandError::InvalidArgument);
                }
                match &els[0] {
                    Frame::BulkString(name) => {
                        proof {
                            assert(crate::frame::frames_view(els@)[0] == els@[0]@);
                        }
                        let hget_n = hget_text();
                        let hset_n = hset_text();
                        let hgetall_n = hgetall_text();
                        if folds_to(name, &hget_n) {
                            match HGet::try_parse(frame) {
                                Ok(c) => Ok(Command::HGet(c)),
                                Err(e) => Err(e),
                            }
                        } else if folds_to(name, &hset_n) {
                            match HSet::try_parse(frame) {
                                Ok(c) => Ok(Command::HSet(c)),
                                Err(e) => Err(e),
                            }
                        } else if folds_to(name, &hgetall_n) {
                            match HGetAll::try_parse(frame) {
                                Ok(c) => Ok(Command::HGetAll(c)),
                                Err(e) => Err(e),
                            }
                        } else {
                            Err(CommandError::InvalidArgument)
                        }
                    },
                    _ => {
                        proof {
                            assert(crate::frame::frames_view(els@)[0] == els@[0]@);
                        }
                        Err(CommandError::InvalidArgument)
                    },
                }
            },
            _ => Err(CommandError::InvalidArgument),
        }
    }
}

} // verus!

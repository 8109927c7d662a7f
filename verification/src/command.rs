//! The command interpreter: from a wire frame to a typed GET/SET command.
//! The reply frames for executed commands are built by the handler.

use vstd::prelude::*;

use crate::frame::{FrameModel, LeafModel, WireFrame};

verus! {

/// A typed request against the store.
#[derive(Debug, Clone, PartialEq, Eq)]
pub enum Command {
    Get { key: Vec<u8> },
    Put { key: Vec<u8>, value: Vec<u8> },
}

/// The mathematical model of a command.
pub enum CommandModel {
    Get(Seq<u8>),
    Put(Seq<u8>, Seq<u8>),
}

impl Command {
    pub open spec fn model(self) -> CommandModel {
        match self {
            Command::Get { key } => CommandModel::Get(key@),
            Command::Put { key, value } => CommandModel::Put(key@, value@),
        }
    }
}

/// ASCII case folding, byte by byte.
pub open spec fn ascii_lower(b: u8) -> u8 {
    if 65 <= b <= 90 {
        (b + 32) as u8
    } else {
        b
    }
}

pub open spec fn lower_seq(s: Seq<u8>) -> Seq<u8> {
    s.map_values(|b: u8| ascii_lower(b))
}

pub open spec fn get_name() -> Seq<u8> {
    seq![103u8, 101u8, 116u8]
}

pub open spec fn set_name() -> Seq<u8> {
    seq![115u8, 101u8, 116u8]
}

/// The text a command-name leaf carries: a name may arrive as a `Bulk`
/// string, as the wire table writes commands, or as a `Simple` status
/// string. Other leaves name nothing.
pub open spec fn name_of(l: LeafModel) -> Option<Seq<u8>> {
    match l {
        LeafModel::Simple(name) => Some(name),
        LeafModel::Bulk(name) => Some(name),
        _ => None,
    }
}

/// The command a frame denotes, if any: a GET is an Array of exactly
/// `[name, Bulk(key)]`, a SET an Array of exactly
/// `[name, Bulk(key), Bulk(value)]`, where the name is a Bulk or Simple
/// string matched without regard to ASCII case. Anything else is no
/// command.
pub open spec fn spec_command_of(m: FrameModel) -> Option<CommandModel> {
    match m {
        FrameModel::Array(ls) => if ls.len() == 2 {
            match name_of(ls[0]) {
                Some(name) => match ls[1] {
                    LeafModel::Bulk(key) => if lower_seq(name) == get_name() {
                        Some(CommandModel::Get(key))
                    } else {
                        None
                    },
                    _ => None,
                },
                None => None,
            }
        } else if ls.len() == 3 {
            match name_of(ls[0]) {
                Some(name) => match ls[1] {
                    LeafModel::Bulk(key) => match ls[2] {
                        LeafModel::Bulk(value) => if lower_seq(name) == set_name() {
                            Some(CommandModel::Put(key, value))
                        } else {
                            None
                        },
                        _ => None,
                    },
                    _ => None,
                },
                None => None,
            }
        } else {
            None
        },
        _ => None,
    }
}

fn lower_byte(b: u8) -> (r: u8)
    ensures
        r == ascii_lower(b),
{
    if 65 <= b && b <= 90 {
        b + 32
    } else {
        b
    }
}

/// Compares a name against a three-byte lower-case word, without regard to
/// ASCII case.
fn name_matches3(name: &Vec<u8>, a: u8, b: u8, c: u8) -> (r: bool)
    ensures
        r == (lower_seq(name@) == seq![a, b, c]),
{
    if name.len() != 3 {
        assert(lower_seq(name@).len() == name@.len());
        return false;
    }
    let m0 = lower_byte(name[0]);
    let m1 = lower_byte(name[1]);
    let m2 = lower_byte(name[2]);
    let r = m0 == a && m1 == b && m2 == c;
    proof {
        assert(lower_seq(name@).len() == 3);
        assert(lower_seq(name@)[0] == ascii_lower(name@[0]));
        assert(lower_seq(name@)[1] == ascii_lower(name@[1]));
        assert(lower_seq(name@)[2] == ascii_lower(name@[2]));
        if r {
            assert(lower_seq(name@) =~= seq![a, b, c]);
        } else {
            assert(lower_seq(name@) != seq![a, b, c]);
        }
    }
    r
}

fn clone_bytes(v: &Vec<u8>) -> (out: Vec<u8>)
    ensures
        out@ == v@,
{
    let mut out: Vec<u8> = Vec::new();
    let mut i: usize = 0;
    while i < v.len()
        invariant
            i <= v.len(),
            out@ == v@.take(i as int),
        decreases v.len() - i,
    {
        out.push(v[i]);
        assert(out@ =~= v@.take(i + 1));
        i = i + 1;
    }
    assert(out@ =~= v@);
    out
}

/// A frame that denotes no supported command. Recoverable: the offending
/// exchange is answered with an Error frame and the connection lives on.
#[derive(Debug, PartialEq, Eq)]
pub struct UnrecognizedCommand;

/// Interprets a frame as a command; exactly the two supported shapes are
/// accepted.
pub fn from_frame(f: &WireFrame) -> (r: Result<Command, UnrecognizedCommand>)
    ensures
        match r {
            Ok(c) => spec_command_of(f.model()) == Some(c.model()),
            Err(_) => spec_command_of(f.model()) is None,
        },
{
    match f {
        WireFrame::Array(items) => {
            if items.len() == 2 {
                let name = match &items[0] {
                    WireFrame::Simple(n) => n,
                    WireFrame::Bulk(n) => n,
                    _ => {
                        return Err(UnrecognizedCommand);
                    },
                };
                let key = match &items[1] {
                    WireFrame::Bulk(k) => k,
                    _ => {
                        return Err(UnrecognizedCommand);
                    },
                };
                if name_matches3(name, 103, 101, 116) {
                    Ok(Command::Get { key: clone_bytes(key) })
                } else {
                    Err(UnrecognizedCommand)
                }
            } else if items.len() == 3 {
                let name = match &items[0] {
                    WireFrame::Simple(n) => n,
                    WireFrame::Bulk(n) => n,
                    _ => {
                        return Err(UnrecognizedCommand);
                    },
                };
                let key = match &items[1] {
                    WireFrame::Bulk(k) => k,
                    _ => {
                        return Err(UnrecognizedCommand);
                    },
                };
                let value = match &items[2] {
                    WireFrame::Bulk(v) => v,
                    _ => {
                        return Err(UnrecognizedCommand);
                    },
                };
                if name_matches3(name, 115, 101, 116) {
                    Ok(Command::Put { key: clone_bytes(key), value: clone_bytes(value) })
                } else {
                    Err(UnrecognizedCommand)
                }
            } else {
                Err(UnrecognizedCommand)
            }
        },
        _ => Err(UnrecognizedCommand),
    }
}

} // verus!

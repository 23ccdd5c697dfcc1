//! Why a checkpoint cannot be read.
use vstd::prelude::*;
use vstd::string::StringExecFns;
use crate::pth::pickle::{
    APPEND, BINGET, BINPERSID, BINPUT, BUILD, LONG_BINGET, LONG_BINPUT, MEMOIZE, NEWOBJ, REDUCE,
    SETITEM, STACK_GLOBAL, STOP, TUPLE1, TUPLE2, TUPLE3,
};
use crate::text::{hex, hex_of};

verus! {

/// What is wrong with a checkpoint.
#[derive(Clone, Copy, Debug, PartialEq, Eq, Structural)]
pub enum Fault {
    /// It ends before what it announces.
    Truncated,
    /// No end-of-central-directory record.
    NoDirectory,
    /// A directory entry without its signature.
    BadDirectory,
    /// No entry that ends in `data.pkl`.
    NoPickle,
    /// The pickle holds no state dictionary.
    NoStateDict,
    /// A storage does not hold what its tensor's shape asks for.
    Shape,
    /// Opcode `op` found too little on the stack.
    Underflow { op: u8 },
    /// A global that is not named by two strings.
    GlobalTypes,
    /// Opcode `op` asked the memo for what it does not hold.
    Memo { op: u8 },
    /// No mark on the stack.
    NoMark,
    /// A key without a value.
    OddItems,
    /// An integer of more than eight bytes.
    LongInt,
    /// An opcode that no checkpoint needs.
    Opcode { op: u8 },
}

/// The step an opcode failed in.
pub open spec fn op_name(op: u8) -> Seq<char> {
    if op == STACK_GLOBAL {
        "stack_global"@
    } else if op == BINPUT {
        "binput"@
    } else if op == LONG_BINPUT {
        "lbinput"@
    } else if op == MEMOIZE {
        "memoize"@
    } else if op == BINGET {
        "binget"@
    } else if op == LONG_BINGET {
        "lbinget"@
    } else if op == TUPLE1 {
        "t1"@
    } else if op == TUPLE2 {
        "t2"@
    } else if op == TUPLE3 {
        "t3"@
    } else if op == APPEND {
        "append"@
    } else if op == SETITEM {
        "si"@
    } else if op == BINPERSID {
        "persid"@
    } else if op == REDUCE {
        "reduce"@
    } else if op == NEWOBJ {
        "newobj"@
    } else if op == BUILD {
        "build"@
    } else if op == STOP {
        "empty stack at STOP"@
    } else {
        "stack"@
    }
}

fn op_text(op: u8) -> (s: &'static str)
    ensures
        s@ == op_name(op),
{
    if op == STACK_GLOBAL {
        "stack_global"
    } else if op == BINPUT {
        "binput"
    } else if op == LONG_BINPUT {
        "lbinput"
    } else if op == MEMOIZE {
        "memoize"
    } else if op == BINGET {
        "binget"
    } else if op == LONG_BINGET {
        "lbinget"
    } else if op == TUPLE1 {
        "t1"
    } else if op == TUPLE2 {
        "t2"
    } else if op == TUPLE3 {
        "t3"
    } else if op == APPEND {
        "append"
    } else if op == SETITEM {
        "si"
    } else if op == BINPERSID {
        "persid"
    } else if op == REDUCE {
        "reduce"
    } else if op == NEWOBJ {
        "newobj"
    } else if op == BUILD {
        "build"
    } else if op == STOP {
        "empty stack at STOP"
    } else {
        "stack"
    }
}

impl Fault {
    /// What is wrong, in words.
    pub open spec fn text(self) -> Seq<char> {
        match self {
            Fault::Truncated => "pth: truncated"@,
            Fault::NoDirectory => "pth: no ZIP EOCD"@,
            Fault::BadDirectory => "pth: bad central dir"@,
            Fault::NoPickle => "pth: no data.pkl"@,
            Fault::NoStateDict => "pth: no state_dict dict"@,
            Fault::Shape => "pth: a storage does not hold its shape"@,
            Fault::Underflow { op } => "pth pickle: "@ + op_name(op),
            Fault::GlobalTypes => "pth pickle: stack_global types"@,
            Fault::Memo { op } => "pth pickle: "@ + op_name(op),
            Fault::NoMark => "pth pickle: no mark"@,
            Fault::OddItems => "pth pickle: odd setitems"@,
            Fault::LongInt => "pth pickle: long1 of more than eight bytes"@,
            Fault::Opcode { op } => "pth pickle: unsupported opcode 0x"@ + hex(op),
        }
    }

    /// What is wrong, in words.
    pub fn message(&self) -> (s: String)
        ensures
            s@ == self.text(),
    {
        match self {
            Fault::Truncated => "pth: truncated".to_owned(),
            Fault::NoDirectory => "pth: no ZIP EOCD".to_owned(),
            Fault::BadDirectory => "pth: bad central dir".to_owned(),
            Fault::NoPickle => "pth: no data.pkl".to_owned(),
            Fault::NoStateDict => "pth: no state_dict dict".to_owned(),
            Fault::Shape => "pth: a storage does not hold its shape".to_owned(),
            Fault::Underflow { op } => {
                let mut s = "pth pickle: ".to_owned();
                s.append(op_text(*op));
                s
            },
            Fault::GlobalTypes => "pth pickle: stack_global types".to_owned(),
            Fault::Memo { op } => {
                let mut s = "pth pickle: ".to_owned();
                s.append(op_text(*op));
                s
            },
            Fault::NoMark => "pth pickle: no mark".to_owned(),
            Fault::OddItems => "pth pickle: odd setitems".to_owned(),
            Fault::LongInt => "pth pickle: long1 of more than eight bytes".to_owned(),
            Fault::Opcode { op } => {
                let mut s = "pth pickle: unsupported opcode 0x".to_owned();
                s.append(hex_of(*op).as_str());
                s
            },
        }
    }
}

/// Why a checkpoint is refused.
#[derive(Debug, PartialEq, Eq)]
pub enum Refusal {
    /// It is not what a checkpoint is.
    Content(Fault),
    /// The storage of this key, which a tensor names, is not there.
    MissingStorage(String),
}

/// A refusal, with the key as its characters.
pub enum Reason {
    Content(Fault),
    MissingStorage(Seq<char>),
}

impl View for Refusal {
    type V = Reason;

    open spec fn view(&self) -> Reason {
        match self {
            Refusal::Content(f) => Reason::Content(*f),
            Refusal::MissingStorage(key) => Reason::MissingStorage(key@),
        }
    }
}

impl Reason {
    /// Why, in words.
    pub open spec fn text(self) -> Seq<char> {
        match self {
            Reason::Content(f) => f.text(),
            Reason::MissingStorage(key) => "pth: storage "@ + key + " missing"@,
        }
    }
}

impl Refusal {
    /// Why, in words.
    pub fn message(&self) -> (s: String)
        ensures
            s@ == self@.text(),
    {
        match self {
            Refusal::Content(f) => f.message(),
            Refusal::MissingStorage(key) => {
                let mut s = "pth: storage ".to_owned();
                s.append(key.as_str());
                s.append(" missing");
                s
            },
        }
    }
}

} // verus!

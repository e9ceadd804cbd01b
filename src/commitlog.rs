//! The entries of the write-ahead log: an opcode, the key and, for a put,
//! the value; each record in the log ends with the write's timestamp.
use vstd::prelude::*;
use core::cmp::Ordering;
use crate::codec::{compare_bytes, le64, push_u64_le, utf8};
use crate::utils::concat;

verus! {

/// The kind of a logged write.
#[derive(Debug, PartialEq, Eq, Clone, Copy)]
pub enum CommitLogCmd {
    Put,
    Delete,
}

impl CommitLogCmd {
    /// The opcode stored for the command.
    pub open spec fn opcode(self) -> u8 {
        match self {
            CommitLogCmd::Put => 1,
            CommitLogCmd::Delete => 2,
        }
    }
}

/// One logged write.
#[derive(Debug)]
pub struct CommitLogEntry {
    pub cmd: CommitLogCmd,
    pub key: String,
    pub value: Option<String>,
}

/// The bytes of an entry: `opcode | key_len | key`, then `value_len | value`
/// for a put.
pub open spec fn encode_entry(cmd: CommitLogCmd, key: Seq<char>, value: Seq<char>) -> Seq<u8> {
    let head = seq![cmd.opcode()] + le64(utf8(key).len() as u64) + utf8(key);
    match cmd {
        CommitLogCmd::Put => head + le64(utf8(value).len() as u64) + utf8(value),
        CommitLogCmd::Delete => head,
    }
}

pub open spec fn value_of(v: Option<String>) -> Seq<char> {
    match v {
        Some(s) => s@,
        None => Seq::empty(),
    }
}

/// The command a name stands for.
pub open spec fn cmd_named(cmd: Seq<char>) -> Option<CommitLogCmd> {
    if cmd == "PUT"@ {
        Some(CommitLogCmd::Put)
    } else if cmd == "DELETE"@ {
        Some(CommitLogCmd::Delete)
    } else {
        None
    }
}

impl CommitLogEntry {
    pub open spec fn wf(&self) -> bool {
        self.cmd == CommitLogCmd::Put ==> self.value is Some
    }

    /// An entry for command `cmd`, which is `"PUT"` (with a value) or
    /// `"DELETE"`.
    pub fn new(cmd: &str, key: &str, value: Option<&str>) -> (r: CommitLogEntry)
        requires
            cmd_named(cmd@) is Some,
            cmd_named(cmd@) == Some(CommitLogCmd::Put) ==> value is Some,
        ensures
            r.wf(),
            Some(r.cmd) == cmd_named(cmd@),
            r.key@ == key@,
            match value {
                Some(v) => r.value is Some && r.value->Some_0@ == v@,
                None => r.value is None,
            },
    {
        let is_put = match compare_bytes(cmd.as_bytes(), "PUT".as_bytes()) {
            Ordering::Equal => true,
            _ => false,
        };
        proof {
            if is_put {
                crate::codec::lemma_utf8_injective(cmd@, "PUT"@);
            }
        }
        let cmd = if is_put {
            CommitLogCmd::Put
        } else {
            CommitLogCmd::Delete
        };
        let value = match value {
            Some(v) => Some(v.to_owned()),
            None => None,
        };
        CommitLogEntry { cmd, key: key.to_owned(), value }
    }

    /// A readable form: `PUT <key> <value>` or `DELETE <key>`.
    pub fn to_string(&self) -> (r: String)
        requires
            self.wf(),
        ensures
            r@ == match self.cmd {
                CommitLogCmd::Put => "PUT "@ + self.key@ + " "@ + value_of(self.value),
                CommitLogCmd::Delete => "DELETE "@ + self.key@,
            },
    {
        match self.cmd {
            CommitLogCmd::Put => {
                let head = concat(concat("PUT ", self.key.as_str()).as_str(), " ");
                match &self.value {
                    Some(v) => concat(head.as_str(), v.as_str()),
                    None => head,
                }
            },
            CommitLogCmd::Delete => concat("DELETE ", self.key.as_str()),
        }
    }

    /// The bytes of this entry, without the timestamp.
    pub fn encode(&self) -> (r: Vec<u8>)
        requires
            self.wf(),
        ensures
            r@ == encode_entry(self.cmd, self.key@, value_of(self.value)),
    {
        let mut buf: Vec<u8> = Vec::new();
        let opcode: u8 = match self.cmd {
            CommitLogCmd::Put => 1,
            CommitLogCmd::Delete => 2,
        };
        buf.push(opcode);
        let kb = self.key.as_str().as_bytes();
        push_u64_le(&mut buf, kb.len() as u64);
        buf.extend_from_slice(kb);
        if let CommitLogCmd::Put = self.cmd {
            if let Some(v) = &self.value {
                let vb = v.as_str().as_bytes();
                push_u64_le(&mut buf, vb.len() as u64);
                buf.extend_from_slice(vb);
            }
        }
        assert(buf@ =~= encode_entry(self.cmd, self.key@, value_of(self.value)));
        buf
    }

    /// The record appended to the log for this entry written at `timestamp`.
    pub fn encode_with_timestamp(&self, timestamp: u64) -> (r: Vec<u8>)
        requires
            self.wf(),
        ensures
            r@ == encode_entry(self.cmd, self.key@, value_of(self.value)) + le64(timestamp),
    {
        let mut buf = self.encode();
        push_u64_le(&mut buf, timestamp);
        buf
    }
}

} // verus!

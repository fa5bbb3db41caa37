//! What is asked before something is done with a file.
use crate::error::{AppResult, ReasonCode};
use crate::fs::streams::{stream_name_ok, validate_stream_name};
use vstd::prelude::*;

verus! {

/// What is to be done with a file.
#[derive(Debug, Clone, Copy, PartialEq, Eq, Structural)]
pub enum FileOperation {
    Open { can_read: bool, can_write: bool },
    CreateDirectory,
    DeleteFile,
    RemoveDirectory,
    MoveFile,
    CopyFile,
    Exists,
    Metadata,
    EnumerateDirectory,
    ReadStream,
    WriteStream,
    DeleteStream,
    ListStreams,
}

/// A path of an operation.
#[derive(Debug, Clone, Copy, PartialEq, Eq, Structural)]
pub enum PathRole {
    /// The only path, or the one that is moved or copied.
    Subject,
    /// The path that is moved or copied to.
    Destination,
}

/// An access to a path, for which the sandbox profile is asked.
#[derive(Debug, Clone, Copy, PartialEq, Eq, Structural)]
pub struct Access {
    pub role: PathRole,
    pub write: bool,
}

/// The subject is read.
pub open spec fn reads_subject() -> Access {
    Access { role: PathRole::Subject, write: false }
}

/// The subject is written.
pub open spec fn writes_subject() -> Access {
    Access { role: PathRole::Subject, write: true }
}

/// The destination is written.
pub open spec fn writes_destination() -> Access {
    Access { role: PathRole::Destination, write: true }
}

/// The accesses of an operation, in the order in which they are asked for.
pub open spec fn accesses(operation: FileOperation) -> Seq<Access> {
    match operation {
        FileOperation::Open { can_read, can_write } => (if can_read {
            seq![reads_subject()]
        } else {
            Seq::empty()
        }) + (if can_write {
            seq![writes_subject()]
        } else {
            Seq::empty()
        }),
        FileOperation::CreateDirectory
        | FileOperation::DeleteFile
        | FileOperation::RemoveDirectory
        | FileOperation::WriteStream
        | FileOperation::DeleteStream => seq![writes_subject()],
        FileOperation::Exists
        | FileOperation::Metadata
        | FileOperation::EnumerateDirectory
        | FileOperation::ReadStream
        | FileOperation::ListStreams => seq![reads_subject()],
        FileOperation::MoveFile | FileOperation::CopyFile => seq![
            reads_subject(),
            writes_destination(),
        ],
    }
}

/// The operation is about a stream that is named.
pub open spec fn names_stream(operation: FileOperation) -> bool {
    operation == FileOperation::ReadStream || operation == FileOperation::WriteStream || operation
        == FileOperation::DeleteStream
}

/// The access to ask for after `granted` accesses have been granted; nothing
/// once the operation may go ahead.
pub fn next_access(operation: FileOperation, granted: usize) -> (access: Option<Access>)
    ensures
        access == (if granted < accesses(operation).len() {
            Some(accesses(operation)[granted as int])
        } else {
            None
        }),
{
    let reads = Access { role: PathRole::Subject, write: false };
    let writes = Access { role: PathRole::Subject, write: true };
    match operation {
        FileOperation::Open { can_read, can_write } => {
            if can_read && granted == 0 {
                Some(reads)
            } else if can_write && (granted == 0 || (can_read && granted == 1)) {
                Some(writes)
            } else {
                None
            }
        },
        FileOperation::CreateDirectory
        | FileOperation::DeleteFile
        | FileOperation::RemoveDirectory
        | FileOperation::WriteStream
        | FileOperation::DeleteStream => if granted == 0 {
            Some(writes)
        } else {
            None
        },
        FileOperation::Exists
        | FileOperation::Metadata
        | FileOperation::EnumerateDirectory
        | FileOperation::ReadStream
        | FileOperation::ListStreams => if granted == 0 {
            Some(reads)
        } else {
            None
        },
        FileOperation::MoveFile | FileOperation::CopyFile => if granted == 0 {
            Some(reads)
        } else if granted == 1 {
            Some(Access { role: PathRole::Destination, write: true })
        } else {
            None
        },
    }
}

/// Checks the name of the stream that an operation is about, before anything
/// is asked.
pub fn check_operation(operation: FileOperation, stream_name: &str) -> (outcome: AppResult<()>)
    ensures
        match outcome {
            Ok(()) => !names_stream(operation) || stream_name_ok(stream_name@),
            Err(error) => names_stream(operation) && !stream_name_ok(stream_name@) && error.code
                == ReasonCode::RcFsPathInvalid,
        },
{
    match operation {
        FileOperation::ReadStream | FileOperation::WriteStream | FileOperation::DeleteStream => {
            validate_stream_name(stream_name)
        },
        _ => Ok(()),
    }
}

/// Whether something is said to be there: only where it may be read and its
/// path leads somewhere.
pub fn is_there(permitted: bool, found: Option<bool>) -> (there: bool)
    ensures
        there == (permitted && found == Some(true)),
{
    match found {
        Some(present) => permitted && present,
        None => false,
    }
}

/// Whatever makes, fills or removes a path asks to write it, and whatever else
/// looks at one asks to read it. Moving a file asks to write its destination,
/// but of its source, which it takes away, only to read it. No operation goes
/// ahead without a question, but for opening a file neither to read nor to
/// write it.
pub proof fn lemma_every_operation_asks(operation: FileOperation)
    ensures
        accesses(operation).len() == 0 <==> operation == (FileOperation::Open {
            can_read: false,
            can_write: false,
        }),
        accesses(operation).len() <= 2,
        (operation == FileOperation::MoveFile || operation == FileOperation::CopyFile)
            ==> accesses(operation).contains(writes_destination()),
        (operation == FileOperation::CreateDirectory || operation == FileOperation::DeleteFile
            || operation == FileOperation::RemoveDirectory || operation
            == FileOperation::WriteStream || operation == FileOperation::DeleteStream || (
        operation matches FileOperation::Open { can_write, .. } && can_write))
            ==> accesses(operation).contains(writes_subject()),
{
    let list = accesses(operation);
    if list.len() > 0 {
        assert(list.contains(list.last()));
    }
}

/// Only what changes something asks to write, and only moving and copying ask
/// for two paths: to read the one and to write the other.
pub proof fn lemma_asks_no_more(operation: FileOperation, i: int)
    requires
        0 <= i < accesses(operation).len(),
    ensures
        accesses(operation)[i].write ==> !(operation == FileOperation::Exists || operation
            == FileOperation::Metadata || operation == FileOperation::EnumerateDirectory
            || operation == FileOperation::ReadStream || operation == FileOperation::ListStreams),
        accesses(operation)[i].role == PathRole::Destination <==> (operation
            == FileOperation::MoveFile || operation == FileOperation::CopyFile) && i == 1,
        operation == FileOperation::MoveFile || operation == FileOperation::CopyFile ==> (
        accesses(operation)[i].write <==> i == 1),
        operation matches FileOperation::Open { can_read, can_write } ==> {
            &&& accesses(operation)[i].write ==> can_write
            &&& !accesses(operation)[i].write ==> can_read
            &&& can_read && can_write ==> (accesses(operation)[i].write <==> i == 1)
        },
        operation == FileOperation::CreateDirectory || operation == FileOperation::DeleteFile
            || operation == FileOperation::RemoveDirectory || operation
            == FileOperation::WriteStream || operation == FileOperation::DeleteStream
            ==> accesses(operation).len() == 1 && accesses(operation)[i].write,
{
}

} // verus!

//! Loading a tree from a file that the user picked: what comes of each way
//! in which picking and reading can end.

use crate::read::{read_document, Failure};
use crate::tag::{Tag, TagError};
use vstd::prelude::*;

verus! {

/// How picking a file and reading its bytes ended.
#[derive(Debug, PartialEq, Eq)]
pub enum Picked {
    /// The user picked no file.
    Nothing,
    /// The file could not be opened.
    Unopened,
    /// The file was opened, and reading from it failed.
    Unread,
    /// The bytes of the document in the file.
    Bytes(Vec<u8>),
}

/// What the user is told of a failure of the codec.
pub open spec fn failure_message(failure: Failure) -> Seq<char> {
    match failure {
        Failure::InvalidType => "Invalid tag type encountered"@,
        Failure::InvalidUtf8(_) => "Invalid string encountered"@,
        Failure::IoError => "Reading data from file"@,
    }
}

/// What the user is told of a failure of the codec.
pub fn message(error: &TagError) -> (text: String)
    ensures
        text@ == failure_message(error@),
{
    match error {
        TagError::InvalidType => "Invalid tag type encountered".to_owned(),
        TagError::InvalidUtf8(_) => "Invalid string encountered".to_owned(),
        TagError::IoError => "Reading data from file".to_owned(),
    }
}

/// The tree of the file that was picked, or why there is none. No message
/// means that the user picked no file, which is no failure.
pub fn load_file(picked: Picked) -> (loaded: Result<Tag, Option<String>>)
    ensures
        match picked {
            Picked::Nothing => loaded == Err::<Tag, Option<String>>(None),
            Picked::Unopened => loaded matches Err(Some(text)) && text@ == "Reading file"@,
            Picked::Unread => loaded matches Err(Some(text)) && text@
                == "Reading data from file"@,
            Picked::Bytes(bytes) => match read_document(bytes@) {
                Ok(tree) => loaded matches Ok(tag) && tag@ == tree,
                Err(failure) => loaded matches Err(Some(text)) && text@ == failure_message(
                    failure,
                ),
            },
        },
{
    match picked {
        Picked::Nothing => Err(None),
        Picked::Unopened => Err(Some("Reading file".to_owned())),
        Picked::Unread => Err(Some("Reading data from file".to_owned())),
        Picked::Bytes(bytes) => match Tag::read(bytes.as_slice()) {
            Ok(tag) => Ok(tag),
            Err(error) => Err(Some(message(&error))),
        },
    }
}

} // verus!

//! The shared document and the edits applied to it.
//!
//! The document is a text and a version. An edit names the version it was
//! computed against; it is applied only while that version is still current,
//! and every applied edit moves the version on by one. Positions and lengths
//! count bytes of the text's UTF-8 encoding and must fall between characters.

use crate::text::{
    is_boundary, lemma_boundary_in_range, lemma_encode_injective, lemma_replace_bytes_encoding,
    replace_bytes, splice,
};
use vstd::prelude::*;
use vstd::utf8::*;

verus! {

/// Why an edit was turned down. A rejected edit leaves the document untouched.
#[derive(Clone, Copy, Debug, PartialEq, Eq, Structural)]
pub enum ErrorKind {
    /// The edit was computed against a version that is not the current one.
    VersionMismatch,
    /// The insert position is past the end or inside a multi-byte character.
    InvalidInsertPosition,
    /// An end of the delete range is past the end or inside a multi-byte character.
    InvalidDeleteRange,
}

impl ErrorKind {
    /// The text of [`ErrorKind::message`].
    pub open spec fn message_text(self) -> Seq<char> {
        match self {
            ErrorKind::VersionMismatch => "Version mismatch"@,
            ErrorKind::InvalidInsertPosition => "Insert position is not a valid UTF-8 boundary."@,
            ErrorKind::InvalidDeleteRange => "Delete range is not valid UTF-8 boundaries."@,
        }
    }

    /// A sentence for logs and for the user.
    pub fn message(&self) -> (text: &'static str)
        ensures
            text@ == self.message_text(),
    {
        match self {
            ErrorKind::VersionMismatch => "Version mismatch",
            ErrorKind::InvalidInsertPosition => "Insert position is not a valid UTF-8 boundary.",
            ErrorKind::InvalidDeleteRange => "Delete range is not valid UTF-8 boundaries.",
        }
    }
}

/// One operation on the document: insert `insert` at byte `position`, or
/// remove `delete` bytes from there on. `version` is the document version the
/// sender had seen. Where both are given the insert counts and the delete is
/// ignored.
#[derive(Debug, PartialEq)]
pub struct Edit {
    pub position: usize,
    pub insert: Option<String>,
    pub delete: Option<usize>,
    pub version: usize,
}

/// An [`Edit`] as plain values.
pub struct EditView {
    pub position: nat,
    pub insert: Option<Seq<char>>,
    pub delete: Option<nat>,
    pub version: nat,
}

impl View for Edit {
    type V = EditView;

    open spec fn view(&self) -> EditView {
        EditView {
            position: self.position as nat,
            insert: match self.insert {
                Some(text) => Some(text@),
                None => None,
            },
            delete: match self.delete {
                Some(count) => Some(count as nat),
                None => None,
            },
            version: self.version as nat,
        }
    }
}

/// The single source of truth: the text and the number of edits applied to it.
pub struct DocumentState {
    pub content: String,
    pub version: usize,
}

/// A [`DocumentState`] as plain values.
pub struct DocumentView {
    pub content: Seq<char>,
    pub version: nat,
}

impl View for DocumentState {
    type V = DocumentView;

    open spec fn view(&self) -> DocumentView {
        DocumentView { content: self.content@, version: self.version as nat }
    }
}

/// What an accepted edit does to the text: the insert goes in at `position`,
/// or else `delete` bytes go out from there on; an edit with neither leaves
/// the text as it is.
pub open spec fn edited_text(content: Seq<char>, edit: EditView) -> Seq<char> {
    match edit.insert {
        Some(piece) => replace_bytes(content, edit.position as int, edit.position as int, piece),
        None => match edit.delete {
            Some(count) => replace_bytes(
                content,
                edit.position as int,
                (edit.position + count) as int,
                Seq::empty(),
            ),
            None => content,
        },
    }
}

impl DocumentView {
    /// The first reason to turn the edit down, if there is one. The version is
    /// looked at first, then the place of the insert, or else the two ends of
    /// the delete.
    pub open spec fn rejection(self, edit: EditView) -> Option<ErrorKind> {
        if edit.version != self.version {
            Some(ErrorKind::VersionMismatch)
        } else {
            match edit.insert {
                Some(_) => if is_boundary(self.content, edit.position as int) {
                    None
                } else {
                    Some(ErrorKind::InvalidInsertPosition)
                },
                None => match edit.delete {
                    Some(count) => if is_boundary(self.content, edit.position as int)
                        && is_boundary(self.content, (edit.position + count) as int) {
                        None
                    } else {
                        Some(ErrorKind::InvalidDeleteRange)
                    },
                    None => None,
                },
            }
        }
    }

    /// The document after the edit, or the reason why it stays as it is.
    pub open spec fn apply(self, edit: EditView) -> Result<DocumentView, ErrorKind> {
        match self.rejection(edit) {
            Some(kind) => Err(kind),
            None => Ok(
                DocumentView { content: edited_text(self.content, edit), version: self.version + 1 },
            ),
        }
    }
}

/// `String::insert_str`: puts the bytes of `piece` into `text` at byte `idx`
/// and moves what stood there back. It panics unless `idx` is a character
/// boundary of `text`, so that is asked of the caller.
#[verifier::external_body]
fn insert_str(text: &mut String, idx: usize, piece: &str)
    requires
        is_boundary(old(text)@, idx as int),
    ensures
        encode_utf8(final(text)@) == splice(
            encode_utf8(old(text)@),
            idx as int,
            idx as int,
            encode_utf8(piece@),
        ),
{
    text.insert_str(idx, piece);
}

/// `String::replace_range` on `start..end`: takes the bytes `start..end` out
/// of `text` and puts the bytes of `with` in their place. It panics unless
/// both ends are character boundaries of `text` and `start <= end`, so that is
/// asked of the caller.
#[verifier::external_body]
fn replace_range(text: &mut String, start: usize, end: usize, with: &str)
    requires
        start <= end,
        is_boundary(old(text)@, start as int),
        is_boundary(old(text)@, end as int),
    ensures
        encode_utf8(final(text)@) == splice(
            encode_utf8(old(text)@),
            start as int,
            end as int,
            encode_utf8(with@),
        ),
{
    text.replace_range(start..end, with);
}

impl DocumentState {
    /// The empty document at version 0.
    pub fn new() -> (doc: DocumentState)
        ensures
            doc@ == (DocumentView { content: Seq::empty(), version: 0 }),
    {
        DocumentState { content: String::new(), version: 0 }
    }

    /// Applies `edit` if it was computed against the current version and its
    /// position, or range, lies on character boundaries of the text; the
    /// version then goes up by one. Otherwise nothing changes and the reason
    /// comes back.
    pub fn apply_edit(&mut self, edit: &Edit) -> (result: Result<(), ErrorKind>)
        requires
            old(self).version < usize::MAX,
        ensures
            match old(self)@.apply(edit@) {
                Ok(next) => result is Ok && final(self)@ == next,
                Err(kind) => result == Err::<(), ErrorKind>(kind) && *final(self) == *old(self),
            },
            edit.version != old(self).version ==> result == Err::<(), ErrorKind>(
                ErrorKind::VersionMismatch,
            ),
            result is Ok ==> final(self).version == old(self).version + 1,
            result is Err ==> *final(self) == *old(self),
    {
        if edit.version != self.version {
            return Err(ErrorKind::VersionMismatch);
        }
        match &edit.insert {
            Some(piece) => {
                if !self.content.as_str().is_char_boundary(edit.position) {
                    return Err(ErrorKind::InvalidInsertPosition);
                }
                insert_str(&mut self.content, edit.position, piece.as_str());
                proof {
                    lemma_replace_bytes_encoding(
                        old(self).content@,
                        edit.position as int,
                        edit.position as int,
                        piece@,
                    );
                    lemma_encode_injective(self.content@, edited_text(old(self).content@, edit@));
                }
            },
            None => match edit.delete {
                Some(count) => {
                    let len = self.content.as_str().as_bytes().len();
                    let end = match edit.position.checked_add(count) {
                        Some(end) => end,
                        None => {
                            proof {
                                if is_boundary(self.content@, edit.position + count) {
                                    lemma_boundary_in_range(self.content@, edit.position + count);
                                }
                            }
                            return Err(ErrorKind::InvalidDeleteRange);
                        },
                    };
                    if !self.content.as_str().is_char_boundary(edit.position)
                        || !self.content.as_str().is_char_boundary(end) {
                        return Err(ErrorKind::InvalidDeleteRange);
                    }
                    replace_range(&mut self.content, edit.position, end, "");
                    proof {
                        reveal_strlit("");
                        assert(""@ =~= Seq::<char>::empty());
                        lemma_replace_bytes_encoding(
                            old(self).content@,
                            edit.position as int,
                            end as int,
                            Seq::empty(),
                        );
                        lemma_encode_injective(self.content@, edited_text(old(self).content@, edit@));
                    }
                },
                None => {},
            },
        }
        self.version = self.version + 1;
        Ok(())
    }
}

impl Default for DocumentState {
    fn default() -> (doc: DocumentState)
        ensures
            doc@ == (DocumentView { content: Seq::empty(), version: 0 }),
    {
        DocumentState::new()
    }
}

} // verus!

//! What holds of a document over a whole run of edits.
//!
//! The statements here are about the model that [`DocumentState::apply_edit`]
//! is specified by: each is proved of every document and every edit, not of
//! chosen ones.
//!
//! [`DocumentState::apply_edit`]: crate::document::DocumentState::apply_edit

use crate::document::{edited_text, DocumentView, EditView, ErrorKind};
use crate::text::{
    is_boundary, lemma_replace_bytes_chars, lemma_replace_bytes_encoding, splice, text_before,
    text_from,
};
use vstd::prelude::*;
use vstd::utf8::*;

verus! {

/// `offset` points into the middle of a character of `text`: at a byte of the
/// encoding that continues a character begun earlier.
pub open spec fn splits_character(text: Seq<char>, offset: int) -> bool {
    0 <= offset < encode_utf8(text).len() && is_continuation_byte(encode_utf8(text)[offset])
}

/// The document after `edit` was offered to it: a rejected edit leaves it as
/// it was.
pub open spec fn after(doc: DocumentView, edit: EditView) -> DocumentView {
    match doc.apply(edit) {
        Ok(next) => next,
        Err(_) => doc,
    }
}

/// The document after the edits were offered to it one at a time, in order.
pub open spec fn replay(doc: DocumentView, edits: Seq<EditView>) -> DocumentView
    decreases edits.len(),
{
    if edits.len() == 0 {
        doc
    } else {
        after(replay(doc, edits.drop_last()), edits.last())
    }
}

/// How many of the edits were accepted on the way.
pub open spec fn accepted_count(doc: DocumentView, edits: Seq<EditView>) -> nat
    decreases edits.len(),
{
    if edits.len() == 0 {
        0
    } else {
        let before = accepted_count(doc, edits.drop_last());
        if replay(doc, edits.drop_last()).apply(edits.last()) is Ok {
            before + 1
        } else {
            before
        }
    }
}

/// Every edit of the run was accepted by the document it met.
pub open spec fn all_accepted(doc: DocumentView, edits: Seq<EditView>) -> bool {
    forall|i: int|
        0 <= i < edits.len() ==> (#[trigger] replay(doc, edits.take(i))).apply(edits[i]) is Ok
}

/// The edits' effects on a text, composed from left to right.
pub open spec fn compose(content: Seq<char>, edits: Seq<EditView>) -> Seq<char>
    decreases edits.len(),
{
    if edits.len() == 0 {
        content
    } else {
        edited_text(compose(content, edits.drop_last()), edits.last())
    }
}

/// A place is a boundary exactly when it lies within the text and does not
/// split a character.
pub proof fn lemma_boundary_iff_splits_nothing(text: Seq<char>, offset: int)
    ensures
        is_boundary(text, offset) <==> 0 <= offset <= encode_utf8(text).len() && !splits_character(
            text,
            offset,
        ),
{
    let bytes = encode_utf8(text);
    encode_utf8_valid_utf8(text);
    if 0 <= offset < bytes.len() {
        is_char_boundary_iff_not_is_continuation_byte(bytes, offset);
    } else if offset == bytes.len() {
        is_char_boundary_start_end_of_seq(bytes);
    }
}

/// An edit computed against another version than the current one is turned
/// down as a version mismatch, whatever else it holds, and the document after
/// it is the document before it.
pub proof fn lemma_stale_edit_rejected(doc: DocumentView, edit: EditView)
    requires
        edit.version != doc.version,
    ensures
        doc.apply(edit) == Err::<DocumentView, ErrorKind>(ErrorKind::VersionMismatch),
        after(doc, edit) == doc,
{
}

/// An insert at a place that splits a character, or that lies past the end,
/// is turned down as an invalid insert position.
pub proof fn lemma_insert_off_boundary_rejected(doc: DocumentView, edit: EditView)
    requires
        edit.version == doc.version,
        edit.insert is Some,
        splits_character(doc.content, edit.position as int) || edit.position > encode_utf8(
            doc.content,
        ).len(),
    ensures
        doc.apply(edit) == Err::<DocumentView, ErrorKind>(ErrorKind::InvalidInsertPosition),
        after(doc, edit) == doc,
{
    lemma_boundary_iff_splits_nothing(doc.content, edit.position as int);
}

/// A delete whose start or end splits a character, or reaches past the end,
/// is turned down as an invalid delete range.
pub proof fn lemma_delete_off_boundary_rejected(doc: DocumentView, edit: EditView)
    requires
        edit.version == doc.version,
        edit.insert is None,
        edit.delete is Some,
        splits_character(doc.content, edit.position as int) || splits_character(
            doc.content,
            (edit.position + edit.delete->0) as int,
        ) || edit.position + edit.delete->0 > encode_utf8(doc.content).len(),
    ensures
        doc.apply(edit) == Err::<DocumentView, ErrorKind>(ErrorKind::InvalidDeleteRange),
        after(doc, edit) == doc,
{
    lemma_boundary_iff_splits_nothing(doc.content, edit.position as int);
    lemma_boundary_iff_splits_nothing(doc.content, (edit.position + edit.delete->0) as int);
}

/// An accepted edit moves the version on by exactly one and leaves whole
/// text: the encoding of the new text is the old encoding with the edit's
/// bytes spliced in or out, and it is valid UTF-8. Read as characters, an
/// insert puts its text between what stood before the position and what stood
/// from there on, and a delete joins what stood before its start to what stood
/// from its end on.
pub proof fn lemma_accepted_edit_keeps_text_whole(doc: DocumentView, edit: EditView)
    requires
        doc.apply(edit) is Ok,
    ensures
        after(doc, edit).version == doc.version + 1,
        valid_utf8(encode_utf8(after(doc, edit).content)),
        edit.insert matches Some(piece) ==> encode_utf8(after(doc, edit).content) == splice(
            encode_utf8(doc.content),
            edit.position as int,
            edit.position as int,
            encode_utf8(piece),
        ),
        edit.insert is None ==> (edit.delete matches Some(count) ==> encode_utf8(
            after(doc, edit).content,
        ) == splice(
            encode_utf8(doc.content),
            edit.position as int,
            (edit.position + count) as int,
            Seq::empty(),
        )),
        edit.insert is None && edit.delete is None ==> after(doc, edit).content == doc.content,
        edit.insert matches Some(piece) ==> after(doc, edit).content == text_before(
            doc.content,
            edit.position as int,
        ) + piece + text_from(doc.content, edit.position as int),
        edit.insert is None ==> (edit.delete matches Some(count) ==> after(doc, edit).content
            == text_before(doc.content, edit.position as int) + text_from(
            doc.content,
            (edit.position + count) as int,
        )),
{
    encode_utf8_valid_utf8(after(doc, edit).content);
    match edit.insert {
        Some(piece) => {
            lemma_replace_bytes_chars(
                doc.content,
                edit.position as int,
                edit.position as int,
                piece,
            );
            lemma_replace_bytes_encoding(
                doc.content,
                edit.position as int,
                edit.position as int,
                piece,
            );
        },
        None => match edit.delete {
            Some(count) => {
                lemma_replace_bytes_encoding(
                    doc.content,
                    edit.position as int,
                    (edit.position + count) as int,
                    Seq::empty(),
                );
                lemma_replace_bytes_chars(
                    doc.content,
                    edit.position as int,
                    (edit.position + count) as int,
                    Seq::empty(),
                );
                assert(text_before(doc.content, edit.position as int) + Seq::<char>::empty()
                    =~= text_before(doc.content, edit.position as int));
            },
            None => {},
        },
    }
}

/// Of two edits computed against the same version, the one that comes after
/// an accepted one is turned down as a version mismatch.
pub proof fn lemma_later_of_two_rejected(doc: DocumentView, first: EditView, second: EditView)
    requires
        first.version == second.version,
        doc.apply(first) is Ok,
    ensures
        after(doc, first).apply(second) == Err::<DocumentView, ErrorKind>(
            ErrorKind::VersionMismatch,
        ),
        after(after(doc, first), second) == after(doc, first),
{
}

/// Over any run of edits the version goes up by the number of edits that were
/// accepted, no more and no less.
pub proof fn lemma_version_counts_accepted(doc: DocumentView, edits: Seq<EditView>)
    ensures
        replay(doc, edits).version == doc.version + accepted_count(doc, edits),
    decreases edits.len(),
{
    if edits.len() > 0 {
        lemma_version_counts_accepted(doc, edits.drop_last());
    }
}

/// Where each of `n` edits in a row is accepted, each was computed against
/// the version that the ones before it had led to, the version ends `n` above
/// where it began, and the text is the left-to-right composition of the edits.
pub proof fn lemma_replay_of_accepted(doc: DocumentView, edits: Seq<EditView>)
    requires
        all_accepted(doc, edits),
    ensures
        forall|i: int| 0 <= i < edits.len() ==> (#[trigger] edits[i]).version == doc.version + i,
        accepted_count(doc, edits) == edits.len(),
        replay(doc, edits).version == doc.version + edits.len(),
        replay(doc, edits).content == compose(doc.content, edits),
    decreases edits.len(),
{
    if edits.len() > 0 {
        let front = edits.drop_last();
        assert forall|i: int| 0 <= i < front.len() implies (#[trigger] replay(
            doc,
            front.take(i),
        )).apply(front[i]) is Ok by {
            assert(front.take(i) =~= edits.take(i));
            assert(replay(doc, edits.take(i)).apply(edits[i]) is Ok);
        }
        lemma_replay_of_accepted(doc, front);
        assert(edits.take(edits.len() - 1) =~= front);
        assert(replay(doc, edits.take(edits.len() - 1)).apply(edits[edits.len() - 1]) is Ok);
        assert forall|i: int| 0 <= i < edits.len() implies (#[trigger] edits[i]).version
            == doc.version + i by {
            if i < front.len() {
                assert(front[i] == edits[i]);
            }
        }
    }
}

} // verus!

//! One connection from handshake to close, and what a received frame leads to.
//!
//! The transport reads frames and decodes them; what is decided about them is
//! decided here. A connection is `Connecting` until its handshake is done,
//! `Active` while its two loops run, and `Closed` for good once either ends.

use crate::document::{DocumentState, DocumentView, Edit, EditView, ErrorKind};
use crate::history::after;
use crate::registry::{lemma_fan_out, reaches_exactly, Recipient};
use crate::text::str_eq;
use vstd::prelude::*;

verus! {

/// Where a connection stands.
#[derive(Clone, Copy, Debug, PartialEq, Eq, Structural)]
pub enum ConnectionState {
    /// Accepted, handshake not yet done. Not registered.
    Connecting,
    /// Handshake done: registered, both loops running.
    Active,
    /// Over. Not registered.
    Closed,
}

/// What can happen to a connection.
#[derive(Clone, Copy, Debug, PartialEq, Eq, Structural)]
pub enum ConnectionEvent {
    /// The protocol upgrade went through.
    HandshakeCompleted,
    /// The protocol upgrade was refused or broke off.
    HandshakeFailed,
    /// The inbound loop ended: the peer closed the stream, or reading failed.
    InboundEnded,
    /// The outbound loop ended: writing to the socket failed, or the queue
    /// was closed.
    OutboundEnded,
}

/// What the handler has to do on an event.
#[derive(Clone, Copy, Debug, PartialEq, Eq, Structural)]
pub enum ConnectionAction {
    /// Register the session and queue the initial state for it.
    Open,
    /// Stop the other loop, deregister the session and let go of the socket.
    Close,
    /// Nothing.
    Nothing,
}

impl ConnectionState {
    /// The state after `event`, and what is to be done on the way.
    pub open spec fn step(self, event: ConnectionEvent) -> (ConnectionState, ConnectionAction) {
        match (self, event) {
            (ConnectionState::Connecting, ConnectionEvent::HandshakeCompleted) => (
                ConnectionState::Active,
                ConnectionAction::Open,
            ),
            (ConnectionState::Connecting, ConnectionEvent::HandshakeFailed) => (
                ConnectionState::Closed,
                ConnectionAction::Nothing,
            ),
            (ConnectionState::Active, ConnectionEvent::InboundEnded) => (
                ConnectionState::Closed,
                ConnectionAction::Close,
            ),
            (ConnectionState::Active, ConnectionEvent::OutboundEnded) => (
                ConnectionState::Closed,
                ConnectionAction::Close,
            ),
            _ => (self, ConnectionAction::Nothing),
        }
    }

    /// Takes the connection through `event`. A handshake that fails closes
    /// the connection before it was ever registered; the end of either loop
    /// closes an active one; an event that does not fit the state changes
    /// nothing.
    pub fn on_event(self, event: ConnectionEvent) -> (next: (ConnectionState, ConnectionAction))
        ensures
            next == self.step(event),
    {
        match self {
            ConnectionState::Connecting => match event {
                ConnectionEvent::HandshakeCompleted => (
                    ConnectionState::Active,
                    ConnectionAction::Open,
                ),
                ConnectionEvent::HandshakeFailed => (
                    ConnectionState::Closed,
                    ConnectionAction::Nothing,
                ),
                _ => (self, ConnectionAction::Nothing),
            },
            ConnectionState::Active => match event {
                ConnectionEvent::InboundEnded => (ConnectionState::Closed, ConnectionAction::Close),
                ConnectionEvent::OutboundEnded => (
                    ConnectionState::Closed,
                    ConnectionAction::Close,
                ),
                _ => (self, ConnectionAction::Nothing),
            },
            ConnectionState::Closed => (self, ConnectionAction::Nothing),
        }
    }
}

/// Whether the session is registered once `action` has been carried out.
pub open spec fn registered_after(registered: bool, action: ConnectionAction) -> bool {
    match action {
        ConnectionAction::Open => true,
        ConnectionAction::Close => false,
        ConnectionAction::Nothing => registered,
    }
}

/// A connection's state, and whether it is registered, after a run of events
/// that began with the connection accepted and not registered.
pub open spec fn lifecycle(events: Seq<ConnectionEvent>) -> (ConnectionState, bool)
    decreases events.len(),
{
    if events.len() == 0 {
        (ConnectionState::Connecting, false)
    } else {
        let (state, registered) = lifecycle(events.drop_last());
        let (next, action) = state.step(events.last());
        (next, registered_after(registered, action))
    }
}

/// Whatever happens to a connection, and in whatever order, it is registered
/// exactly while it is active.
pub proof fn lemma_registered_iff_active(events: Seq<ConnectionEvent>)
    ensures
        lifecycle(events).1 <==> lifecycle(events).0 == ConnectionState::Active,
    decreases events.len(),
{
    if events.len() > 0 {
        lemma_registered_iff_active(events.drop_last());
    }
}

/// A closed connection stays closed, and nothing more is done for it.
pub proof fn lemma_closed_is_final(event: ConnectionEvent)
    ensures
        ConnectionState::Closed.step(event) == (ConnectionState::Closed, ConnectionAction::Nothing),
{
}

/// What the server sends to a client.
#[derive(Debug, PartialEq)]
pub enum ServerMessage {
    /// The whole document, sent once when the session opens.
    Initial { content: String, version: usize },
    /// An edit that was applied, stamped with the version it led to.
    Edit(Edit),
}

impl ServerMessage {
    /// The text of [`ServerMessage::kind`].
    pub open spec fn kind_text(self) -> Seq<char> {
        match self {
            ServerMessage::Initial { .. } => "initial"@,
            ServerMessage::Edit(_) => "edit"@,
        }
    }

    /// The tag that tells the two shapes apart on the wire.
    pub fn kind(&self) -> (tag: &'static str)
        ensures
            tag@ == self.kind_text(),
    {
        match self {
            ServerMessage::Initial { .. } => "initial",
            ServerMessage::Edit(_) => "edit",
        }
    }
}

/// What a received frame turned out to hold, once the transport and the
/// decoder are done with it.
#[derive(Debug, PartialEq)]
pub enum Inbound {
    /// A frame that is not text.
    NotText,
    /// Text that is no message at all.
    Malformed,
    /// A message: its tag, where it has one, and the edit it carries, where
    /// what it carries has the shape of an edit.
    Message { kind: Option<String>, edit: Option<Edit> },
}

/// Why a frame was passed over.
#[derive(Clone, Copy, Debug, PartialEq, Eq, Structural)]
pub enum Ignored {
    /// It was not a text frame.
    NotText,
    /// It was not a message.
    Malformed,
    /// Its tag is not the one of an edit, or it has none.
    UnknownKind,
    /// It is tagged as an edit, but what it carries is no edit.
    BadEdit,
}

/// What the server does about a received frame.
#[derive(Debug, PartialEq)]
pub enum Reaction {
    /// Nothing, but for a line in the log. The connection stays open.
    Ignored(Ignored),
    /// The edit was turned down and dropped. The connection stays open and
    /// the sender is not told.
    Rejected(ErrorKind),
    /// The edit was applied. The edit held here, stamped with the new
    /// version, goes to every other session.
    Relay(Edit),
}

/// `edit` as it is announced: the same operation, under the version that
/// applying it led to.
pub open spec fn announced(edit: EditView, version: nat) -> EditView {
    EditView { position: edit.position, insert: edit.insert, delete: edit.delete, version }
}

impl Inbound {
    /// The edit that the frame submits, or the reason to pass the frame over.
    pub open spec fn submission(self) -> Result<EditView, Ignored> {
        match self {
            Inbound::NotText => Err(Ignored::NotText),
            Inbound::Malformed => Err(Ignored::Malformed),
            Inbound::Message { kind, edit } => {
                if kind matches Some(tag) && tag@ == "edit"@ {
                    match edit {
                        Some(edit) => Ok(edit@),
                        None => Err(Ignored::BadEdit),
                    }
                } else {
                    Err(Ignored::UnknownKind)
                }
            },
        }
    }
}

/// The document and the reaction that a frame leads to.
pub open spec fn reaction_to(doc: DocumentView, inbound: Inbound) -> (DocumentView, ReactionView) {
    match inbound.submission() {
        Err(why) => (doc, ReactionView::Ignored(why)),
        Ok(edit) => match doc.apply(edit) {
            Err(kind) => (doc, ReactionView::Rejected(kind)),
            Ok(next) => (next, ReactionView::Relay(announced(edit, next.version))),
        },
    }
}

/// A [`Reaction`] as plain values.
pub enum ReactionView {
    Ignored(Ignored),
    Rejected(ErrorKind),
    Relay(EditView),
}

impl View for Reaction {
    type V = ReactionView;

    open spec fn view(&self) -> ReactionView {
        match self {
            Reaction::Ignored(why) => ReactionView::Ignored(*why),
            Reaction::Rejected(kind) => ReactionView::Rejected(*kind),
            Reaction::Relay(edit) => ReactionView::Relay(edit@),
        }
    }
}

/// The whole document as a message for a session that has just opened.
pub fn initial_sync(doc: &DocumentState) -> (message: ServerMessage)
    ensures
        message == (ServerMessage::Initial { content: doc.content, version: doc.version }),
{
    ServerMessage::Initial { content: doc.content.clone(), version: doc.version }
}

/// Decides what a received frame leads to, and applies the edit it submits
/// if it submits one that the document accepts.
///
/// A frame that is not text, not a message, not tagged as an edit or not
/// carrying one is passed over. An edit that the document turns down is
/// dropped with the reason. In both cases the document is left as it was. An
/// edit that is accepted comes back for the other sessions, with the version
/// it led to in place of the one it came with.
pub fn receive(doc: &mut DocumentState, inbound: Inbound) -> (reaction: Reaction)
    requires
        old(doc).version < usize::MAX,
    ensures
        (final(doc)@, reaction@) == reaction_to(old(doc)@, inbound),
        !(reaction is Relay) ==> *final(doc) == *old(doc),
{
    let (kind, edit) = match inbound {
        Inbound::NotText => {
            return Reaction::Ignored(Ignored::NotText);
        },
        Inbound::Malformed => {
            return Reaction::Ignored(Ignored::Malformed);
        },
        Inbound::Message { kind, edit } => (kind, edit),
    };
    let tagged_edit = match &kind {
        Some(tag) => str_eq(tag.as_str(), "edit"),
        None => false,
    };
    if !tagged_edit {
        return Reaction::Ignored(Ignored::UnknownKind);
    }
    let edit = match edit {
        Some(edit) => edit,
        None => {
            return Reaction::Ignored(Ignored::BadEdit);
        },
    };
    match doc.apply_edit(&edit) {
        Ok(()) => Reaction::Relay(
            Edit {
                position: edit.position,
                insert: edit.insert,
                delete: edit.delete,
                version: doc.version,
            },
        ),
        Err(kind) => Reaction::Rejected(kind),
    }
}

/// The tag under which an edit is announced is the tag by which a received
/// message is taken for an edit: a message made of that tag and an edit
/// submits exactly that edit. This says nothing of the JSON text in between.
pub proof fn lemma_edit_tag_is_read_back(edit: Edit, kind: String)
    requires
        kind@ == ServerMessage::Edit(edit).kind_text(),
    ensures
        (Inbound::Message { kind: Some(kind), edit: Some(edit) }).submission() == Ok::<
            EditView,
            Ignored,
        >(edit@),
{
}

/// An accepted edit from one of `n` registered sessions is announced `n - 1`
/// times: once to each other session and not to its sender, and what is
/// announced carries the version that the edit led to.
pub proof fn lemma_accepted_edit_fans_out<T>(
    doc: DocumentView,
    inbound: Inbound,
    registry: Map<Seq<char>, T>,
    sender: Seq<char>,
    recipients: Seq<Recipient<'_, T>>,
)
    requires
        reaction_to(doc, inbound).1 is Relay,
        registry.dom().finite(),
        registry.contains_key(sender),
        reaches_exactly(recipients, registry.remove(sender)),
    ensures
        recipients.len() == registry.len() - 1,
        forall|i: int| 0 <= i < recipients.len() ==> (#[trigger] recipients[i]).id@ != sender,
        forall|id: Seq<char>|
            registry.contains_key(id) && id != sender ==> exists|i: int|
                0 <= i < recipients.len() && (#[trigger] recipients[i]).id@ == id,
        reaction_to(doc, inbound).1->Relay_0.version == doc.version + 1,
        reaction_to(doc, inbound).1->Relay_0.version == reaction_to(doc, inbound).0.version,
        reaction_to(doc, inbound).0 == after(doc, inbound.submission()->Ok_0),
{
    lemma_fan_out(recipients, registry, sender);
}

} // verus!

//! The sessions that are connected, and who is told of an edit.
//!
//! The registry maps the identity of each live connection to the handle by
//! which messages reach it. The library never looks inside a handle: it is
//! whatever the transport uses to queue a message for one peer.

use crate::text::str_eq;
use vstd::prelude::*;

verus! {

/// One live connection.
struct Session<T> {
    id: String,
    sender: T,
}

/// The live connections by identity. As a value it is a finite map from
/// identity to handle.
pub struct SessionRegistry<T> {
    entries: Vec<Session<T>>,
}

/// One peer that a message is to be handed to.
pub struct Recipient<'a, T> {
    pub id: &'a str,
    pub sender: &'a T,
}

/// The recipients are the sessions of `targets`, each of them once, each with
/// its own handle.
pub open spec fn reaches_exactly<T>(
    recipients: Seq<Recipient<'_, T>>,
    targets: Map<Seq<char>, T>,
) -> bool {
    &&& forall|i: int|
        0 <= i < recipients.len() ==> targets.contains_key((#[trigger] recipients[i]).id@)
            && targets[recipients[i].id@] == *recipients[i].sender
    &&& forall|i: int, j: int|
        0 <= i < j < recipients.len() ==> (#[trigger] recipients[i]).id@ != (
        #[trigger] recipients[j]).id@
    &&& forall|id: Seq<char>| #[trigger]
        targets.contains_key(id) ==> exists|i: int|
            0 <= i < recipients.len() && (#[trigger] recipients[i]).id@ == id
}

/// No identity is held twice.
spec fn distinct<T>(entries: Seq<Session<T>>) -> bool {
    forall|i: int, j: int|
        0 <= i < j < entries.len() ==> (#[trigger] entries[i]).id@ != (#[trigger] entries[j]).id@
}

/// Entry `i` is the session of `id`.
spec fn holds_at<T>(entries: Seq<Session<T>>, id: Seq<char>, i: int) -> bool {
    0 <= i < entries.len() && entries[i].id@ == id
}

/// The entries as a map from identity to handle.
spec fn map_of<T>(entries: Seq<Session<T>>) -> Map<Seq<char>, T> {
    Map::new(
        |id: Seq<char>| exists|i: int| holds_at(entries, id, i),
        |id: Seq<char>| entries[choose|i: int| holds_at(entries, id, i)].sender,
    )
}

/// Each entry shows in the map, under its identity and with its handle.
proof fn lemma_entry_in_map<T>(entries: Seq<Session<T>>, i: int)
    requires
        distinct(entries),
        0 <= i < entries.len(),
    ensures
        map_of(entries).contains_key(entries[i].id@),
        map_of(entries)[entries[i].id@] == entries[i].sender,
{
    let id = entries[i].id@;
    assert(holds_at(entries, id, i));
    let k = choose|k: int| holds_at(entries, id, k);
    assert(holds_at(entries, id, k));
    assert(k == i);
}

/// What is in the map stands at some entry.
proof fn lemma_key_has_entry<T>(entries: Seq<Session<T>>, id: Seq<char>) -> (i: int)
    requires
        map_of(entries).contains_key(id),
    ensures
        holds_at(entries, id, i),
{
    choose|i: int| holds_at(entries, id, i)
}

/// Adding a session under a new identity adds it to the map.
proof fn lemma_map_of_push<T>(entries: Seq<Session<T>>, session: Session<T>)
    requires
        distinct(entries),
        !map_of(entries).contains_key(session.id@),
    ensures
        distinct(entries.push(session)),
        map_of(entries.push(session)) == map_of(entries).insert(session.id@, session.sender),
{
    let grown = entries.push(session);
    assert forall|i: int, j: int| 0 <= i < j < grown.len() implies (#[trigger] grown[i]).id@ != (
    #[trigger] grown[j]).id@ by {
        if j == entries.len() {
            assert(holds_at(entries, grown[i].id@, i));
        }
    }
    let expected = map_of(entries).insert(session.id@, session.sender);
    assert forall|id: Seq<char>| #[trigger]
        map_of(grown).dom().contains(id) implies expected.dom().contains(id) by {
        let k = lemma_key_has_entry(grown, id);
        if k < entries.len() {
            assert(holds_at(entries, id, k));
        }
    }
    assert forall|id: Seq<char>| #[trigger] expected.dom().contains(id) implies map_of(
        grown,
    ).dom().contains(id) && map_of(grown)[id] == expected[id] by {
        if id == session.id@ {
            assert(grown[entries.len() as int] == session);
            lemma_entry_in_map(grown, entries.len() as int);
        } else {
            let k = lemma_key_has_entry(entries, id);
            assert(grown[k] == entries[k]);
            lemma_entry_in_map(entries, k);
            lemma_entry_in_map(grown, k);
        }
    }
    assert(map_of(grown) =~= expected);
}

/// Taking an entry out takes its identity out of the map.
proof fn lemma_map_of_remove<T>(entries: Seq<Session<T>>, i: int)
    requires
        distinct(entries),
        0 <= i < entries.len(),
    ensures
        distinct(entries.remove(i)),
        map_of(entries.remove(i)) == map_of(entries).remove(entries[i].id@),
{
    let rest = entries.remove(i);
    let gone = entries[i].id@;
    let expected = map_of(entries).remove(gone);
    assert forall|a: int, b: int| 0 <= a < b < rest.len() implies (#[trigger] rest[a]).id@ != (
    #[trigger] rest[b]).id@ by {
        let a0 = if a < i { a } else { a + 1 };
        let b0 = if b < i { b } else { b + 1 };
        assert(rest[a] == entries[a0] && rest[b] == entries[b0]);
    }
    assert forall|id: Seq<char>| #[trigger]
        map_of(rest).dom().contains(id) implies expected.dom().contains(id) && map_of(rest)[id]
        == expected[id] by {
        let k = lemma_key_has_entry(rest, id);
        let k0 = if k < i { k } else { k + 1 };
        assert(rest[k] == entries[k0]);
        assert(holds_at(entries, id, k0));
        lemma_entry_in_map(rest, k);
        lemma_entry_in_map(entries, k0);
    }
    assert forall|id: Seq<char>| #[trigger] expected.dom().contains(id) implies map_of(
        rest,
    ).dom().contains(id) by {
        let k0 = lemma_key_has_entry(entries, id);
        let k = if k0 < i { k0 } else { k0 - 1 };
        assert(rest[k] == entries[k0]);
        assert(holds_at(rest, id, k));
    }
    assert(map_of(rest) =~= expected);
}

impl<T> SessionRegistry<T> {
    #[verifier::type_invariant]
    spec fn well_formed(&self) -> bool {
        distinct(self.entries@)
    }

    /// The entry that holds `id`, if any does.
    fn position(&self, id: &str) -> (found: Option<usize>)
        ensures
            match found {
                Some(i) => holds_at(self.entries@, id@, i as int),
                None => !self@.contains_key(id@),
            },
    {
        let mut i: usize = 0;
        while i < self.entries.len()
            invariant
                i <= self.entries.len(),
                forall|k: int| 0 <= k < i ==> !holds_at(self.entries@, id@, k),
            decreases self.entries.len() - i,
        {
            if str_eq(self.entries[i].id.as_str(), id) {
                return Some(i);
            }
            i = i + 1;
        }
        proof {
            if self@.contains_key(id@) {
                let k = lemma_key_has_entry(self.entries@, id@);
            }
        }
        None
    }

    /// A registry with nobody in it.
    pub fn new() -> (registry: SessionRegistry<T>)
        ensures
            registry@ == Map::<Seq<char>, T>::empty(),
    {
        let registry = SessionRegistry { entries: Vec::new() };
        proof {
            assert forall|id: Seq<char>| !registry@.contains_key(id) by {
                if registry@.contains_key(id) {
                    let k = lemma_key_has_entry(registry.entries@, id);
                }
            }
            assert(registry@ =~= Map::<Seq<char>, T>::empty());
        }
        registry
    }

    /// How many sessions are registered.
    pub fn len(&self) -> (count: usize)
        ensures
            self@.dom().finite(),
            count == self@.len(),
    {
        proof {
            use_type_invariant(self);
            self.lemma_finite();
        }
        self.entries.len()
    }

    /// Whether `id` is registered.
    pub fn is_registered(&self, id: &str) -> (present: bool)
        ensures
            present == self@.contains_key(id@),
    {
        self.position(id).is_some()
    }

    /// Registers `sender` under `id`. A session that was registered under the
    /// same identity is overwritten, and its handle comes back.
    pub fn register(&mut self, id: String, sender: T) -> (displaced: Option<T>)
        ensures
            final(self)@ == old(self)@.insert(id@, sender),
            displaced == if old(self)@.contains_key(id@) {
                Some(old(self)@[id@])
            } else {
                None::<T>
            },
    {
        proof {
            use_type_invariant(&*self);
        }
        let found = self.position(id.as_str());
        let mut entries = Vec::new();
        std::mem::swap(&mut entries, &mut self.entries);
        let displaced = match found {
            Some(i) => {
                proof {
                    lemma_entry_in_map(entries@, i as int);
                    lemma_map_of_remove(entries@, i as int);
                }
                let stale = entries.remove(i);
                Some(stale.sender)
            },
            None => None,
        };
        let session = Session { id, sender };
        proof {
            lemma_map_of_push(entries@, session);
            assert(old(self)@.remove(id@).insert(id@, sender) =~= old(self)@.insert(id@, sender));
        }
        entries.push(session);
        self.entries = entries;
        displaced
    }

    /// Takes the session of `id` out, if there is one, and hands its handle
    /// back. Nothing else changes.
    pub fn deregister(&mut self, id: &str) -> (removed: Option<T>)
        ensures
            final(self)@ == old(self)@.remove(id@),
            removed == if old(self)@.contains_key(id@) {
                Some(old(self)@[id@])
            } else {
                None::<T>
            },
    {
        proof {
            use_type_invariant(&*self);
        }
        match self.position(id) {
            Some(i) => {
                let mut entries = Vec::new();
                std::mem::swap(&mut entries, &mut self.entries);
                proof {
                    lemma_entry_in_map(entries@, i as int);
                    lemma_map_of_remove(entries@, i as int);
                }
                let gone = entries.remove(i);
                self.entries = entries;
                Some(gone.sender)
            },
            None => {
                assert(old(self)@.remove(id@) =~= old(self)@);
                None
            },
        }
    }

    /// The sessions that are to be told of something `sender_id` did: every
    /// registered session but the one of `sender_id`, each of them once.
    pub fn broadcast_except(&self, sender_id: &str) -> (recipients: Vec<Recipient<'_, T>>)
        ensures
            reaches_exactly(recipients@, self@.remove(sender_id@)),
            self@.dom().finite(),
            recipients.len() == self@.remove(sender_id@).len(),
    {
        proof {
            use_type_invariant(self);
        }
        let mut recipients: Vec<Recipient<'_, T>> = Vec::new();
        let ghost mut picked: Seq<int> = Seq::empty();
        let mut i: usize = 0;
        while i < self.entries.len()
            invariant
                i <= self.entries.len(),
                picked.len() == recipients.len(),
                forall|k: int|
                    0 <= k < picked.len() ==> {
                        &&& 0 <= #[trigger] picked[k] < i
                        &&& recipients[k].id@ == self.entries[picked[k]].id@
                        &&& *recipients[k].sender == self.entries[picked[k]].sender
                        &&& recipients[k].id@ != sender_id@
                    },
                forall|a: int, b: int|
                    0 <= a < b < picked.len() ==> #[trigger] picked[a] < #[trigger] picked[b],
                forall|j: int|
                    0 <= j < i && (#[trigger] self.entries[j]).id@ != sender_id@ ==> exists|k: int|
                        0 <= k < picked.len() && #[trigger] picked[k] == j,
            decreases self.entries.len() - i,
        {
            let entry = &self.entries[i];
            if !str_eq(entry.id.as_str(), sender_id) {
                recipients.push(Recipient { id: entry.id.as_str(), sender: &entry.sender });
                proof {
                    let ghost before = picked;
                    picked = picked.push(i as int);
                    assert forall|j: int|
                        0 <= j < i + 1 && (#[trigger] self.entries[j]).id@
                            != sender_id@ implies exists|k: int|
                        0 <= k < picked.len() && #[trigger] picked[k] == j by {
                        if j < i {
                            let k = choose|k: int| 0 <= k < before.len() && #[trigger] before[k] == j;
                            assert(picked[k] == j);
                        } else {
                            assert(picked[before.len() as int] == j);
                        }
                    }
                }
            }
            i = i + 1;
        }
        proof {
            let entries = self.entries@;
            let targets = self@.remove(sender_id@);
            assert forall|k: int| 0 <= k < recipients.len() implies targets.contains_key(
                (#[trigger] recipients[k]).id@,
            ) && targets[recipients[k].id@] == *recipients[k].sender by {
                assert(0 <= picked[k] < entries.len());
                lemma_entry_in_map(entries, picked[k]);
            }
            assert forall|a: int, b: int| 0 <= a < b < recipients.len() implies (
            #[trigger] recipients[a]).id@ != (#[trigger] recipients[b]).id@ by {
                assert(picked[a] < picked[b]);
                assert(entries[picked[a]].id@ != entries[picked[b]].id@);
            }
            assert forall|id: Seq<char>| #[trigger] targets.contains_key(id) implies exists|k: int|
                0 <= k < recipients.len() && (#[trigger] recipients[k]).id@ == id by {
                let j = lemma_key_has_entry(entries, id);
                assert(entries[j].id@ != sender_id@);
                let k = choose|k: int| 0 <= k < picked.len() && #[trigger] picked[k] == j;
                assert(recipients[k].id@ == id);
            }
            self.lemma_finite();
            lemma_fan_out(recipients@, self@, sender_id@);
        }
        recipients
    }

    /// The map is finite and has as many sessions as there are entries.
    proof fn lemma_finite(&self)
        requires
            distinct(self.entries@),
        ensures
            self@.dom().finite(),
            self@.len() == self.entries.len(),
    {
        let entries = self.entries@;
        let ids = Seq::new(entries.len(), |i: int| entries[i].id@);
        assert(ids.no_duplicates());
        assert forall|id: Seq<char>| self@.dom().contains(id) implies ids.to_set().contains(id) by {
            let k = lemma_key_has_entry(entries, id);
            assert(ids[k] == id);
        }
        assert forall|id: Seq<char>| ids.to_set().contains(id) implies self@.dom().contains(id) by {
            let k = choose|k: int| 0 <= k < ids.len() && ids[k] == id;
            assert(holds_at(entries, id, k));
        }
        assert(self@.dom() =~= ids.to_set());
        ids.unique_seq_to_set();
    }
}

/// Fan-out: of the sessions registered, an announcement made for `sender`
/// goes to every other one exactly once and never to `sender` itself. So
/// there is one recipient fewer than there are sessions where `sender` is
/// among them, and as many as there are sessions where it is not.
pub proof fn lemma_fan_out<T>(
    recipients: Seq<Recipient<'_, T>>,
    registry: Map<Seq<char>, T>,
    sender: Seq<char>,
)
    requires
        registry.dom().finite(),
        reaches_exactly(recipients, registry.remove(sender)),
    ensures
        forall|i: int| 0 <= i < recipients.len() ==> (#[trigger] recipients[i]).id@ != sender,
        forall|id: Seq<char>|
            registry.contains_key(id) && id != sender ==> exists|i: int|
                0 <= i < recipients.len() && (#[trigger] recipients[i]).id@ == id,
        recipients.len() == registry.remove(sender).len(),
        registry.contains_key(sender) ==> recipients.len() == registry.len() - 1,
        !registry.contains_key(sender) ==> recipients.len() == registry.len(),
{
    let targets = registry.remove(sender);
    let ids = Seq::new(recipients.len(), |i: int| recipients[i].id@);
    assert(ids.no_duplicates());
    assert forall|id: Seq<char>| targets.dom().contains(id) implies ids.to_set().contains(id) by {
        assert(targets.contains_key(id));
        let k = choose|k: int| 0 <= k < recipients.len() && (#[trigger] recipients[k]).id@ == id;
        assert(ids[k] == id);
    }
    assert forall|id: Seq<char>| ids.to_set().contains(id) implies targets.dom().contains(id) by {
        let k = choose|k: int| 0 <= k < ids.len() && ids[k] == id;
        assert(targets.contains_key(recipients[k].id@));
    }
    assert(targets.dom() =~= ids.to_set());
    ids.unique_seq_to_set();
    assert forall|id: Seq<char>| registry.contains_key(id) && id != sender implies exists|i: int|
        0 <= i < recipients.len() && (#[trigger] recipients[i]).id@ == id by {
        assert(targets.contains_key(id));
    }
}

impl<T> View for SessionRegistry<T> {
    type V = Map<Seq<char>, T>;

    closed spec fn view(&self) -> Map<Seq<char>, T> {
        map_of(self.entries@)
    }
}

} // verus!

//! A cache of inbound Megolm sessions.

use vstd::prelude::*;

use crate::crypto_store::StoredInboundMegolmSession;
use crate::text::same_text;

verus! {

/// An entry of the cache.
struct Entry {
    room_id: String,
    session_id: String,
    session: StoredInboundMegolmSession,
}

impl Entry {
    spec fn key(self) -> (Seq<char>, Seq<char>) {
        (self.room_id@, self.session_id@)
    }
}

/// Cache of inbound Megolm sessions created during to-device processing.
///
/// A map by room ID and session ID. Used to make newly-received room keys visible to decryption
/// within the same callback, before buffered workspace writes are committed.
pub struct MegolmSessionCache {
    entries: Vec<Entry>,
}

spec fn entries_map(entries: Seq<Entry>) -> Map<
    (Seq<char>, Seq<char>),
    StoredInboundMegolmSession,
>
    decreases entries.len(),
{
    if entries.len() == 0 {
        Map::empty()
    } else {
        entries_map(entries.drop_last()).insert(entries.last().key(), entries.last().session)
    }
}

spec fn keys_differ(entries: Seq<Entry>) -> bool {
    forall|i: int, j: int| 0 <= i < j < entries.len() ==> entries[i].key() != entries[j].key()
}

proof fn map_has_entries(entries: Seq<Entry>, i: int)
    requires
        keys_differ(entries),
        0 <= i < entries.len(),
    ensures
        entries_map(entries).dom().contains(entries[i].key()),
        entries_map(entries)[entries[i].key()] == entries[i].session,
    decreases entries.len(),
{
    if i < entries.len() - 1 {
        map_has_entries(entries.drop_last(), i);
    }
}

proof fn map_has_no_more(entries: Seq<Entry>, key: (Seq<char>, Seq<char>))
    requires
        forall|i: int| 0 <= i < entries.len() ==> entries[i].key() != key,
    ensures
        !entries_map(entries).dom().contains(key),
    decreases entries.len(),
{
    if entries.len() > 0 {
        map_has_no_more(entries.drop_last(), key);
    }
}

proof fn map_of_removed(entries: Seq<Entry>, i: int)
    requires
        keys_differ(entries),
        0 <= i < entries.len(),
    ensures
        entries_map(entries.remove(i)) == entries_map(entries).remove(entries[i].key()),
    decreases entries.len(),
{
    let rest = entries.remove(i);
    if i == entries.len() - 1 {
        assert(rest =~= entries.drop_last());
        assert forall|k: int| 0 <= k < rest.len() implies rest[k].key() != entries[i].key() by {
            assert(rest[k] == entries[k]);
        }
        map_has_no_more(rest, entries[i].key());
        assert(entries_map(rest) =~= entries_map(entries).remove(entries[i].key()));
    } else {
        map_of_removed(entries.drop_last(), i);
        assert(rest.drop_last() =~= entries.drop_last().remove(i));
        assert(rest.last() == entries.last());
        assert(entries_map(rest) =~= entries_map(entries).remove(entries[i].key()));
    }
}

impl View for MegolmSessionCache {
    type V = Map<(Seq<char>, Seq<char>), StoredInboundMegolmSession>;

    closed spec fn view(&self) -> Map<(Seq<char>, Seq<char>), StoredInboundMegolmSession> {
        entries_map(self.entries@)
    }
}

impl MegolmSessionCache {
    #[verifier::type_invariant]
    spec fn valid(self) -> bool {
        keys_differ(self.entries@)
    }

    /// An empty cache.
    pub fn new() -> (cache: MegolmSessionCache)
        ensures
            cache@ == Map::<(Seq<char>, Seq<char>), StoredInboundMegolmSession>::empty(),
    {
        MegolmSessionCache { entries: Vec::new() }
    }

    /// A copy of the session of a room, where the cache has it.
    pub fn get(&self, room_id: &str, session_id: &str) -> (r: Option<StoredInboundMegolmSession>)
        ensures
            match r {
                Some(session) => self@.dom().contains((room_id@, session_id@)) && session@ == self@[(
                    room_id@,
                    session_id@,
                )]@,
                None => !self@.dom().contains((room_id@, session_id@)),
            },
    {
        proof {
            use_type_invariant(self);
        }
        let ghost key = (room_id@, session_id@);
        let mut i: usize = 0;
        while i < self.entries.len()
            invariant
                i <= self.entries.len(),
                keys_differ(self.entries@),
                key == (room_id@, session_id@),
                forall|k: int| 0 <= k < i ==> self.entries[k].key() != key,
            decreases self.entries.len() - i,
        {
            let entry = &self.entries[i];
            if same_text(entry.room_id.as_str(), room_id) && same_text(
                entry.session_id.as_str(),
                session_id,
            ) {
                proof {
                    map_has_entries(self.entries@, i as int);
                }
                return Some(entry.session.copied());
            }
            i += 1;
        }
        proof {
            map_has_no_more(self.entries@, key);
        }
        None
    }

    /// The cache without the session of a room, and that session where it had it.
    pub fn remove(self, room_id: &str, session_id: &str) -> (r: (
        MegolmSessionCache,
        Option<StoredInboundMegolmSession>,
    ))
        ensures
            r.0@ == self@.remove((room_id@, session_id@)),
            match r.1 {
                Some(session) => self@.dom().contains((room_id@, session_id@)) && self@[(
                    room_id@,
                    session_id@,
                )] == session,
                None => !self@.dom().contains((room_id@, session_id@)),
            },
    {
        proof {
            use_type_invariant(&self);
        }
        let mut entries = self.entries;
        let ghost key = (room_id@, session_id@);
        let mut i: usize = 0;
        while i < entries.len()
            invariant
                i <= entries.len(),
                entries@ == self.entries@,
                keys_differ(entries@),
                key == (room_id@, session_id@),
                forall|k: int| 0 <= k < i ==> entries[k].key() != key,
            decreases entries.len() - i,
        {
            if same_text(entries[i].room_id.as_str(), room_id) && same_text(
                entries[i].session_id.as_str(),
                session_id,
            ) {
                proof {
                    map_has_entries(entries@, i as int);
                    map_of_removed(entries@, i as int);
                }
                let ghost before = entries@;
                let entry = entries.remove(i);
                assert forall|a: int, b: int| 0 <= a < b < entries.len() implies entries@[a].key()
                    != entries@[b].key() by {
                    assert(entries@[a] == before[if a < i { a } else { a + 1 }]);
                    assert(entries@[b] == before[if b < i { b } else { b + 1 }]);
                }
                return (MegolmSessionCache { entries }, Some(entry.session));
            }
            i += 1;
        }
        proof {
            map_has_no_more(entries@, key);
            assert(entries_map(entries@).remove(key) =~= entries_map(entries@));
        }
        (MegolmSessionCache { entries }, None)
    }

    /// The cache with a session of a room, in place of one that it had.
    pub fn insert(
        self,
        room_id: String,
        session_id: String,
        session: StoredInboundMegolmSession,
    ) -> (cache: MegolmSessionCache)
        ensures
            cache@ == self@.insert((room_id@, session_id@), session),
    {
        let ghost before = self@;
        let ghost key = (room_id@, session_id@);
        let (cache, _) = self.remove(room_id.as_str(), session_id.as_str());
        proof {
            use_type_invariant(&cache);
        }
        let mut entries = cache.entries;
        proof {
            assert forall|i: int| 0 <= i < entries.len() implies entries@[i].key() != key by {
                map_has_entries(entries@, i);
            }
        }
        let ghost kept = entries@;
        entries.push(Entry { room_id, session_id, session });
        proof {
            assert(entries@.drop_last() =~= kept);
            assert(before.remove(key).insert(key, session) =~= before.insert(key, session));
        }
        MegolmSessionCache { entries }
    }
}

} // verus!

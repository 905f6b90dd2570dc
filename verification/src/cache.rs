//! Tracked-room cache: an in-process mirror of which announcement messages
//! are live rooms, and of each guild's configuration.
//!
//! The cache exists so the event filter can reject irrelevant events without
//! touching the store.  It is loaded once from the store before events flow
//! (see [`TrackedRoomCache::bootstrap`]) and then kept in step write-through:
//! on administrative paths the cache is updated pessimistically, so a crash
//! leaves it believing a room is gone rather than that a stale room still
//! exists.  It is never the authority for capacity or exclusivity — those
//! checks always go back to the store.

use vstd::prelude::*;

use crate::store::{
    distinct_keys, has_key, key_of, lemma_key_of_concat, lemma_key_of_props,
    lemma_key_of_singleton, lemma_without_key, rows_without_key, without_key, RosterStore,
};

verus! {

/// Per-guild configuration: the watched signup channel and the role whose
/// holders may host rooms.
#[derive(Debug, Copy, Clone)]
pub struct GuildConfig {
    pub channel_id: Option<u64>,
    pub host_id: Option<u64>,
}

impl Default for GuildConfig {
    /// A fresh configuration watches no channel and names no host role.
    fn default() -> (c: GuildConfig)
        ensures
            c.channel_id is None,
            c.host_id is None,
    {
        GuildConfig { channel_id: None, host_id: None }
    }
}

/// No two ids are equal.
pub open spec fn distinct_ids(s: Seq<u64>) -> bool {
    forall|i: int, j: int| 0 <= i < j < s.len() ==> s[i] != s[j]
}

/// The ids left once `x` is dropped.
pub open spec fn without_id(s: Seq<u64>, x: u64) -> Seq<u64>
    decreases s.len(),
{
    if s.len() == 0 {
        s
    } else {
        let rest = without_id(s.drop_last(), x);
        if s.last() == x {
            rest
        } else {
            rest.push(s.last())
        }
    }
}

/// Dropping an id keeps exactly the other ids.
pub proof fn lemma_without_id(s: Seq<u64>, x: u64)
    ensures
        forall|y: u64| #[trigger] without_id(s, x).contains(y) <==> (s.contains(y) && y != x),
        distinct_ids(s) ==> distinct_ids(without_id(s, x)),
    decreases s.len(),
{
    if s.len() == 0 {
    } else {
        let dl = s.drop_last();
        let w = without_id(s, x);
        let wdl = without_id(dl, x);
        lemma_without_id(dl, x);
        if s.last() == x {
            assert(w == wdl);
        } else {
            assert(w == wdl.push(s.last()));
            assert(w.drop_last() =~= wdl);
        }
        assert forall|y: u64| #[trigger] w.contains(y) implies (s.contains(y) && y != x) by {
            if s.last() == x {
                let i = choose|i: int| 0 <= i < wdl.len() && wdl[i] == y;
                assert(dl.contains(y));
                let k = choose|k: int| 0 <= k < dl.len() && dl[k] == y;
                assert(s[k] == y);
            } else {
                let i = choose|i: int| 0 <= i < w.len() && w[i] == y;
                if i < w.len() - 1 {
                    assert(wdl[i] == y);
                    assert(wdl.contains(y));
                    let k = choose|k: int| 0 <= k < dl.len() && dl[k] == y;
                    assert(s[k] == y);
                } else {
                    assert(s[s.len() - 1] == y);
                }
            }
        }
        assert forall|y: u64| s.contains(y) && y != x implies #[trigger] w.contains(y) by {
            let i = choose|i: int| 0 <= i < s.len() && s[i] == y;
            if i < s.len() - 1 {
                assert(dl[i] == y);
                assert(dl.contains(y));
                assert(wdl.contains(y));
                if s.last() != x {
                    let k = choose|k: int| 0 <= k < wdl.len() && wdl[k] == y;
                    assert(w[k] == y);
                }
            } else {
                assert(s.last() == y);
                assert(w[w.len() - 1] == y);
            }
        }
        if distinct_ids(s) {
            assert forall|i: int, j: int| 0 <= i < j < w.len() implies w[i] != w[j] by {
                if s.last() != x && j == w.len() - 1 {
                    assert(w[i] == wdl[i]);
                    assert(wdl.contains(wdl[i]));
                    assert(dl.contains(w[i]));
                    let k = choose|k: int| 0 <= k < dl.len() && dl[k] == w[i];
                    assert(s[k] == w[i]);
                    assert(s[s.len() - 1] == w[j]);
                } else {
                    assert(w[i] == wdl[i] && w[j] == wdl[j]);
                }
            }
        }
    }
}

/// The in-process mirror of live rooms and guild configurations.
pub struct TrackedRoomCache {
    /// Announcement message ids of the rooms currently tracked.
    pub messages: Vec<u64>,
    /// `(guild id, configuration)`, one row per guild.
    pub configs: Vec<(u64, GuildConfig)>,
}

impl TrackedRoomCache {
    /// Cache well-formedness: tracked ids and guild rows are unique.
    pub open spec fn wf(self) -> bool {
        &&& distinct_ids(self.messages@)
        &&& distinct_keys(self.configs@)
    }

    /// Whether the announcement `mid` is a tracked room.
    pub open spec fn tracks(self, mid: u64) -> bool {
        self.messages@.contains(mid)
    }

    /// The configuration the cache holds for guild `gid`.
    pub open spec fn config_view(self, gid: u64) -> Option<GuildConfig> {
        key_of(self.configs@, gid)
    }

    /// An empty cache: nothing tracked, nothing configured.
    pub fn new() -> (c: TrackedRoomCache)
        ensures
            c.wf(),
            forall|mid: u64| !c.tracks(mid),
            c.configs@.len() == 0,
    {
        TrackedRoomCache { messages: Vec::new(), configs: Vec::new() }
    }

    /// One-shot startup load: mirrors the store's full room set and guild
    /// configuration map, before any event is processed.
    pub fn bootstrap(store: &RosterStore) -> (c: TrackedRoomCache)
        requires
            store.wf(),
        ensures
            c.wf(),
            forall|mid: u64| #[trigger] c.tracks(mid) <==> has_key(store.rooms@, mid),
            c.configs@ == store.configs@,
    {
        let messages = store.list_rooms();
        let configs = store.list_configs();
        let c = TrackedRoomCache { messages, configs };
        proof {
            assert forall|mid: u64| #[trigger] c.tracks(mid) implies has_key(store.rooms@, mid) by {
                let i = choose|i: int| 0 <= i < c.messages@.len() && c.messages@[i] == mid;
                assert((#[trigger] store.rooms@[i]).0 == mid);
            }
            assert forall|mid: u64| has_key(store.rooms@, mid) implies #[trigger] c.tracks(mid) by {
                let i = choose|i: int|
                    0 <= i < store.rooms@.len() && (#[trigger] store.rooms@[i]).0 == mid;
                assert(c.messages@[i] == mid);
            }
            assert forall|i: int, j: int|
                0 <= i < j < c.messages@.len() implies c.messages@[i] != c.messages@[j] by {
                assert(c.messages@[i] == (#[trigger] store.rooms@[i]).0);
                assert(c.messages@[j] == (#[trigger] store.rooms@[j]).0);
            }
        }
        c
    }

    /// O(cache) membership test used by the event filter; never touches the
    /// store.
    pub fn contains_room(&self, mid: u64) -> (b: bool)
        ensures
            b == self.tracks(mid),
    {
        let mut i: usize = 0;
        while i < self.messages.len()
            invariant
                0 <= i <= self.messages@.len(),
                forall|k: int| 0 <= k < i ==> self.messages@[k] != mid,
            decreases self.messages@.len() - i,
        {
            if self.messages[i] == mid {
                assert(self.messages@[i as int] == mid);
                return true;
            }
            i = i + 1;
        }
        false
    }

    /// The configuration of guild `gid`, used by the event filter.
    pub fn config_of(&self, gid: u64) -> (r: Option<GuildConfig>)
        ensures
            r == self.config_view(gid),
    {
        let s = Ghost(self.configs@);
        let mut i: usize = 0;
        while i < self.configs.len()
            invariant
                0 <= i <= s@.len(),
                s@ == self.configs@,
                key_of(s@.subrange(0, i as int), gid) is None,
            decreases s@.len() - i,
        {
            proof {
                assert(s@.subrange(0, i + 1).drop_last() =~= s@.subrange(0, i as int));
            }
            if self.configs[i].0 == gid {
                proof {
                    assert(s@ =~= s@.subrange(0, i + 1) + s@.subrange(i + 1, s@.len() as int));
                    lemma_key_of_concat(
                        s@.subrange(0, i + 1),
                        s@.subrange(i + 1, s@.len() as int),
                        gid,
                    );
                }
                return Some(self.configs[i].1);
            }
            i = i + 1;
        }
        proof {
            assert(s@.subrange(0, s@.len() as int) =~= s@);
        }
        None
    }

    /// Write-through on room creation: starts tracking `mid`.
    pub fn track(&mut self, mid: u64)
        requires
            old(self).wf(),
            old(self).messages@.len() < usize::MAX,
        ensures
            final(self).wf(),
            final(self).tracks(mid),
            forall|m2: u64| m2 != mid ==> final(self).tracks(m2) == old(self).tracks(m2),
            final(self).configs == old(self).configs,
    {
        if !self.contains_room(mid) {
            self.messages.push(mid);
            proof {
                assert(self.messages@[self.messages@.len() - 1] == mid);
                assert forall|i: int, j: int|
                    0 <= i < j < self.messages@.len() implies self.messages@[i]
                    != self.messages@[j] by {
                    if j == self.messages@.len() - 1 {
                        assert(old(self).messages@[i] == self.messages@[i]);
                        if self.messages@[i] == mid {
                            assert(old(self).messages@.contains(mid));
                        }
                    }
                }
                assert forall|m2: u64| m2 != mid implies final(self).tracks(m2) == old(
                    self,
                ).tracks(m2) by {
                    if old(self).messages@.contains(m2) {
                        let i = choose|i: int|
                            0 <= i < old(self).messages@.len() && old(self).messages@[i] == m2;
                        assert(self.messages@[i] == m2);
                    }
                    if self.messages@.contains(m2) {
                        let i = choose|i: int|
                            0 <= i < self.messages@.len() && self.messages@[i] == m2;
                        assert(i < self.messages@.len() - 1);
                        assert(old(self).messages@[i] == m2);
                    }
                }
            }
        }
    }

    /// Write-through on room deletion: stops tracking `mid`.  Run before the
    /// store delete on administrative paths, so a crash in between leaves a
    /// false negative in the filter, never a stale room.
    pub fn untrack(&mut self, mid: u64)
        requires
            old(self).wf(),
        ensures
            final(self).wf(),
            !final(self).tracks(mid),
            forall|m2: u64| m2 != mid ==> final(self).tracks(m2) == old(self).tracks(m2),
            final(self).configs == old(self).configs,
    {
        let mut w: Vec<u64> = Vec::new();
        let mut i: usize = 0;
        while i < self.messages.len()
            invariant
                0 <= i <= self.messages@.len(),
                w@ == without_id(self.messages@.subrange(0, i as int), mid),
            decreases self.messages@.len() - i,
        {
            proof {
                assert(self.messages@.subrange(0, i + 1).drop_last() =~= self.messages@.subrange(
                    0,
                    i as int,
                ));
            }
            if self.messages[i] != mid {
                w.push(self.messages[i]);
            }
            i = i + 1;
        }
        proof {
            assert(self.messages@.subrange(0, self.messages@.len() as int) =~= self.messages@);
        }
        self.messages = w;
        proof {
            lemma_without_id(old(self).messages@, mid);
        }
    }

    /// Write-through of a guild's watched channel.
    pub fn set_channel(&mut self, gid: u64, channel: u64)
        requires
            old(self).wf(),
            old(self).configs@.len() < usize::MAX,
        ensures
            final(self).wf(),
            final(self).messages == old(self).messages,
            final(self).config_view(gid) == (Some(
                GuildConfig {
                    channel_id: Some(channel),
                    host_id: match old(self).config_view(gid) {
                        Some(c) => c.host_id,
                        None => None,
                    },
                },
            )),
            forall|g2: u64| g2 != gid ==> final(self).config_view(g2) == old(self).config_view(g2),
    {
        let base = match self.config_of(gid) {
            Some(c) => c,
            None => GuildConfig { channel_id: None, host_id: None },
        };
        let cfg = GuildConfig { channel_id: Some(channel), host_id: base.host_id };
        self.upsert_config(gid, cfg);
    }

    /// Write-through of a guild's authorized-host role.
    pub fn set_host(&mut self, gid: u64, role: u64)
        requires
            old(self).wf(),
            old(self).configs@.len() < usize::MAX,
        ensures
            final(self).wf(),
            final(self).messages == old(self).messages,
            final(self).config_view(gid) == (Some(
                GuildConfig {
                    channel_id: match old(self).config_view(gid) {
                        Some(c) => c.channel_id,
                        None => None,
                    },
                    host_id: Some(role),
                },
            )),
            forall|g2: u64| g2 != gid ==> final(self).config_view(g2) == old(self).config_view(g2),
    {
        let base = match self.config_of(gid) {
            Some(c) => c,
            None => GuildConfig { channel_id: None, host_id: None },
        };
        let cfg = GuildConfig { channel_id: base.channel_id, host_id: Some(role) };
        self.upsert_config(gid, cfg);
    }

    /// Replaces guild `gid`'s cached configuration row with `cfg`.
    fn upsert_config(&mut self, gid: u64, cfg: GuildConfig)
        requires
            old(self).wf(),
            old(self).configs@.len() < usize::MAX,
        ensures
            final(self).wf(),
            final(self).messages == old(self).messages,
            key_of(final(self).configs@, gid) == Some(cfg),
            forall|g2: u64|
                g2 != gid ==> key_of(final(self).configs@, g2) == key_of(old(self).configs@, g2),
    {
        let w = rows_without_key(&self.configs, gid);
        self.configs = w;
        self.configs.push((gid, cfg));
        proof {
            lemma_without_key(old(self).configs@, gid);
            let w0 = without_key(old(self).configs@, gid);
            let single = seq![(gid, cfg)];
            assert(self.configs@ =~= w0 + single);
            lemma_key_of_singleton((gid, cfg), gid);
            lemma_key_of_concat(w0, single, gid);
            lemma_key_of_props(w0, gid);
            assert forall|g2: u64|
                g2 != gid implies key_of(self.configs@, g2) == key_of(old(self).configs@, g2) by {
                lemma_key_of_concat(w0, single, g2);
                lemma_key_of_singleton((gid, cfg), g2);
                assert(key_of(w0, g2) == key_of(old(self).configs@, g2));
            }
            assert forall|i: int, j: int|
                0 <= i < j < self.configs@.len() implies self.configs@[i].0 != self.configs@[j].0 by {
                if j == self.configs@.len() - 1 {
                    assert(w0.contains(w0[i]));
                    assert(self.configs@[i] == w0[i]);
                } else {
                    assert(self.configs@[i] == w0[i] && self.configs@[j] == w0[j]);
                }
            }
        }
    }
}

} // verus!

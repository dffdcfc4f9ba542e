use vstd::prelude::*;
use crate::manifest::Timestamp;
use crate::text::{chars_of, join2, string_of};

verus! {

/// The state of one scan in progress.
#[derive(Debug)]
pub struct ScanStatus {
    pub place_id: u64,
    pub status: String,
    pub progress: String,
    pub started_at: Timestamp,
}

/// What is known of one scan in progress.
pub struct SessionView {
    pub status: Seq<char>,
    pub progress: Seq<char>,
    pub started_at: Timestamp,
}

pub open spec fn session_view(s: ScanStatus) -> SessionView {
    SessionView { status: s.status@, progress: s.progress@, started_at: s.started_at }
}

/// The scans in progress, at most one per target.
pub struct ScanSessions {
    entries: Vec<ScanStatus>,
}

/// `i` is where the session of `id` stands.
pub open spec fn at(s: Seq<ScanStatus>, id: u64, i: int) -> bool {
    0 <= i < s.len() && s[i].place_id == id
}

/// The progress text of a session that has just received a chunk of `scope`.
pub open spec fn receiving(scope: Seq<char>) -> Seq<char> {
    "receiving "@ + scope
}

impl ScanSessions {
    pub closed spec fn entries_view(&self) -> Seq<ScanStatus> {
        self.entries@
    }

    /// No target has two sessions.
    pub closed spec fn wf(&self) -> bool {
        forall|i: int, j: int|
            0 <= i < j < self.entries@.len() ==> self.entries@[i].place_id
                != self.entries@[j].place_id
    }

    /// The sessions, by target.
    pub closed spec fn view(&self) -> Map<u64, SessionView> {
        Map::new(
            |id: u64| exists|i: int| at(self.entries@, id, i),
            |id: u64| session_view(self.entries@[choose|i: int| at(self.entries@, id, i)]),
        )
    }

    /// No scan in progress.
    pub fn new() -> (r: ScanSessions)
        ensures
            r.wf(),
            r@ == Map::<u64, SessionView>::empty(),
    {
        let r = ScanSessions { entries: Vec::new() };
        assert(r@ =~= Map::<u64, SessionView>::empty());
        r
    }

    fn find(&self, place_id: u64) -> (r: Option<usize>)
        requires
            self.wf(),
        ensures
            match r {
                Some(i) => at(self.entries@, place_id, i as int),
                None => !exists|i: int| at(self.entries@, place_id, i),
            },
    {
        let mut i: usize = 0;
        while i < self.entries.len()
            invariant
                i <= self.entries@.len(),
                forall|j: int| 0 <= j < i ==> self.entries@[j].place_id != place_id,
            decreases self.entries@.len() - i,
        {
            if self.entries[i].place_id == place_id {
                return Some(i);
            }
            i = i + 1;
        }
        None
    }

    /// Records that a chunk of `scope` arrived for `place_id`: starts a
    /// session at `now` if there was none, and sets its progress.
    pub fn begin_or_touch(&mut self, place_id: u64, scope: &str, now: Timestamp)
        requires
            old(self).wf(),
        ensures
            final(self).wf(),
            final(self)@ == old(self)@.insert(
                place_id,
                if old(self)@.contains_key(place_id) {
                    SessionView { progress: receiving(scope@), ..old(self)@[place_id] }
                } else {
                    SessionView {
                        status: "scanning"@,
                        progress: receiving(scope@),
                        started_at: now,
                    }
                },
            ),
    {
        let progress = string_of(&join2(&chars_of("receiving "), &chars_of(scope)));
        let ghost old_entries = self.entries@;
        match self.find(place_id) {
            Some(i) => {
                proof {
                    assert(old(self)@.contains_key(place_id));
                    let c = choose|c: int| at(old_entries, place_id, c);
                    assert(c == i);
                }
                let started = self.entries[i].started_at;
                let status = self.entries[i].status.clone();
                self.entries.set(i, ScanStatus { place_id, status, progress, started_at: started });
                proof {
                    assert forall|id: u64| #[trigger] self@.contains_key(id) == old(self)@.insert(
                        place_id,
                        SessionView { progress: receiving(scope@), ..old(self)@[place_id] },
                    ).contains_key(id) by {
                        if exists|k: int| at(old_entries, id, k) {
                            let k = choose|k: int| at(old_entries, id, k);
                            assert(at(self.entries@, id, k));
                        }
                        if exists|k: int| at(self.entries@, id, k) {
                            let k = choose|k: int| at(self.entries@, id, k);
                            assert(at(old_entries, id, k));
                        }
                    }
                    assert forall|id: u64| #[trigger] self@.contains_key(id) implies self@[id]
                        == old(self)@.insert(
                        place_id,
                        SessionView { progress: receiving(scope@), ..old(self)@[place_id] },
                    )[id] by {
                        let k = choose|k: int| at(self.entries@, id, k);
                        assert(at(old_entries, id, k));
                        let c = choose|c: int| at(old_entries, id, c);
                        assert(c == k);
                    }
                    assert(self@ =~= old(self)@.insert(
                        place_id,
                        SessionView { progress: receiving(scope@), ..old(self)@[place_id] },
                    ));
                    assert forall|a: int, b: int| 0 <= a < b < self.entries@.len() implies self.entries@[a].place_id
                        != self.entries@[b].place_id by {
                        assert(self.entries@[a].place_id == old_entries[a].place_id);
                        assert(self.entries@[b].place_id == old_entries[b].place_id);
                    }
                }
            },
            None => {
                let s = ScanStatus {
                    place_id,
                    status: string_of(&chars_of("scanning")),
                    progress,
                    started_at: now,
                };
                self.entries.push(s);
                proof {
                    let n = old_entries.len() as int;
                    let fresh = SessionView {
                        status: "scanning"@,
                        progress: receiving(scope@),
                        started_at: now,
                    };
                    assert(at(self.entries@, place_id, n));
                    assert forall|id: u64| #[trigger] self@.contains_key(id) == old(self)@.insert(
                        place_id,
                        fresh,
                    ).contains_key(id) by {
                        if exists|k: int| at(old_entries, id, k) {
                            let k = choose|k: int| at(old_entries, id, k);
                            assert(at(self.entries@, id, k));
                        }
                        if exists|k: int| at(self.entries@, id, k) {
                            let k = choose|k: int| at(self.entries@, id, k);
                            if k < n {
                                assert(at(old_entries, id, k));
                            }
                        }
                    }
                    assert forall|id: u64| #[trigger] self@.contains_key(id) implies self@[id]
                        == old(self)@.insert(place_id, fresh)[id] by {
                        let k = choose|k: int| at(self.entries@, id, k);
                        if id == place_id {
                            if k < n {
                                assert(at(old_entries, place_id, k));
                            }
                            assert(k == n);
                        } else {
                            assert(k < n);
                            assert(at(old_entries, id, k));
                            let c = choose|c: int| at(old_entries, id, c);
                            assert(c == k);
                        }
                    }
                    assert(self@ =~= old(self)@.insert(place_id, fresh));
                    assert forall|a: int, b: int| 0 <= a < b < self.entries@.len() implies self.entries@[a].place_id
                        != self.entries@[b].place_id by {
                        if b == n {
                            if self.entries@[a].place_id == place_id {
                                assert(at(old_entries, place_id, a));
                            }
                        }
                    }
                }
            },
        }
    }

    /// Ends the session of `place_id`, if any; tells whether there was one.
    /// Stored data is not touched.
    pub fn cancel(&mut self, place_id: u64) -> (r: bool)
        requires
            old(self).wf(),
        ensures
            final(self).wf(),
            r == old(self)@.contains_key(place_id),
            final(self)@ == old(self)@.remove(place_id),
    {
        let ghost old_entries = self.entries@;
        match self.find(place_id) {
            Some(i) => {
                self.entries.remove(i);
                proof {
                    assert(old(self)@.contains_key(place_id));
                    assert forall|id: u64| #[trigger] self@.contains_key(id) == old(self)@.remove(
                        place_id,
                    ).contains_key(id) by {
                        if exists|k: int| at(old_entries, id, k) {
                            let k = choose|k: int| at(old_entries, id, k);
                            if id != place_id {
                                if k < i {
                                    assert(at(self.entries@, id, k));
                                } else {
                                    assert(k != i);
                                    assert(at(self.entries@, id, k - 1));
                                }
                            }
                        }
                        if exists|k: int| at(self.entries@, id, k) {
                            let k = choose|k: int| at(self.entries@, id, k);
                            if k < i {
                                assert(at(old_entries, id, k));
                            } else {
                                assert(at(old_entries, id, k + 1));
                            }
                        }
                    }
                    assert forall|id: u64| #[trigger] self@.contains_key(id) implies self@[id]
                        == old(self)@.remove(place_id)[id] by {
                        let k = choose|k: int| at(self.entries@, id, k);
                        let k0 = if k < i { k } else { k + 1 };
                        assert(at(old_entries, id, k0));
                        let c = choose|c: int| at(old_entries, id, c);
                        assert(c == k0);
                    }
                    assert(self@ =~= old(self)@.remove(place_id));
                }
                true
            },
            None => {
                assert(self@ =~= old(self)@.remove(place_id));
                false
            },
        }
    }

    /// A copy of every session in progress, one per target.
    pub fn list(&self) -> (r: Vec<ScanStatus>)
        requires
            self.wf(),
        ensures
            forall|i: int, j: int| 0 <= i < j < r@.len() ==> r@[i].place_id != r@[j].place_id,
            forall|i: int| 0 <= i < r@.len() ==> self@.contains_key(#[trigger] r@[i].place_id)
                && session_view(r@[i]) == self@[r@[i].place_id],
            forall|id: u64| self@.contains_key(id) ==> exists|i: int| at(r@, id, i),
    {
        let mut r: Vec<ScanStatus> = Vec::new();
        let mut i: usize = 0;
        while i < self.entries.len()
            invariant
                self.wf(),
                i <= self.entries@.len(),
                r@.len() == i,
                forall|k: int| 0 <= k < i ==> r@[k].place_id == self.entries@[k].place_id
                    && session_view(r@[k]) == session_view(self.entries@[k]),
            decreases self.entries@.len() - i,
        {
            let e = &self.entries[i];
            r.push(ScanStatus {
                place_id: e.place_id,
                status: e.status.clone(),
                progress: e.progress.clone(),
                started_at: e.started_at,
            });
            i = i + 1;
        }
        proof {
            assert forall|k: int| 0 <= k < r@.len() implies self@.contains_key(
                #[trigger] r@[k].place_id,
            ) && session_view(r@[k]) == self@[r@[k].place_id] by {
                let id = r@[k].place_id;
                assert(at(self.entries@, id, k));
                let c = choose|c: int| at(self.entries@, id, c);
                assert(c == k);
            }
            assert forall|id: u64| self@.contains_key(id) implies exists|k: int| at(r@, id, k) by {
                let k = choose|k: int| at(self.entries@, id, k);
                assert(at(r@, id, k));
            }
        }
        r
    }
}

} // verus!

//! The connection registry: which connections are open, and the ids handed
//! out to them. Ids grow with each connection and are never reused.
use vstd::prelude::*;
use crate::game_state::{contains_id, remove_id, without_id};

verus! {

pub struct ConnectionRegistry {
    /// The id the next connection gets.
    pub next_id: u32,
    /// The open connections, oldest first.
    pub live: Vec<u32>,
}

impl ConnectionRegistry {
    /// Every open connection has an id below `next_id`, once.
    pub open spec fn wf(&self) -> bool {
        &&& self.live@.no_duplicates()
        &&& forall|i: int| 0 <= i < self.live@.len() ==> #[trigger] self.live@[i] < self.next_id
    }

    pub fn new() -> (r: ConnectionRegistry)
        ensures
            r.wf(),
            r.next_id == 1,
            r.live@.len() == 0,
    {
        ConnectionRegistry { next_id: 1, live: Vec::new() }
    }

    /// Opens a connection and returns its id; `None` once every id is spent.
    pub fn register(&mut self) -> (r: Option<u32>)
        requires
            old(self).wf(),
        ensures
            final(self).wf(),
            match r {
                Some(id) => {
                    &&& id == old(self).next_id
                    &&& final(self).next_id == id + 1
                    &&& final(self).live@ == old(self).live@.push(id)
                },
                None => old(self).next_id == u32::MAX && *final(self) == *old(self),
            },
    {
        if self.next_id == u32::MAX {
            return None;
        }
        let id = self.next_id;
        self.live.push(id);
        self.next_id = id + 1;
        Some(id)
    }

    /// Closes connection `id`.
    pub fn unregister(&mut self, id: u32)
        requires
            old(self).wf(),
        ensures
            final(self).wf(),
            final(self).next_id == old(self).next_id,
            final(self).live@ == without_id(old(self).live@, id),
            !final(self).live@.contains(id),
    {
        let ghost before = self.live@;
        self.live = remove_id(&self.live, id);
        proof {
            lemma_without_id(before, id);
            assert forall|i: int| 0 <= i < self.live@.len() implies #[trigger] self.live@[i] < self.next_id by {
                assert(self.live@.contains(self.live@[i]));
                let j = choose|j: int| 0 <= j < before.len() && before[j] == self.live@[i];
            }
        }
    }

    pub fn is_live(&self, id: u32) -> (r: bool)
        ensures
            r == self.live@.contains(id),
    {
        contains_id(&self.live, id)
    }
}

/// Taking an id out keeps the others, once each, and nothing else.
pub proof fn lemma_without_id(s: Seq<u32>, id: u32)
    ensures
        forall|x: u32| #[trigger] without_id(s, id).contains(x) <==> (s.contains(x) && x != id),
        s.no_duplicates() ==> without_id(s, id).no_duplicates(),
    decreases s.len(),
{
    if s.len() > 0 {
        let t = s.drop_last();
        lemma_without_id(t, id);
        assert forall|x: u32| #[trigger] s.contains(x) <==> (t.contains(x) || x == s.last()) by {
            if s.contains(x) {
                let i = choose|i: int| 0 <= i < s.len() && s[i] == x;
                if i < s.len() - 1 {
                    assert(t[i] == x);
                }
            }
            if t.contains(x) {
                let i = choose|i: int| 0 <= i < t.len() && t[i] == x;
                assert(s[i] == x);
            }
            if x == s.last() {
                assert(s[s.len() - 1] == x);
            }
        }
        let w = without_id(t, id);
        assert forall|x: u32| #[trigger] without_id(s, id).contains(x) <==> (s.contains(x) && x != id) by {
            if s.last() != id {
                let u = w.push(s.last());
                if u.contains(x) {
                    let i = choose|i: int| 0 <= i < u.len() && u[i] == x;
                    if i < w.len() {
                        assert(w[i] == x);
                    }
                }
                if w.contains(x) {
                    let i = choose|i: int| 0 <= i < w.len() && w[i] == x;
                    assert(u[i] == x);
                }
                if x == s.last() {
                    assert(u[w.len() as int] == x);
                }
            }
        }
        if s.no_duplicates() {
            assert(t.no_duplicates()) by {
                assert forall|i: int, j: int| 0 <= i < t.len() && 0 <= j < t.len() && i != j implies t[i] != t[j] by {
                    assert(s[i] == t[i] && s[j] == t[j]);
                }
            }
            if s.last() != id {
                assert(!t.contains(s.last())) by {
                    if t.contains(s.last()) {
                        let i = choose|i: int| 0 <= i < t.len() && t[i] == s.last();
                        assert(s[i] == s[s.len() - 1]);
                    }
                }
                assert(!w.contains(s.last()));
                assert forall|i: int, j: int| 0 <= i < w.push(s.last()).len() && 0 <= j < w.push(s.last()).len() && i != j
                    implies w.push(s.last())[i] != w.push(s.last())[j] by {
                    if i < w.len() && j < w.len() {
                    } else if i < w.len() {
                        assert(w.contains(w[i]));
                    } else {
                        assert(w.contains(w[j]));
                    }
                }
            }
        }
    }
}

} // verus!

//! Automated turns: after a player's attack the engine may hand a number of
//! turns to non-player combatants. They run one by one, a fixed delay apart,
//! through the same path as a player's attack, and stop early once the
//! session is no longer running.
use vstd::prelude::*;
use vstd::string::*;
use crate::event::attack_allowed;
use crate::assoc::text_eq;
use crate::game_state::{strings_view, GamePhase, GameStateManager};

verus! {

/// Delay before each automated turn, in milliseconds.
pub const AUTO_ATK_TEMPO_MS: u64 = 3000;

/// The automated turns still to run in one session.
pub struct AutoTurns {
    pub server_name: String,
    pub remaining: u32,
}

/// The automated turns to schedule for session `server_name` after an attack
/// that left `pending` of them; none when there are none.
pub fn process_ennemy_atk(server_name: &str, pending: u32) -> (r: Option<AutoTurns>)
    ensures
        match r {
            Some(t) => pending > 0 && t.server_name@ == server_name@ && t.remaining == pending,
            None => pending == 0,
        },
{
    if pending == 0 {
        None
    } else {
        Some(AutoTurns { server_name: String::from_str(server_name), remaining: pending })
    }
}

impl AutoTurns {
    /// Called when the delay has passed: whether to run one automated turn
    /// now. Once none is left, or the session is gone or no longer running,
    /// the sequence stops for good.
    pub fn tick(&mut self, gm: &GameStateManager) -> (r: bool)
        requires
            gm@.wf(),
        ensures
            r == (old(self).remaining > 0 && attack_allowed(gm@.sessions(), old(self).server_name@)),
            r ==> final(self).remaining == old(self).remaining - 1,
            !r ==> final(self).remaining == 0,
            final(self).server_name == old(self).server_name,
    {
        if self.remaining == 0 {
            return false;
        }
        let running = match gm.get_app_by_server_name(self.server_name.as_str()) {
            Some(app) => app.game_phase == GamePhase::Running,
            None => false,
        };
        if running {
            self.remaining = self.remaining - 1;
            true
        } else {
            self.remaining = 0;
            false
        }
    }

    pub fn is_done(&self) -> (r: bool)
        ensures
            r == (self.remaining == 0),
    {
        self.remaining == 0
    }
}

/// The sessions whose automated turns are under way; no player attacks there
/// until they are over.
pub struct AutoTurnBoard {
    pub sessions: Vec<String>,
}

impl AutoTurnBoard {
    pub open spec fn busy(&self, name: Seq<char>) -> bool {
        strings_view(self.sessions@).contains(name)
    }

    pub fn new() -> (r: AutoTurnBoard)
        ensures
            forall|n: Seq<char>| !r.busy(n),
    {
        AutoTurnBoard { sessions: Vec::new() }
    }

    pub fn is_busy(&self, name: &str) -> (r: bool)
        ensures
            r == self.busy(name@),
    {
        let mut i: usize = 0;
        while i < self.sessions.len()
            invariant
                i <= self.sessions@.len(),
                forall|j: int| 0 <= j < i ==> (#[trigger] self.sessions@[j])@ != name@,
            decreases self.sessions@.len() - i,
        {
            if text_eq(self.sessions[i].as_str(), name) {
                assert(strings_view(self.sessions@)[i as int] == name@);
                return true;
            }
            i = i + 1;
        }
        proof {
            assert forall|j: int| 0 <= j < strings_view(self.sessions@).len()
                implies #[trigger] strings_view(self.sessions@)[j] != name@ by {
                assert(strings_view(self.sessions@)[j] == self.sessions@[j]@);
            }
        }
        false
    }

    /// Records that automated turns are under way in session `name`.
    pub fn mark(&mut self, name: &str)
        ensures
            forall|n: Seq<char>| final(self).busy(n) <==> (old(self).busy(n) || n == name@),
    {
        let ghost before = strings_view(self.sessions@);
        self.sessions.push(String::from_str(name));
        proof {
            let after = strings_view(self.sessions@);
            assert(after =~= before.push(name@));
            assert forall|n: Seq<char>| after.contains(n) <==> (before.contains(n) || n == name@) by {
                if after.contains(n) {
                    let j = choose|j: int| 0 <= j < after.len() && after[j] == n;
                    if j < before.len() {
                        assert(before[j] == n);
                    }
                }
                if before.contains(n) {
                    let j = choose|j: int| 0 <= j < before.len() && before[j] == n;
                    assert(after[j] == n);
                }
                if n == name@ {
                    assert(after[before.len() as int] == n);
                }
            }
        }
    }

    /// Records that the automated turns of session `name` are over.
    pub fn release(&mut self, name: &str)
        ensures
            forall|n: Seq<char>| final(self).busy(n) <==> (old(self).busy(n) && n != name@),
    {
        let ghost before = strings_view(self.sessions@);
        let mut kept: Vec<String> = Vec::new();
        let mut i: usize = 0;
        while i < self.sessions.len()
            invariant
                i <= self.sessions@.len(),
                before == strings_view(self.sessions@),
                forall|n: Seq<char>| strings_view(kept@).contains(n)
                    <==> (before.take(i as int).contains(n) && n != name@),
            decreases self.sessions@.len() - i,
        {
            let ghost prev = strings_view(kept@);
            let ghost x = before[i as int];
            proof {
                assert(x == self.sessions@[i as int]@);
                assert(before.take(i as int + 1) =~= before.take(i as int).push(x));
                assert forall|n: Seq<char>| before.take(i as int).push(x).contains(n)
                    <==> (before.take(i as int).contains(n) || n == x) by {
                    let t = before.take(i as int);
                    let u = t.push(x);
                    if u.contains(n) {
                        let j = choose|j: int| 0 <= j < u.len() && u[j] == n;
                        if j < t.len() {
                            assert(t[j] == n);
                        }
                    }
                    if t.contains(n) {
                        let j = choose|j: int| 0 <= j < t.len() && t[j] == n;
                        assert(u[j] == n);
                    }
                    if n == x {
                        assert(u[t.len() as int] == n);
                    }
                }
            }
            if !text_eq(self.sessions[i].as_str(), name) {
                kept.push(self.sessions[i].clone());
                proof {
                    assert(strings_view(kept@) =~= prev.push(x));
                    assert forall|n: Seq<char>| prev.push(x).contains(n) <==> (prev.contains(n) || n == x) by {
                        let u = prev.push(x);
                        if u.contains(n) {
                            let j = choose|j: int| 0 <= j < u.len() && u[j] == n;
                            if j < prev.len() {
                                assert(prev[j] == n);
                            }
                        }
                        if prev.contains(n) {
                            let j = choose|j: int| 0 <= j < prev.len() && prev[j] == n;
                            assert(u[j] == n);
                        }
                        if n == x {
                            assert(u[prev.len() as int] == n);
                        }
                    }
                }
            }
            proof {
                assert forall|n: Seq<char>| strings_view(kept@).contains(n)
                    <==> (before.take(i as int + 1).contains(n) && n != name@) by {
                    assert(prev.contains(n) <==> (before.take(i as int).contains(n) && n != name@));
                    assert(before.take(i as int + 1).contains(n) <==> (before.take(i as int).contains(n) || n == x));
                }
            }
            i = i + 1;
        }
        proof {
            assert(before.take(before.len() as int) =~= before);
        }
        self.sessions = kept;
    }
}

/// Whether a player may attack in session `server_name` now: it is live and
/// running, and no automated turns are under way there.
pub fn player_may_attack(board: &AutoTurnBoard, gm: &GameStateManager, server_name: &str) -> (r: bool)
    requires
        gm@.wf(),
    ensures
        r == (attack_allowed(gm@.sessions(), server_name@) && !board.busy(server_name@)),
{
    if board.is_busy(server_name) {
        return false;
    }
    match gm.get_app_by_server_name(server_name) {
        Some(app) => app.game_phase == GamePhase::Running,
        None => false,
    }
}

impl AutoTurnBoard {
    /// After an attack on session `server_name` that left `pending` automated
    /// turns: a player's attack starts them and marks the session; an
    /// automated turn starts none.
    pub fn after_attack(&mut self, server_name: &str, pending: u32, by_player: bool) -> (r: Option<AutoTurns>)
        ensures
            match r {
                Some(t) => by_player && pending > 0 && t.server_name@ == server_name@ && t.remaining == pending,
                None => !(by_player && pending > 0),
            },
            forall|n: Seq<char>| final(self).busy(n) <==> (old(self).busy(n) || (r is Some && n == server_name@)),
    {
        if !by_player {
            return None;
        }
        let r = process_ennemy_atk(server_name, pending);
        if r.is_some() {
            self.mark(server_name);
        }
        r
    }

    /// Called when the delay has passed: whether to run one automated turn
    /// of `turns` now. Once not, the sequence is over and its session is
    /// released.
    pub fn next_turn(&mut self, turns: &mut AutoTurns, gm: &GameStateManager) -> (r: bool)
        requires
            gm@.wf(),
        ensures
            r == (old(turns).remaining > 0 && attack_allowed(gm@.sessions(), old(turns).server_name@)),
            r ==> final(turns).remaining == old(turns).remaining - 1,
            !r ==> final(turns).remaining == 0,
            final(turns).server_name == old(turns).server_name,
            forall|n: Seq<char>| final(self).busy(n) <==> if r {
                old(self).busy(n)
            } else {
                old(self).busy(n) && n != old(turns).server_name@
            },
    {
        let go = turns.tick(gm);
        if !go {
            self.release(turns.server_name.as_str());
        }
        go
    }
}

} // verus!

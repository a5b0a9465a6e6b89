//! The file a session is saved to: the word for its phase, a line break, and
//! the engine's serialized state, which is kept as it is.
use vstd::prelude::*;
use vstd::string::*;
use crate::assoc::text_eq;
use crate::game_state::GamePhase;

verus! {

pub open spec fn phase_word(p: GamePhase) -> Seq<char> {
    match p {
        GamePhase::Default => seq!['D', 'e', 'f', 'a', 'u', 'l', 't'],
        GamePhase::InitGame => seq!['I', 'n', 'i', 't', 'G', 'a', 'm', 'e'],
        GamePhase::Running => seq!['R', 'u', 'n', 'n', 'i', 'n', 'g'],
        GamePhase::Ended => seq!['E', 'n', 'd', 'e', 'd'],
    }
}

/// The saved form of a session in phase `p` whose engine state is `blob`.
pub open spec fn encoded(p: GamePhase, blob: Seq<char>) -> Seq<char> {
    phase_word(p) + seq!['\n'] + blob
}

proof fn lemma_phase_word_one_line(p: GamePhase)
    ensures
        forall|j: int| 0 <= j < phase_word(p).len() ==> phase_word(p)[j] != '\n',
{
}

pub fn phase_name(p: GamePhase) -> (r: &'static str)
    ensures
        r@ == phase_word(p),
{
    match p {
        GamePhase::Default => {
            proof {
                reveal_strlit("Default");
            }
            assert("Default"@ =~= phase_word(p));
            "Default"
        },
        GamePhase::InitGame => {
            proof {
                reveal_strlit("InitGame");
            }
            assert("InitGame"@ =~= phase_word(p));
            "InitGame"
        },
        GamePhase::Running => {
            proof {
                reveal_strlit("Running");
            }
            assert("Running"@ =~= phase_word(p));
            "Running"
        },
        GamePhase::Ended => {
            proof {
                reveal_strlit("Ended");
            }
            assert("Ended"@ =~= phase_word(p));
            "Ended"
        },
    }
}

/// The saved form of a session in phase `phase` whose engine state is `game_state`.
pub fn encode_snapshot(phase: GamePhase, game_state: &str) -> (r: String)
    ensures
        r@ == encoded(phase, game_state@),
{
    let mut r = String::from_str(phase_name(phase));
    proof {
        reveal_strlit("\n");
    }
    r.append("\n");
    r.append(game_state);
    r
}

/// Reads a saved session back: its phase and the engine's state. `None`
/// exactly when `text` is not the saved form of any session.
pub fn decode_snapshot(text: &str) -> (r: Option<(GamePhase, String)>)
    ensures
        match r {
            Some((p, blob)) => text@ == encoded(p, blob@),
            None => forall|p: GamePhase, b: Seq<char>| text@ != #[trigger] encoded(p, b),
        },
        r is Some <==> decodable(text@),
        r matches Some((p, blob)) ==> decoded(text@) == (p, blob@),
{
    let n = text.unicode_len();
    let mut i: usize = 0;
    while i < n
        invariant
            n == text@.len(),
            i <= n,
            forall|j: int| 0 <= j < i ==> text@[j] != '\n',
        ensures
            n == text@.len(),
            i <= n,
            forall|j: int| 0 <= j < i ==> text@[j] != '\n',
            i < n ==> text@[i as int] == '\n',
        decreases n - i,
    {
        if text.get_char(i) == '\n' {
            break;
        }
        i = i + 1;
    }
    if i == n {
        proof {
            assert forall|p: GamePhase, b: Seq<char>| text@ != #[trigger] encoded(p, b) by {
                if text@ == encoded(p, b) {
                    assert(text@[phase_word(p).len() as int] == '\n');
                }
            }
        }
        return None;
    }
    let head = text.substring_char(0, i);
    let rest = text.substring_char(i + 1, n);
    proof {
        assert(text@ =~= head@ + seq!['\n'] + rest@);
        assert forall|p: GamePhase, b: Seq<char>| text@ == #[trigger] encoded(p, b) implies head@
            == phase_word(p) && rest@ == b by {
            lemma_phase_word_one_line(p);
            let w = phase_word(p).len() as int;
            assert(text@[w] == '\n');
            if (i as int) < w {
                assert(text@[i as int] == phase_word(p)[i as int]);
            }
            assert(head@ =~= phase_word(p));
            assert(rest@ =~= b);
        }
    }
    let phase = if text_eq(head, phase_name(GamePhase::Default)) {
        GamePhase::Default
    } else if text_eq(head, phase_name(GamePhase::InitGame)) {
        GamePhase::InitGame
    } else if text_eq(head, phase_name(GamePhase::Running)) {
        GamePhase::Running
    } else if text_eq(head, phase_name(GamePhase::Ended)) {
        GamePhase::Ended
    } else {
        return None;
    };
    let blob = String::from_str(rest);
    proof {
        lemma_decoded(phase, blob@);
    }
    Some((phase, blob))
}

/// `text` is the saved form of some session.
pub open spec fn decodable(text: Seq<char>) -> bool {
    exists|p: GamePhase, b: Seq<char>| text == #[trigger] encoded(p, b)
}

/// The phase and engine state that `text` is the saved form of.
pub open spec fn decoded(text: Seq<char>) -> (GamePhase, Seq<char>) {
    choose|pb: (GamePhase, Seq<char>)| text == encoded(pb.0, pb.1)
}

/// Reading a saved session back gives the phase and the engine state it was
/// saved with.
pub proof fn lemma_decoded(p: GamePhase, blob: Seq<char>)
    ensures
        decodable(encoded(p, blob)),
        decoded(encoded(p, blob)) == (p, blob),
{
    let t = encoded(p, blob);
    assert(t == encoded((p, blob).0, (p, blob).1));
    let pb = decoded(t);
    lemma_snapshot_round_trip(p, blob, pb.0, pb.1);
}

/// Two sessions with the same saved form have the same phase and engine state.
pub proof fn lemma_snapshot_round_trip(p: GamePhase, blob: Seq<char>, q: GamePhase, b: Seq<char>)
    requires
        encoded(q, b) == encoded(p, blob),
    ensures
        q == p,
        b == blob,
{
    lemma_phase_word_one_line(p);
    lemma_phase_word_one_line(q);
    let wp = phase_word(p).len() as int;
    let wq = phase_word(q).len() as int;
    let t = encoded(p, blob);
    assert(t[wp] == '\n');
    assert(encoded(q, b)[wq] == '\n');
    if wq < wp {
        assert(t[wq] == phase_word(p)[wq]);
    }
    if wp < wq {
        assert(encoded(q, b)[wp] == phase_word(q)[wp]);
    }
    assert(phase_word(q) =~= t.subrange(0, wq));
    assert(phase_word(p) =~= t.subrange(0, wp));
    assert(b =~= t.subrange(wq + 1, t.len() as int));
    assert(blob =~= t.subrange(wp + 1, t.len() as int));
}

} // verus!

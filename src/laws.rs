//! Properties that relate several calls of the router.
use vstd::prelude::*;
use crate::event::{
    attack_allowed, attack_applied, character_allowed, character_chosen, disconnected, joined,
    loaded, notify, save_of, AttackOutcomeView, ServerEventView, SaveRequestView,
};
use crate::game_state::{
    entry_of, members, roster_after_removal, roster_has_id, with_id, without_id, without_server,
    ApplicationView, GameStateManagerView, OnGoingGameView, PlayerInfoView, ServerDataView,
};
use crate::assoc::{key_index, lemma_index};
use crate::game_state::{lemma_sessions_wf, lemma_with_id_distinct};
use crate::snapshot::lemma_decoded;

verus! {

/// Every choice replaces what the player had: after it the player has that
/// one character, whatever came before, and further choices stay allowed. So
/// after any number of choices only the last one is kept.
pub proof fn lemma_choice_overwrites(
    o: GameStateManagerView,
    n: GameStateManagerView,
    name: Seq<char>,
    player: Seq<char>,
    character: Seq<char>,
)
    requires
        character_allowed(o, name),
        character_chosen(o, n, name, player, character),
    ensures
        character_allowed(n, name),
        n.sessions()[name].roster().contains_key(player),
        n.sessions()[name].roster()[player].character_names == seq![character],
{
    assert(n.sessions().contains_key(name));
}

/// Choices stay allowed along any run of choices that starts allowed.
proof fn lemma_choices_stay_allowed(
    states: Seq<GameStateManagerView>,
    chars: Seq<Seq<char>>,
    name: Seq<char>,
    player: Seq<char>,
    k: int,
)
    requires
        states.len() == chars.len() + 1,
        0 <= k < states.len(),
        character_allowed(states[0], name),
        forall|i: int| 0 <= i < chars.len()
            ==> character_chosen(#[trigger] states[i], states[i + 1], name, player, chars[i]),
    ensures
        character_allowed(states[k], name),
    decreases k,
{
    if k > 0 {
        lemma_choices_stay_allowed(states, chars, name, player, k - 1);
        assert(character_chosen(states[k - 1], states[k], name, player, chars[k - 1]));
        lemma_choice_overwrites(states[k - 1], states[k], name, player, chars[k - 1]);
    }
}

/// After any number of choices in a row by one player, in a session in the
/// lobby or running, the player has the last character chosen and no other.
pub proof fn lemma_choices_keep_last(
    states: Seq<GameStateManagerView>,
    chars: Seq<Seq<char>>,
    name: Seq<char>,
    player: Seq<char>,
)
    requires
        chars.len() >= 1,
        states.len() == chars.len() + 1,
        character_allowed(states[0], name),
        forall|i: int| 0 <= i < chars.len()
            ==> character_chosen(#[trigger] states[i], states[i + 1], name, player, chars[i]),
    ensures
        states.last().sessions()[name].roster()[player].character_names == seq![chars.last()],
{
    let n = chars.len() - 1;
    lemma_choices_stay_allowed(states, chars, name, player, n);
    assert(character_chosen(states[n], states[n + 1], name, player, chars[n]));
    lemma_choice_overwrites(states[n], states[n + 1], name, player, chars[n]);
}

/// A player who chooses characters one after another keeps only the last
/// one chosen.
pub proof fn lemma_last_character_choice_kept(
    o: GameStateManagerView,
    m: GameStateManagerView,
    n: GameStateManagerView,
    name: Seq<char>,
    player: Seq<char>,
    first: Seq<char>,
    second: Seq<char>,
)
    requires
        character_allowed(o, name),
        character_chosen(o, m, name, player, first),
        character_chosen(m, n, name, player, second),
    ensures
        character_allowed(m, name),
        n.sessions()[name].roster().contains_key(player),
        n.sessions()[name].roster()[player].character_names == seq![second],
        n.sessions()[name].roster()[player].player_ids == entry_of(o.sessions()[name].roster(), player).player_ids,
{
    assert(m.sessions().contains_key(name));
    assert(m.sessions()[name].roster()[player].player_ids == entry_of(o.sessions()[name].roster(), player).player_ids);
}

/// An attack on one session leaves every other session as it was, and
/// attacks on two different sessions give the same store in either order.
pub proof fn lemma_attacks_on_distinct_sessions_commute(
    m: Map<Seq<char>, ServerDataView>,
    a: Seq<char>,
    oa: AttackOutcomeView,
    b: Seq<char>,
    ob: AttackOutcomeView,
)
    requires
        a != b,
    ensures
        attack_applied(m, a, oa).remove(a) == m.remove(a),
        attack_applied(attack_applied(m, a, oa), b, ob) == attack_applied(attack_applied(m, b, ob), a, oa),
{
    let ma = attack_applied(m, a, oa);
    let mb = attack_applied(m, b, ob);
    assert(ma.remove(a) =~= m.remove(a));
    assert(attack_allowed(ma, b) == attack_allowed(m, b));
    assert(attack_allowed(mb, a) == attack_allowed(m, a));
    assert(attack_applied(ma, b, ob) =~= attack_applied(mb, a, oa));
}

/// The connections of `live` that belong to roster `s` are exactly those that
/// some entry of `s` holds.
pub proof fn lemma_members(live: Seq<u32>, s: Seq<(Seq<char>, PlayerInfoView)>)
    ensures
        forall|c: u32| #[trigger] members(live, s).contains(c) <==> (live.contains(c) && roster_has_id(s, c)),
    decreases live.len(),
{
    if live.len() > 0 {
        let t = live.drop_last();
        lemma_members(t, s);
        assert forall|c: u32| #[trigger] members(live, s).contains(c) <==> (live.contains(c) && roster_has_id(s, c)) by {
            let w = members(t, s);
            assert(live.contains(c) <==> (t.contains(c) || c == live.last())) by {
                if live.contains(c) {
                    let i = choose|i: int| 0 <= i < live.len() && live[i] == c;
                    if i < live.len() - 1 {
                        assert(t[i] == c);
                    }
                }
                if t.contains(c) {
                    let i = choose|i: int| 0 <= i < t.len() && t[i] == c;
                    assert(live[i] == c);
                }
                if c == live.last() {
                    assert(live[live.len() - 1] == c);
                }
            }
            if roster_has_id(s, live.last()) {
                let u = w.push(live.last());
                if u.contains(c) {
                    let i = choose|i: int| 0 <= i < u.len() && u[i] == c;
                    if i < w.len() {
                        assert(w[i] == c);
                    }
                }
                if w.contains(c) {
                    let i = choose|i: int| 0 <= i < w.len() && w[i] == c;
                    assert(u[i] == c);
                }
                if c == live.last() {
                    assert(u[w.len() as int] == c);
                }
            }
        }
    }
}

/// The members of a roster among connections that are each open once are
/// each listed once.
pub proof fn lemma_members_distinct(live: Seq<u32>, s: Seq<(Seq<char>, PlayerInfoView)>)
    requires
        live.no_duplicates(),
    ensures
        members(live, s).no_duplicates(),
    decreases live.len(),
{
    if live.len() > 0 {
        let t = live.drop_last();
        assert(t.no_duplicates()) by {
            assert forall|i: int, j: int| 0 <= i < t.len() && 0 <= j < t.len() && i != j implies t[i] != t[j] by {
                assert(live[i] == t[i] && live[j] == t[j]);
            }
        }
        lemma_members_distinct(t, s);
        lemma_members(t, s);
        if roster_has_id(s, live.last()) {
            let w = members(t, s);
            assert(!t.contains(live.last())) by {
                if t.contains(live.last()) {
                    let i = choose|i: int| 0 <= i < t.len() && t[i] == live.last();
                    assert(live[i] == live[live.len() - 1]);
                }
            }
            assert(!w.contains(live.last()));
            let u = w.push(live.last());
            assert forall|i: int, j: int| 0 <= i < u.len() && 0 <= j < u.len() && i != j implies u[i] != u[j] by {
                if i < w.len() && j < w.len() {
                } else if i < w.len() {
                    assert(w.contains(w[i]));
                } else {
                    assert(w.contains(w[j]));
                }
            }
        }
    }
}

/// No index entry of session `name` is left once its entries are taken out.
pub proof fn lemma_without_server(s: Seq<OnGoingGameView>, name: Seq<char>)
    ensures
        forall|i: int| 0 <= i < without_server(s, name).len() ==> (#[trigger] without_server(s, name)[i]).server_name != name,
    decreases s.len(),
{
    if s.len() > 0 {
        let t = s.drop_last();
        lemma_without_server(t, name);
        let w = without_server(t, name);
        if s.last().server_name == name {
            assert(without_server(s, name) == w);
        } else {
            assert(without_server(s, name) == w.push(s.last()));
            assert forall|i: int| 0 <= i < w.push(s.last()).len() implies (#[trigger] w.push(s.last())[i]).server_name != name by {
                if i < w.len() {
                    assert(w.push(s.last())[i] == w[i]);
                }
            }
        }
    }
}

/// When the owner leaves a session with no connection left, the session
/// leaves the store and the index, and every open connection of its roster,
/// the owner's and the other players', is told it ended: once each when the
/// open connections are distinct, and no other connection is told.
pub proof fn lemma_owner_leaving_ends_session(
    o: GameStateManagerView,
    n: GameStateManagerView,
    live: Seq<u32>,
    msgs: Seq<(u32, ServerEventView)>,
    name: Seq<char>,
    owner: Seq<char>,
    id: u32,
)
    requires
        disconnected(o, n, live, msgs, name, owner, id),
        o.sessions().contains_key(name),
        o.sessions()[name].owner_player_name == owner,
        !roster_after_removal(o.sessions()[name].roster(), owner, id).contains_key(owner),
    ensures
        !n.sessions().contains_key(name),
        forall|i: int| 0 <= i < n.ongoing_games.len() ==> (#[trigger] n.ongoing_games[i]).server_name != name,
        forall|c: u32| live.contains(c) && roster_has_id(o.sessions()[name].players_info, c)
            ==> #[trigger] msgs.contains((c, ServerEventView::EndOfServerData)),
        forall|i: int| 0 <= i < msgs.len() && (#[trigger] msgs[i]).1 == ServerEventView::EndOfServerData
            ==> live.contains(msgs[i].0) && roster_has_id(o.sessions()[name].players_info, msgs[i].0),
        live.no_duplicates() ==> forall|i: int, j: int|
            0 <= i < msgs.len() && 0 <= j < msgs.len() && i != j
            && (#[trigger] msgs[i]).1 == ServerEventView::EndOfServerData && #[trigger] msgs[j] == msgs[i]
            ==> false,
{
    let s = o.sessions()[name];
    lemma_without_server(o.ongoing_games, name);
    lemma_members(live, s.players_info);
    let ids = members(live, s.players_info);
    let ended = notify(ids, ServerEventView::EndOfServerData);
    assert forall|c: u32| live.contains(c) && roster_has_id(s.players_info, c)
        implies #[trigger] msgs.contains((c, ServerEventView::EndOfServerData)) by {
        assert(ids.contains(c));
        let i = choose|i: int| 0 <= i < ids.len() && ids[i] == c;
        assert(ended[i] == (c, ServerEventView::EndOfServerData));
        assert(msgs[i] == ended[i]);
    }
    let rest = notify(live, ServerEventView::UpdateOngoingGames(n.ongoing_games));
    assert forall|i: int| 0 <= i < msgs.len() && (#[trigger] msgs[i]).1 == ServerEventView::EndOfServerData
        implies live.contains(msgs[i].0) && roster_has_id(s.players_info, msgs[i].0) by {
        if i < ended.len() {
            assert(msgs[i] == ended[i]);
            assert(ids.contains(ids[i]));
        } else {
            assert(msgs[i] == rest[i - ended.len()]);
        }
    }
    if live.no_duplicates() {
        lemma_members_distinct(live, s.players_info);
        assert forall|i: int, j: int|
            0 <= i < msgs.len() && 0 <= j < msgs.len() && i != j
            && (#[trigger] msgs[i]).1 == ServerEventView::EndOfServerData && #[trigger] msgs[j] == msgs[i]
            implies false by {
            if i >= ended.len() {
                assert(msgs[i] == rest[i - ended.len()]);
            } else if j >= ended.len() {
                assert(msgs[j] == rest[j - ended.len()]);
            } else {
                assert(msgs[i] == ended[i] && msgs[j] == ended[j]);
                assert(ids[i] == ids[j]);
            }
        }
    }
}

/// When a player other than the owner leaves, the session stays live, the
/// other entries stay as they were, and the player's entry goes only once it
/// holds no connection.
pub proof fn lemma_player_leaving_keeps_session(
    o: GameStateManagerView,
    n: GameStateManagerView,
    live: Seq<u32>,
    msgs: Seq<(u32, ServerEventView)>,
    name: Seq<char>,
    player: Seq<char>,
    id: u32,
)
    requires
        disconnected(o, n, live, msgs, name, player, id),
        o.sessions().contains_key(name),
        o.sessions()[name].owner_player_name != player,
    ensures
        n.sessions().contains_key(name),
        n.sessions()[name].roster().remove(player) == o.sessions()[name].roster().remove(player),
        o.sessions()[name].roster().contains_key(player) ==> {
            let left = without_id(o.sessions()[name].roster()[player].player_ids, id);
            &&& left.len() == 0 ==> !n.sessions()[name].roster().contains_key(player)
            &&& left.len() > 0 ==> n.sessions()[name].roster().contains_key(player)
                && n.sessions()[name].roster()[player].player_ids == left
        },
{
    let r = o.sessions()[name].roster();
    assert(n.sessions()[name].roster().remove(player) =~= r.remove(player));
}

/// Joining a session twice on the same connection changes nothing the second
/// time: the player has one entry, which holds the connection once.
pub proof fn lemma_join_twice(
    o: GameStateManagerView,
    m: GameStateManagerView,
    n: GameStateManagerView,
    name: Seq<char>,
    player: Seq<char>,
    id: u32,
)
    requires
        o.wf(),
        o.sessions().contains_key(name),
        joined(o, m, name, player, id),
        joined(m, n, name, player, id),
    ensures
        n.sessions()[name].roster() == m.sessions()[name].roster(),
        n.sessions()[name].roster().contains_key(player),
        n.sessions()[name].roster()[player].player_ids.contains(id),
        n.sessions()[name].roster()[player].player_ids.no_duplicates(),
{
    lemma_sessions_wf(o);
    let sr = o.sessions()[name].roster();
    if sr.contains_key(player) {
        let j = key_index(o.sessions()[name].players_info, player);
        lemma_index(o.sessions()[name].players_info, j);
    }
    assert(entry_of(sr, player).player_ids.no_duplicates());
    let r = m.sessions()[name].roster();
    let ids = entry_of(o.sessions()[name].roster(), player).player_ids;
    assert(r[player].player_ids == with_id(ids, id));
    lemma_with_id_distinct(ids, id);
    assert(entry_of(r, player).player_ids == with_id(ids, id));
    assert(with_id(with_id(ids, id), id) == with_id(ids, id));
    assert(n.sessions()[name].roster() =~= r);
}

/// A session saved to a file and loaded back from it has the engine state and
/// the phase it was saved with.
pub proof fn lemma_save_then_load(
    app: ApplicationView,
    file_name: Seq<char>,
    o: GameStateManagerView,
    n: GameStateManagerView,
    live: Seq<u32>,
    msgs: Seq<(u32, ServerEventView)>,
    saves: Seq<SaveRequestView>,
    player: Seq<char>,
    id: u32,
    name: Seq<char>,
)
    requires
        loaded(o, n, live, msgs, saves, app.game_dir, save_of(app, file_name).contents, player, id, name),
    ensures
        n.sessions().contains_key(name),
        n.sessions()[name].app.game_state == app.game_state,
        n.sessions()[name].app.game_phase == app.game_phase,
        n.sessions()[name].app.game_dir == app.game_dir,
{
    lemma_decoded(app.game_phase, app.game_state);
}

} // verus!

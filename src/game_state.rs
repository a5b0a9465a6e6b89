//! The session store: connected players, live sessions with their rosters,
//! and the index of sessions that can be resumed.
use vstd::prelude::*;
use vstd::string::*;
use crate::assoc::{
    find_key, has_key, key_index, keys_unique, lemma_absent, lemma_index, lemma_push, lemma_remove,
    lemma_update, text_eq, to_map,
};

verus! {

/// Coarse lifecycle stage of a session.
#[derive(Clone, Copy, Debug, PartialEq, Eq, Structural)]
pub enum GamePhase {
    Default,
    InitGame,
    Running,
    Ended,
}

pub open spec fn strings_view(s: Seq<String>) -> Seq<Seq<char>> {
    s.map_values(|x: String| x@)
}

/// `ids` with `id` added, unless it is already there.
pub open spec fn with_id(ids: Seq<u32>, id: u32) -> Seq<u32> {
    if ids.contains(id) {
        ids
    } else {
        ids.push(id)
    }
}

/// `ids` with every occurrence of `id` taken out.
pub open spec fn without_id(ids: Seq<u32>, id: u32) -> Seq<u32>
    decreases ids.len(),
{
    if ids.len() == 0 {
        ids
    } else if ids.last() == id {
        without_id(ids.drop_last(), id)
    } else {
        without_id(ids.drop_last(), id).push(ids.last())
    }
}

/// What one player has in one session: the chosen characters and the live
/// connections acting as that player.
pub struct PlayerInfo {
    pub character_names: Vec<String>,
    pub player_ids: Vec<u32>,
}

pub struct PlayerInfoView {
    pub character_names: Seq<Seq<char>>,
    pub player_ids: Seq<u32>,
}

impl View for PlayerInfo {
    type V = PlayerInfoView;

    open spec fn view(&self) -> PlayerInfoView {
        PlayerInfoView {
            character_names: strings_view(self.character_names@),
            player_ids: self.player_ids@,
        }
    }
}

pub open spec fn no_player() -> PlayerInfoView {
    PlayerInfoView { character_names: Seq::empty(), player_ids: Seq::empty() }
}

/// The roster entry of `p`, or an empty one.
pub open spec fn entry_of(r: Map<Seq<char>, PlayerInfoView>, p: Seq<char>) -> PlayerInfoView {
    if r.contains_key(p) {
        r[p]
    } else {
        no_player()
    }
}

pub open spec fn roster_view(s: Seq<(String, PlayerInfo)>) -> Seq<(Seq<char>, PlayerInfoView)> {
    s.map_values(|e: (String, PlayerInfo)| (e.0@, e.1@))
}

/// Every character chosen in a roster, entry after entry.
pub open spec fn all_characters(s: Seq<(Seq<char>, PlayerInfoView)>) -> Seq<Seq<char>>
    decreases s.len(),
{
    if s.len() == 0 {
        Seq::empty()
    } else {
        all_characters(s.drop_last()) + s.last().1.character_names
    }
}

/// Names are unique, and each entry lists each of its connections once.
pub open spec fn roster_wf(s: Seq<(Seq<char>, PlayerInfoView)>) -> bool {
    &&& keys_unique(s)
    &&& forall|j: int| 0 <= j < s.len() ==> (#[trigger] s[j]).1.player_ids.no_duplicates()
}

/// Adding a connection that is not there keeps each connection listed once.
pub proof fn lemma_with_id_distinct(ids: Seq<u32>, id: u32)
    requires
        ids.no_duplicates(),
    ensures
        with_id(ids, id).no_duplicates(),
        with_id(ids, id).contains(id),
{
    if !ids.contains(id) {
        let u = ids.push(id);
        assert(u[ids.len() as int] == id);
        assert forall|i: int, j: int| 0 <= i < u.len() && 0 <= j < u.len() && i != j implies u[i] != u[j] by {
            if i < ids.len() && j < ids.len() {
            } else if i < ids.len() {
                assert(ids.contains(u[i]));
            } else {
                assert(ids.contains(u[j]));
            }
        }
    }
}

/// Some roster entry holds connection `id`.
pub open spec fn roster_has_id(s: Seq<(Seq<char>, PlayerInfoView)>, id: u32) -> bool {
    exists|i: int| 0 <= i < s.len() && (#[trigger] s[i]).1.player_ids.contains(id)
}

/// The state of one game, as the broker sees it: the engine's serialized
/// state, which it never reads, and the plain facts the broker decides on.
pub struct Application {
    pub game_state: String,
    pub server_name: String,
    pub game_phase: GamePhase,
    pub game_dir: String,
    pub active_characters: Vec<String>,
}

pub struct ApplicationView {
    pub game_state: Seq<char>,
    pub server_name: Seq<char>,
    pub game_phase: GamePhase,
    pub game_dir: Seq<char>,
    pub active_characters: Seq<Seq<char>>,
}

impl View for Application {
    type V = ApplicationView;

    open spec fn view(&self) -> ApplicationView {
        ApplicationView {
            game_state: self.game_state@,
            server_name: self.server_name@,
            game_phase: self.game_phase,
            game_dir: self.game_dir@,
            active_characters: strings_view(self.active_characters@),
        }
    }
}

/// One live session: its game, its roster and its owner.
pub struct ServerData {
    pub app: Application,
    pub players_info: Vec<(String, PlayerInfo)>,
    pub owner_player_name: String,
}

pub struct ServerDataView {
    pub app: ApplicationView,
    pub players_info: Seq<(Seq<char>, PlayerInfoView)>,
    pub owner_player_name: Seq<char>,
}

impl ServerDataView {
    pub open spec fn roster(self) -> Map<Seq<char>, PlayerInfoView> {
        to_map(self.players_info)
    }

    pub open spec fn wf(self) -> bool {
        roster_wf(self.players_info)
    }
}

impl View for ServerData {
    type V = ServerDataView;

    open spec fn view(&self) -> ServerDataView {
        ServerDataView {
            app: self.app@,
            players_info: roster_view(self.players_info@),
            owner_player_name: self.owner_player_name@,
        }
    }
}

/// An entry of the session index: where a session's files are, and its name.
pub struct OnGoingGame {
    pub path: String,
    pub server_name: String,
}

pub struct OnGoingGameView {
    pub path: Seq<char>,
    pub server_name: Seq<char>,
}

impl View for OnGoingGame {
    type V = OnGoingGameView;

    open spec fn view(&self) -> OnGoingGameView {
        OnGoingGameView { path: self.path@, server_name: self.server_name@ }
    }
}

pub open spec fn games_view(s: Seq<OnGoingGame>) -> Seq<OnGoingGameView> {
    s.map_values(|g: OnGoingGame| g@)
}

/// The index without the entries of session `name`.
pub open spec fn without_server(s: Seq<OnGoingGameView>, name: Seq<char>) -> Seq<OnGoingGameView>
    decreases s.len(),
{
    if s.len() == 0 {
        s
    } else if s.last().server_name == name {
        without_server(s.drop_last(), name)
    } else {
        without_server(s.drop_last(), name).push(s.last())
    }
}

pub fn copy_strings(v: &Vec<String>) -> (r: Vec<String>)
    ensures
        strings_view(r@) == strings_view(v@),
{
    let mut r: Vec<String> = Vec::new();
    let mut i: usize = 0;
    while i < v.len()
        invariant
            i <= v@.len(),
            r@.len() == i,
            forall|j: int| 0 <= j < i ==> (#[trigger] r@[j])@ == v@[j]@,
        decreases v@.len() - i,
    {
        r.push(v[i].clone());
        i = i + 1;
    }
    assert(strings_view(r@) =~= strings_view(v@));
    r
}

pub fn copy_ids(v: &Vec<u32>) -> (r: Vec<u32>)
    ensures
        r@ == v@,
{
    let mut r: Vec<u32> = Vec::new();
    let mut i: usize = 0;
    while i < v.len()
        invariant
            i <= v@.len(),
            r@ == v@.take(i as int),
        decreases v@.len() - i,
    {
        r.push(v[i]);
        i = i + 1;
        assert(r@ =~= v@.take(i as int));
    }
    assert(v@.take(v@.len() as int) =~= v@);
    r
}

pub fn contains_id(v: &Vec<u32>, id: u32) -> (r: bool)
    ensures
        r == v@.contains(id),
{
    let mut i: usize = 0;
    while i < v.len()
        invariant
            i <= v@.len(),
            forall|j: int| 0 <= j < i ==> v@[j] != id,
        decreases v@.len() - i,
    {
        if v[i] == id {
            return true;
        }
        i = i + 1;
    }
    false
}

/// `v` without `id`.
pub fn remove_id(v: &Vec<u32>, id: u32) -> (r: Vec<u32>)
    ensures
        r@ == without_id(v@, id),
{
    let mut r: Vec<u32> = Vec::new();
    let mut i: usize = 0;
    while i < v.len()
        invariant
            i <= v@.len(),
            r@ == without_id(v@.take(i as int), id),
        decreases v@.len() - i,
    {
        assert(v@.take(i as int + 1).drop_last() =~= v@.take(i as int));
        if v[i] != id {
            r.push(v[i]);
        }
        i = i + 1;
    }
    assert(v@.take(v@.len() as int) =~= v@);
    r
}

impl PlayerInfo {
    pub fn snapshot(&self) -> (r: PlayerInfo)
        ensures
            r@ == self@,
    {
        PlayerInfo {
            character_names: copy_strings(&self.character_names),
            player_ids: copy_ids(&self.player_ids),
        }
    }
}

impl Application {
    pub fn snapshot(&self) -> (r: Application)
        ensures
            r@ == self@,
    {
        Application {
            game_state: self.game_state.clone(),
            server_name: self.server_name.clone(),
            game_phase: self.game_phase,
            game_dir: self.game_dir.clone(),
            active_characters: copy_strings(&self.active_characters),
        }
    }
}

impl OnGoingGame {
    pub fn snapshot(&self) -> (r: OnGoingGame)
        ensures
            r@ == self@,
    {
        OnGoingGame { path: self.path.clone(), server_name: self.server_name.clone() }
    }
}

pub fn copy_roster(v: &Vec<(String, PlayerInfo)>) -> (r: Vec<(String, PlayerInfo)>)
    ensures
        roster_view(r@) == roster_view(v@),
{
    let mut r: Vec<(String, PlayerInfo)> = Vec::new();
    let mut i: usize = 0;
    while i < v.len()
        invariant
            i <= v@.len(),
            r@.len() == i,
            forall|j: int| 0 <= j < i ==> (#[trigger] r@[j]).0@ == v@[j].0@ && r@[j].1@ == v@[j].1@,
        decreases v@.len() - i,
    {
        r.push((v[i].0.clone(), v[i].1.snapshot()));
        i = i + 1;
    }
    assert(roster_view(r@) =~= roster_view(v@));
    r
}

pub fn copy_games(v: &Vec<OnGoingGame>) -> (r: Vec<OnGoingGame>)
    ensures
        games_view(r@) == games_view(v@),
{
    let mut r: Vec<OnGoingGame> = Vec::new();
    let mut i: usize = 0;
    while i < v.len()
        invariant
            i <= v@.len(),
            r@.len() == i,
            forall|j: int| 0 <= j < i ==> (#[trigger] r@[j])@ == v@[j]@,
        decreases v@.len() - i,
    {
        r.push(v[i].snapshot());
        i = i + 1;
    }
    assert(games_view(r@) =~= games_view(v@));
    r
}

impl ServerData {
    pub fn snapshot(&self) -> (r: ServerData)
        ensures
            r@ == self@,
    {
        ServerData {
            app: self.app.snapshot(),
            players_info: copy_roster(&self.players_info),
            owner_player_name: self.owner_player_name.clone(),
        }
    }
}

/// Adds connection `id` to the entry of `player`, creating the entry if needed.
pub fn roster_add_id(roster: &mut Vec<(String, PlayerInfo)>, player: &str, id: u32)
    requires
        roster_wf(roster_view(old(roster)@)),
    ensures
        roster_wf(roster_view(final(roster)@)),
        to_map(roster_view(final(roster)@)) == to_map(roster_view(old(roster)@)).insert(
            player@,
            PlayerInfoView {
                character_names: entry_of(to_map(roster_view(old(roster)@)), player@).character_names,
                player_ids: with_id(entry_of(to_map(roster_view(old(roster)@)), player@).player_ids, id),
            },
        ),
{
    let ghost s = roster_view(roster@);
    match find_in_roster(roster, player) {
        Some(i) => {
            proof {
                lemma_index(s, i as int);
            }
            let (name, mut info) = roster.remove(i);
            if !contains_id(&info.player_ids, id) {
                info.player_ids.push(id);
            }
            let ghost v = info@;
            roster.insert(i, (name, info));
            proof {
                assert(roster_view(roster@) =~= s.update(i as int, (s[i as int].0, v)));
                lemma_update(s, i as int, v);
            }
        },
        None => {
            let mut ids: Vec<u32> = Vec::new();
            ids.push(id);
            let info = PlayerInfo { character_names: Vec::new(), player_ids: ids };
            let ghost v = info@;
            roster.push((String::from_str(player), info));
            proof {
                assert(roster_view(roster@) =~= s.push((player@, v)));
                assert(v.character_names =~= Seq::<Seq<char>>::empty());
                assert(v.player_ids =~= seq![id]);
                assert(with_id(Seq::<u32>::empty(), id) =~= seq![id]);
                lemma_push(s, player@, v);
            }
        },
    }
}

/// Replaces the characters of `player` by `character` alone, creating the
/// entry if needed.
pub fn roster_set_character(roster: &mut Vec<(String, PlayerInfo)>, player: &str, character: &str)
    requires
        roster_wf(roster_view(old(roster)@)),
    ensures
        roster_wf(roster_view(final(roster)@)),
        to_map(roster_view(final(roster)@)) == to_map(roster_view(old(roster)@)).insert(
            player@,
            PlayerInfoView {
                character_names: seq![character@],
                player_ids: entry_of(to_map(roster_view(old(roster)@)), player@).player_ids,
            },
        ),
{
    let ghost s = roster_view(roster@);
    let mut names: Vec<String> = Vec::new();
    names.push(String::from_str(character));
    proof {
        assert(strings_view(names@) =~= seq![character@]);
    }
    match find_in_roster(roster, player) {
        Some(i) => {
            proof {
                lemma_index(s, i as int);
            }
            let (name, mut info) = roster.remove(i);
            info.character_names = names;
            let ghost v = info@;
            roster.insert(i, (name, info));
            proof {
                assert(roster_view(roster@) =~= s.update(i as int, (s[i as int].0, v)));
                lemma_update(s, i as int, v);
            }
        },
        None => {
            let info = PlayerInfo { character_names: names, player_ids: Vec::new() };
            let ghost v = info@;
            roster.push((String::from_str(player), info));
            proof {
                assert(roster_view(roster@) =~= s.push((player@, v)));
                assert(v.player_ids =~= Seq::<u32>::empty());
                lemma_push(s, player@, v);
            }
        },
    }
}

/// The roster after connection `id` of `player` is pruned: the entry goes
/// once it holds no connection.
pub open spec fn roster_after_removal(
    r: Map<Seq<char>, PlayerInfoView>,
    player: Seq<char>,
    id: u32,
) -> Map<Seq<char>, PlayerInfoView> {
    if !r.contains_key(player) {
        r
    } else if without_id(r[player].player_ids, id).len() == 0 {
        r.remove(player)
    } else {
        r.insert(
            player,
            PlayerInfoView {
                character_names: r[player].character_names,
                player_ids: without_id(r[player].player_ids, id),
            },
        )
    }
}

/// Prunes connection `id` from the entry of `player`.
pub fn roster_remove_id(roster: &mut Vec<(String, PlayerInfo)>, player: &str, id: u32)
    requires
        roster_wf(roster_view(old(roster)@)),
    ensures
        roster_wf(roster_view(final(roster)@)),
        to_map(roster_view(final(roster)@)) == roster_after_removal(
            to_map(roster_view(old(roster)@)),
            player@,
            id,
        ),
{
    let ghost s = roster_view(roster@);
    match find_in_roster(roster, player) {
        Some(i) => {
            proof {
                lemma_index(s, i as int);
            }
            let (name, mut info) = roster.remove(i);
            info.player_ids = remove_id(&info.player_ids, id);
            proof {
                crate::registry::lemma_without_id(s[i as int].1.player_ids, id);
                assert forall|j: int| 0 <= j < s.len() - 1 implies (#[trigger] s.remove(i as int)[j]).1.player_ids.no_duplicates() by {
                    if j < i {
                        assert(s.remove(i as int)[j] == s[j]);
                    } else {
                        assert(s.remove(i as int)[j] == s[j + 1]);
                    }
                }
            }
            if info.player_ids.len() == 0 {
                proof {
                    assert(roster_view(roster@) =~= s.remove(i as int));
                    lemma_remove(s, i as int);
                }
            } else {
                let ghost v = info@;
                roster.insert(i, (name, info));
                proof {
                    assert(roster_view(roster@) =~= s.update(i as int, (s[i as int].0, v)));
                    lemma_update(s, i as int, v);
                }
            }
        },
        None => {},
    }
}

/// The active combatants: every roster entry's characters, in roster order.
pub fn collect_characters(roster: &Vec<(String, PlayerInfo)>) -> (r: Vec<String>)
    ensures
        strings_view(r@) == all_characters(roster_view(roster@)),
{
    let ghost s = roster_view(roster@);
    let mut r: Vec<String> = Vec::new();
    let mut i: usize = 0;
    while i < roster.len()
        invariant
            i <= roster@.len(),
            s == roster_view(roster@),
            strings_view(r@) == all_characters(s.take(i as int)),
        decreases roster@.len() - i,
    {
        let ghost base = strings_view(r@);
        let ghost names = s[i as int].1.character_names;
        let mut k: usize = 0;
        while k < roster[i].1.character_names.len()
            invariant
                i < roster@.len(),
                s == roster_view(roster@),
                names == strings_view(roster@[i as int].1.character_names@),
                k <= names.len(),
                strings_view(r@) == base + names.take(k as int),
            decreases names.len() - k,
        {
            let ghost prev = r@;
            let c = roster[i].1.character_names[k].clone();
            assert(c@ == names[k as int]);
            r.push(c);
            assert(strings_view(r@) =~= strings_view(prev).push(c@));
            assert(names.take(k as int + 1) =~= names.take(k as int).push(names[k as int]));
            k = k + 1;
            assert(strings_view(r@) =~= base + names.take(k as int));
        }
        proof {
            assert(s.take(i as int + 1).drop_last() =~= s.take(i as int));
            assert(names.take(k as int) =~= names);
        }
        i = i + 1;
    }
    assert(s.take(roster@.len() as int) =~= s);
    r
}

/// Whether some roster entry holds connection `id`.
pub fn roster_contains_id(roster: &Vec<(String, PlayerInfo)>, id: u32) -> (r: bool)
    ensures
        r == roster_has_id(roster_view(roster@), id),
{
    let ghost s = roster_view(roster@);
    let mut i: usize = 0;
    while i < roster.len()
        invariant
            i <= roster@.len(),
            s == roster_view(roster@),
            forall|j: int| 0 <= j < i ==> !(#[trigger] s[j]).1.player_ids.contains(id),
        decreases roster@.len() - i,
    {
        if contains_id(&roster[i].1.player_ids, id) {
            assert(s[i as int].1.player_ids.contains(id));
            return true;
        }
        i = i + 1;
    }
    false
}

/// The live connections, in registry order, that belong to a roster.
pub open spec fn members(live: Seq<u32>, s: Seq<(Seq<char>, PlayerInfoView)>) -> Seq<u32>
    decreases live.len(),
{
    if live.len() == 0 {
        live
    } else if roster_has_id(s, live.last()) {
        members(live.drop_last(), s).push(live.last())
    } else {
        members(live.drop_last(), s)
    }
}

/// The recipients of a session's broadcast.
pub fn roster_recipients(roster: &Vec<(String, PlayerInfo)>, live: &Vec<u32>) -> (r: Vec<u32>)
    ensures
        r@ == members(live@, roster_view(roster@)),
{
    let mut r: Vec<u32> = Vec::new();
    let mut i: usize = 0;
    while i < live.len()
        invariant
            i <= live@.len(),
            r@ == members(live@.take(i as int), roster_view(roster@)),
        decreases live@.len() - i,
    {
        assert(live@.take(i as int + 1).drop_last() =~= live@.take(i as int));
        if roster_contains_id(roster, live[i]) {
            r.push(live[i]);
        }
        i = i + 1;
    }
    assert(live@.take(live@.len() as int) =~= live@);
    r
}

/// Where `player` is in a roster; `None` exactly when it has no entry.
pub fn find_in_roster(roster: &Vec<(String, PlayerInfo)>, player: &str) -> (r: Option<usize>)
    requires
        keys_unique(roster_view(roster@)),
    ensures
        match r {
            Some(i) => i < roster@.len() && roster@[i as int].0@ == player@
                && to_map(roster_view(roster@)).contains_key(player@),
            None => !to_map(roster_view(roster@)).contains_key(player@),
        },
{
    let ghost s = roster_view(roster@);
    let r = find_key(roster, player);
    proof {
        match r {
            Some(i) => lemma_index(s, i as int),
            None => {
                assert forall|j: int| 0 <= j < s.len() implies (#[trigger] s[j]).0 != player@ by {
                    assert(s[j].0 == roster@[j].0@);
                }
                lemma_absent(s, player@);
            },
        }
    }
    r
}

impl GameStateManager {
    /// Where session `name` is in the store; `None` exactly when it is not live.
    pub fn find_session(&self, name: &str) -> (r: Option<usize>)
        requires
            self@.wf(),
        ensures
            match r {
                Some(i) => i < self.servers_data@.len() && self.servers_data@[i as int].0@ == name@
                    && self@.sessions().contains_key(name@),
                None => !self@.sessions().contains_key(name@),
            },
    {
        let ghost s = sessions_view(self.servers_data@);
        let r = find_key(&self.servers_data, name);
        proof {
            match r {
                Some(i) => lemma_index(s, i as int),
                None => {
                    assert forall|j: int| 0 <= j < s.len() implies (#[trigger] s[j]).0 != name@ by {
                        assert(s[j].0 == self.servers_data@[j].0@);
                    }
                    lemma_absent(s, name@);
                },
            }
        }
        r
    }

    /// Where player `name` is in the directory; `None` exactly when it has no entry.
    pub fn find_player(&self, name: &str) -> (r: Option<usize>)
        requires
            self@.wf(),
        ensures
            match r {
                Some(i) => i < self.players@.len() && self.players@[i as int].0@ == name@
                    && self@.directory().contains_key(name@),
                None => !self@.directory().contains_key(name@),
            },
    {
        let ghost s = directory_view(self.players@);
        let r = find_key(&self.players, name);
        proof {
            match r {
                Some(i) => lemma_index(s, i as int),
                None => {
                    assert forall|j: int| 0 <= j < s.len() implies (#[trigger] s[j]).0 != name@ by {
                        assert(s[j].0 == self.players@[j].0@);
                    }
                    lemma_absent(s, name@);
                },
            }
        }
        r
    }
}

pub open spec fn directory_view(s: Seq<(String, Vec<u32>)>) -> Seq<(Seq<char>, Seq<u32>)> {
    s.map_values(|e: (String, Vec<u32>)| (e.0@, e.1@))
}

pub open spec fn sessions_view(s: Seq<(String, ServerData)>) -> Seq<(Seq<char>, ServerDataView)> {
    s.map_values(|e: (String, ServerData)| (e.0@, e.1@))
}

/// The shared store: the player directory, the session index, the live
/// sessions, and the list of saved games last read from storage.
pub struct GameStateManager {
    /// For each player, the connections acting as that player.
    pub players: Vec<(String, Vec<u32>)>,
    /// Sessions that can be resumed, with where their files are.
    pub ongoing_games: Vec<OnGoingGame>,
    /// Live sessions by name.
    pub servers_data: Vec<(String, ServerData)>,
    pub saved_games_list: Vec<String>,
}

pub struct GameStateManagerView {
    pub players: Seq<(Seq<char>, Seq<u32>)>,
    pub ongoing_games: Seq<OnGoingGameView>,
    pub servers_data: Seq<(Seq<char>, ServerDataView)>,
    pub saved_games_list: Seq<Seq<char>>,
}

impl GameStateManagerView {
    pub open spec fn directory(self) -> Map<Seq<char>, Seq<u32>> {
        to_map(self.players)
    }

    pub open spec fn sessions(self) -> Map<Seq<char>, ServerDataView> {
        to_map(self.servers_data)
    }

    pub open spec fn wf(self) -> bool {
        &&& keys_unique(self.players)
        &&& keys_unique(self.servers_data)
        &&& forall|i: int| 0 <= i < self.servers_data.len() ==> (#[trigger] self.servers_data[i]).1.wf()
    }

    /// Everything but the live sessions is as in `o`.
    pub open spec fn same_outside_sessions(self, o: GameStateManagerView) -> bool {
        &&& self.players == o.players
        &&& self.ongoing_games == o.ongoing_games
        &&& self.saved_games_list == o.saved_games_list
    }
}

impl View for GameStateManager {
    type V = GameStateManagerView;

    open spec fn view(&self) -> GameStateManagerView {
        GameStateManagerView {
            players: directory_view(self.players@),
            ongoing_games: games_view(self.ongoing_games@),
            servers_data: sessions_view(self.servers_data@),
            saved_games_list: strings_view(self.saved_games_list@),
        }
    }
}

/// Every live session of a well-formed store has a well-formed roster.
pub proof fn lemma_sessions_wf(v: GameStateManagerView)
    requires
        v.wf(),
    ensures
        forall|k: Seq<char>| #[trigger] v.sessions().contains_key(k) ==> v.sessions()[k].wf(),
{
    assert forall|k: Seq<char>| #[trigger] v.sessions().contains_key(k) implies v.sessions()[k].wf() by {
        let i = key_index(v.servers_data, k);
        lemma_index(v.servers_data, i);
    }
}

/// Putting well-formed session `v` in place of the one at position `i` keeps
/// the sessions well formed and changes that session alone.
pub proof fn lemma_session_replaced(s: Seq<(Seq<char>, ServerDataView)>, i: int, v: ServerDataView)
    requires
        keys_unique(s),
        0 <= i < s.len(),
        forall|j: int| 0 <= j < s.len() ==> (#[trigger] s[j]).1.wf(),
        v.wf(),
    ensures
        keys_unique(s.update(i, (s[i].0, v))),
        forall|j: int| 0 <= j < s.len() ==> (#[trigger] s.update(i, (s[i].0, v))[j]).1.wf(),
        to_map(s.update(i, (s[i].0, v))) == to_map(s).insert(s[i].0, v),
        to_map(s.update(i, (s[i].0, v))).dom() == to_map(s).dom(),
        to_map(s.update(i, (s[i].0, v))).remove(s[i].0) == to_map(s).remove(s[i].0),
{
    lemma_update(s, i, v);
    lemma_index(s, i);
    let t = s.update(i, (s[i].0, v));
    assert(to_map(t).dom() =~= to_map(s).dom());
    assert(to_map(t).remove(s[i].0) =~= to_map(s).remove(s[i].0));
    assert forall|j: int| 0 <= j < s.len() implies (#[trigger] t[j]).1.wf() by {
        if j != i {
            assert(t[j] == s[j]);
        }
    }
}

/// Taking out the session at position `i` keeps the sessions well formed.
pub proof fn lemma_session_removed(s: Seq<(Seq<char>, ServerDataView)>, i: int)
    requires
        keys_unique(s),
        0 <= i < s.len(),
        forall|j: int| 0 <= j < s.len() ==> (#[trigger] s[j]).1.wf(),
    ensures
        keys_unique(s.remove(i)),
        forall|j: int| 0 <= j < s.len() - 1 ==> (#[trigger] s.remove(i)[j]).1.wf(),
        to_map(s.remove(i)) == to_map(s).remove(s[i].0),
{
    lemma_remove(s, i);
    assert forall|j: int| 0 <= j < s.len() - 1 implies (#[trigger] s.remove(i)[j]).1.wf() by {
        if j < i {
            assert(s.remove(i)[j] == s[j]);
        } else {
            assert(s.remove(i)[j] == s[j + 1]);
        }
    }
}

/// A session whose game is `app` and whose roster and owner are those of `sd`.
pub open spec fn with_app(sd: ServerDataView, app: ApplicationView) -> ServerDataView {
    ServerDataView { app: app, players_info: sd.players_info, owner_player_name: sd.owner_player_name }
}

/// `b` is `a` but for its roster, which is `roster`.
pub open spec fn roster_changed(a: ServerDataView, b: ServerDataView, roster: Map<Seq<char>, PlayerInfoView>) -> bool {
    &&& b.app == a.app
    &&& b.owner_player_name == a.owner_player_name
    &&& b.wf()
    &&& b.roster() == roster
}

/// `b` is `a` after entries left its roster, which is now `roster`: the
/// active combatants are derived anew from the entries that remain.
pub open spec fn roster_pruned(a: ServerDataView, b: ServerDataView, roster: Map<Seq<char>, PlayerInfoView>) -> bool {
    &&& b.app == with_active(a.app, all_characters(b.players_info))
    &&& b.owner_player_name == a.owner_player_name
    &&& b.wf()
    &&& b.roster() == roster
}

/// Session `name` alone may differ between `a` and `b`, and it is live in both or in neither.
pub open spec fn only_session_changed(a: GameStateManagerView, b: GameStateManagerView, name: Seq<char>) -> bool {
    &&& b.same_outside_sessions(a)
    &&& b.sessions().dom() == a.sessions().dom()
    &&& b.sessions().remove(name) == a.sessions().remove(name)
}

impl GameStateManager {
    pub fn new() -> (r: GameStateManager)
        ensures
            r@.wf(),
            r@.players.len() == 0,
            r@.ongoing_games.len() == 0,
            r@.servers_data.len() == 0,
            r@.saved_games_list.len() == 0,
    {
        GameStateManager {
            players: Vec::new(),
            ongoing_games: Vec::new(),
            servers_data: Vec::new(),
            saved_games_list: Vec::new(),
        }
    }

    /// Records that connection `player_id` acts as `player_name`.
    pub fn add_player(&mut self, player_name: String, player_id: u32)
        requires
            old(self)@.wf(),
        ensures
            final(self)@.wf(),
            final(self)@.directory() == old(self)@.directory().insert(
                player_name@,
                with_id(
                    if old(self)@.directory().contains_key(player_name@) {
                        old(self)@.directory()[player_name@]
                    } else {
                        Seq::empty()
                    },
                    player_id,
                ),
            ),
            final(self)@.ongoing_games == old(self)@.ongoing_games,
            final(self)@.servers_data == old(self)@.servers_data,
            final(self)@.saved_games_list == old(self)@.saved_games_list,
    {
        let ghost s = directory_view(self.players@);
        match self.find_player(player_name.as_str()) {
            Some(i) => {
                proof {
                    lemma_index(s, i as int);
                }
                let (name, mut ids) = self.players.remove(i);
                if !contains_id(&ids, player_id) {
                    ids.push(player_id);
                }
                let ghost v = ids@;
                self.players.insert(i, (name, ids));
                proof {
                    assert(directory_view(self.players@) =~= s.update(i as int, (s[i as int].0, v)));
                    lemma_update(s, i as int, v);
                }
            },
            None => {
                let mut ids: Vec<u32> = Vec::new();
                ids.push(player_id);
                let ghost v = ids@;
                let ghost k = player_name@;
                self.players.push((player_name, ids));
                proof {
                    assert(directory_view(self.players@) =~= s.push((k, v)));
                    assert(with_id(Seq::<u32>::empty(), player_id) =~= v);
                    lemma_push(s, k, v);
                }
            },
        }
    }

    /// Makes `app` the game of session `server_name`, owned by `player_name`,
    /// with an empty roster; a live session of that name is replaced.
    pub fn add_server_data(&mut self, server_name: &str, app: &Application, player_name: &str)
        requires
            old(self)@.wf(),
        ensures
            final(self)@.wf(),
            final(self)@.sessions() == old(self)@.sessions().insert(
                server_name@,
                ServerDataView {
                    app: app@,
                    players_info: Seq::empty(),
                    owner_player_name: player_name@,
                },
            ),
            final(self)@.same_outside_sessions(old(self)@),
    {
        let ghost s = sessions_view(self.servers_data@);
        let sd = ServerData {
            app: app.snapshot(),
            players_info: Vec::new(),
            owner_player_name: String::from_str(player_name),
        };
        let ghost v = sd@;
        proof {
            assert(v.players_info =~= Seq::<(Seq<char>, PlayerInfoView)>::empty());
        }
        match self.find_session(server_name) {
            Some(i) => {
                proof {
                    lemma_index(s, i as int);
                }
                let (name, _) = self.servers_data.remove(i);
                self.servers_data.insert(i, (name, sd));
                proof {
                    assert(sessions_view(self.servers_data@) =~= s.update(i as int, (s[i as int].0, v)));
                    lemma_update(s, i as int, v);
                }
            },
            None => {
                self.servers_data.push((String::from_str(server_name), sd));
                proof {
                    assert(sessions_view(self.servers_data@) =~= s.push((server_name@, v)));
                    lemma_push(s, server_name@, v);
                }
            },
        }
    }

    /// Adds connection `player_id` of `player_name` to the roster of session
    /// `server_name`, if that session is live. Adding a connection twice
    /// changes nothing.
    pub fn add_player_to_server(&mut self, server_name: &str, player_name: &str, player_id: u32)
        requires
            old(self)@.wf(),
        ensures
            final(self)@.wf(),
            old(self)@.sessions().contains_key(server_name@) ==> {
                let o = old(self)@.sessions()[server_name@];
                &&& only_session_changed(old(self)@, final(self)@, server_name@)
                &&& roster_changed(o, final(self)@.sessions()[server_name@], o.roster().insert(
                    player_name@,
                    PlayerInfoView {
                        character_names: entry_of(o.roster(), player_name@).character_names,
                        player_ids: with_id(entry_of(o.roster(), player_name@).player_ids, player_id),
                    },
                ))
            },
            !old(self)@.sessions().contains_key(server_name@) ==> final(self)@ == old(self)@,
    {
        let ghost s = sessions_view(self.servers_data@);
        match self.find_session(server_name) {
            Some(i) => {
                proof {
                    lemma_index(s, i as int);
                }
                let (name, mut sd) = self.servers_data.remove(i);
                roster_add_id(&mut sd.players_info, player_name, player_id);
                let ghost v = sd@;
                self.servers_data.insert(i, (name, sd));
                proof {
                    assert(sessions_view(self.servers_data@) =~= s.update(i as int, (s[i as int].0, v)));
                    lemma_session_replaced(s, i as int, v);
                }
            },
            None => {},
        }
    }
}

/// `app` with its active combatants replaced by `chars`.
pub open spec fn with_active(app: ApplicationView, chars: Seq<Seq<char>>) -> ApplicationView {
    ApplicationView {
        game_state: app.game_state,
        server_name: app.server_name,
        game_phase: app.game_phase,
        game_dir: app.game_dir,
        active_characters: chars,
    }
}

/// The index without the entries of session `name`.
pub fn games_without(v: &Vec<OnGoingGame>, name: &str) -> (r: Vec<OnGoingGame>)
    ensures
        games_view(r@) == without_server(games_view(v@), name@),
{
    let ghost s = games_view(v@);
    let mut r: Vec<OnGoingGame> = Vec::new();
    let mut i: usize = 0;
    while i < v.len()
        invariant
            i <= v@.len(),
            s == games_view(v@),
            games_view(r@) == without_server(s.take(i as int), name@),
        decreases v@.len() - i,
    {
        assert(s.take(i as int + 1).drop_last() =~= s.take(i as int));
        if !text_eq(v[i].server_name.as_str(), name) {
            let ghost prev = r@;
            r.push(v[i].snapshot());
            assert(games_view(r@) =~= games_view(prev).push(s[i as int]));
        }
        i = i + 1;
    }
    assert(s.take(v@.len() as int) =~= s);
    r
}

impl GameStateManager {
    /// Makes `character_name` the only character of `player_name` in session
    /// `server_name`, if that session is live, and derives the session's
    /// active combatants anew from every roster entry.
    pub fn assign_character(&mut self, server_name: &str, player_name: &str, character_name: &str)
        requires
            old(self)@.wf(),
        ensures
            final(self)@.wf(),
            old(self)@.sessions().contains_key(server_name@) ==> {
                let o = old(self)@.sessions()[server_name@];
                let n = final(self)@.sessions()[server_name@];
                &&& only_session_changed(old(self)@, final(self)@, server_name@)
                &&& n.owner_player_name == o.owner_player_name
                &&& n.wf()
                &&& n.roster() == o.roster().insert(
                    player_name@,
                    PlayerInfoView {
                        character_names: seq![character_name@],
                        player_ids: entry_of(o.roster(), player_name@).player_ids,
                    },
                )
                &&& n.app == with_active(o.app, all_characters(n.players_info))
            },
            !old(self)@.sessions().contains_key(server_name@) ==> final(self)@ == old(self)@,
    {
        let ghost s = sessions_view(self.servers_data@);
        match self.find_session(server_name) {
            Some(i) => {
                proof {
                    lemma_index(s, i as int);
                }
                let (name, mut sd) = self.servers_data.remove(i);
                roster_set_character(&mut sd.players_info, player_name, character_name);
                sd.app.active_characters = collect_characters(&sd.players_info);
                let ghost v = sd@;
                self.servers_data.insert(i, (name, sd));
                proof {
                    assert(sessions_view(self.servers_data@) =~= s.update(i as int, (s[i as int].0, v)));
                    lemma_session_replaced(s, i as int, v);
                }
            },
            None => {},
        }
    }

    /// Prunes connection `player_id` from the entry of `player_name` in
    /// session `server_name`; the entry goes once it holds no connection.
    pub fn remove_connection(&mut self, server_name: &str, player_name: &str, player_id: u32)
        requires
            old(self)@.wf(),
        ensures
            final(self)@.wf(),
            old(self)@.sessions().contains_key(server_name@) ==> {
                let o = old(self)@.sessions()[server_name@];
                &&& only_session_changed(old(self)@, final(self)@, server_name@)
                &&& roster_pruned(o, final(self)@.sessions()[server_name@],
                    roster_after_removal(o.roster(), player_name@, player_id))
            },
            !old(self)@.sessions().contains_key(server_name@) ==> final(self)@ == old(self)@,
    {
        let ghost s = sessions_view(self.servers_data@);
        match self.find_session(server_name) {
            Some(i) => {
                proof {
                    lemma_index(s, i as int);
                }
                let (name, mut sd) = self.servers_data.remove(i);
                roster_remove_id(&mut sd.players_info, player_name, player_id);
                sd.app.active_characters = collect_characters(&sd.players_info);
                let ghost v = sd@;
                self.servers_data.insert(i, (name, sd));
                proof {
                    assert(sessions_view(self.servers_data@) =~= s.update(i as int, (s[i as int].0, v)));
                    lemma_session_replaced(s, i as int, v);
                }
            },
            None => {},
        }
    }

    /// Makes `app` the game of session `server_name`, if that session is
    /// live; says whether it was.
    pub fn replace_app(&mut self, server_name: &str, app: Application) -> (r: bool)
        requires
            old(self)@.wf(),
        ensures
            final(self)@.wf(),
            r == old(self)@.sessions().contains_key(server_name@),
            r ==> final(self)@.sessions() == old(self)@.sessions().insert(
                server_name@,
                with_app(old(self)@.sessions()[server_name@], app@),
            ),
            r ==> final(self)@.same_outside_sessions(old(self)@),
            !r ==> final(self)@ == old(self)@,
    {
        let ghost s = sessions_view(self.servers_data@);
        match self.find_session(server_name) {
            Some(i) => {
                proof {
                    lemma_index(s, i as int);
                }
                let (name, mut sd) = self.servers_data.remove(i);
                sd.app = app;
                let ghost v = sd@;
                self.servers_data.insert(i, (name, sd));
                proof {
                    assert(sessions_view(self.servers_data@) =~= s.update(i as int, (s[i as int].0, v)));
                    lemma_session_replaced(s, i as int, v);
                }
                true
            },
            None => {
                false
            },
        }
    }

    /// Removes session `server_name` from the live sessions and from the index.
    pub fn teardown_session(&mut self, server_name: &str)
        requires
            old(self)@.wf(),
        ensures
            final(self)@.wf(),
            final(self)@.sessions() == old(self)@.sessions().remove(server_name@),
            final(self)@.ongoing_games == without_server(old(self)@.ongoing_games, server_name@),
            final(self)@.players == old(self)@.players,
            final(self)@.saved_games_list == old(self)@.saved_games_list,
    {
        let ghost s = sessions_view(self.servers_data@);
        self.ongoing_games = games_without(&self.ongoing_games, server_name);
        match self.find_session(server_name) {
            Some(i) => {
                self.servers_data.remove(i);
                proof {
                    assert(sessions_view(self.servers_data@) =~= s.remove(i as int));
                    lemma_session_removed(s, i as int);
                }
            },
            None => {
                proof {
                    assert(to_map(s).remove(server_name@) =~= to_map(s));
                }
            },
        }
    }

    /// Makes `path` the one index entry of session `server_name`.
    pub fn record_ongoing_game(&mut self, server_name: &str, path: &str)
        requires
            old(self)@.wf(),
        ensures
            final(self)@.wf(),
            final(self)@.ongoing_games == without_server(old(self)@.ongoing_games, server_name@).push(
                OnGoingGameView { path: path@, server_name: server_name@ },
            ),
            final(self)@.players == old(self)@.players,
            final(self)@.servers_data == old(self)@.servers_data,
            final(self)@.saved_games_list == old(self)@.saved_games_list,
    {
        let mut games = games_without(&self.ongoing_games, server_name);
        let ghost prev = games@;
        games.push(OnGoingGame { path: String::from_str(path), server_name: String::from_str(server_name) });
        proof {
            assert(games_view(games@) =~= games_view(prev).push(OnGoingGameView { path: path@, server_name: server_name@ }));
        }
        self.ongoing_games = games;
    }

    /// Forgets player `player_name` and all its connections.
    pub fn remove_player(&mut self, player_name: &str)
        requires
            old(self)@.wf(),
        ensures
            final(self)@.wf(),
            final(self)@.directory() == old(self)@.directory().remove(player_name@),
            final(self)@.ongoing_games == old(self)@.ongoing_games,
            final(self)@.servers_data == old(self)@.servers_data,
            final(self)@.saved_games_list == old(self)@.saved_games_list,
    {
        let ghost s = directory_view(self.players@);
        match self.find_player(player_name) {
            Some(i) => {
                self.players.remove(i);
                proof {
                    assert(directory_view(self.players@) =~= s.remove(i as int));
                    lemma_remove(s, i as int);
                }
            },
            None => {
                proof {
                    assert(to_map(s).remove(player_name@) =~= to_map(s));
                }
            },
        }
    }

    /// Forgets connection `player_id` in every entry of the player directory;
    /// a player left with no connection is forgotten. Returns a player that
    /// the connection acted as, if any.
    pub fn drop_connection(&mut self, player_id: u32) -> (r: Option<String>)
        requires
            old(self)@.wf(),
        ensures
            final(self)@.wf(),
            final(self)@.ongoing_games == old(self)@.ongoing_games,
            final(self)@.servers_data == old(self)@.servers_data,
            final(self)@.saved_games_list == old(self)@.saved_games_list,
            final(self)@.directory() == directory_without_connection(old(self)@.directory(), player_id),
            forall|k: Seq<char>| #[trigger] final(self)@.directory().contains_key(k)
                ==> !final(self)@.directory()[k].contains(player_id),
            match r {
                Some(name) => old(self)@.directory().contains_key(name@)
                    && old(self)@.directory()[name@].contains(player_id),
                None => forall|k: Seq<char>| #[trigger] old(self)@.directory().contains_key(k)
                    ==> !old(self)@.directory()[k].contains(player_id),
            },
    {
        let ghost s = directory_view(self.players@);
        let mut who: Option<String> = None;
        let mut i: usize = 0;
        while i < self.players.len()
            invariant
                i <= self.players@.len(),
                s == directory_view(self.players@),
                keys_unique(s),
                match who {
                    Some(name) => to_map(s).contains_key(name@) && to_map(s)[name@].contains(player_id),
                    None => forall|j: int| 0 <= j < i ==> !(#[trigger] s[j]).1.contains(player_id),
                },
            decreases self.players@.len() - i,
        {
            if who.is_none() && contains_id(&self.players[i].1, player_id) {
                proof {
                    lemma_index(s, i as int);
                }
                who = Some(self.players[i].0.clone());
            }
            i = i + 1;
        }
        proof {
            if who.is_none() {
                assert forall|k: Seq<char>| #[trigger] to_map(s).contains_key(k) implies !to_map(s)[k].contains(player_id) by {
                    let j = key_index(s, k);
                    lemma_index(s, j);
                }
            }
        }
        let kept = directory_drop_connection(&self.players, player_id);
        self.players = kept;
        proof {
            assert forall|k: Seq<char>| #[trigger] self@.directory().contains_key(k)
                implies !self@.directory()[k].contains(player_id) by {
                crate::registry::lemma_without_id(to_map(s)[k], player_id);
            }
        }
        who
    }

    /// A copy of live session `server_name`.
    pub fn get_server_data_by_server_name(&self, server_name: &str) -> (r: Option<ServerData>)
        requires
            self@.wf(),
        ensures
            match r {
                Some(sd) => self@.sessions().contains_key(server_name@) && sd@ == self@.sessions()[server_name@],
                None => !self@.sessions().contains_key(server_name@),
            },
    {
        let ghost s = sessions_view(self.servers_data@);
        match self.find_session(server_name) {
            Some(i) => {
                proof {
                    lemma_index(s, i as int);
                }
                Some(self.servers_data[i].1.snapshot())
            },
            None => {
                None
            },
        }
    }

    /// A copy of the game of live session `server_name`.
    pub fn get_app_by_server_name(&self, server_name: &str) -> (r: Option<Application>)
        requires
            self@.wf(),
        ensures
            match r {
                Some(app) => self@.sessions().contains_key(server_name@) && app@ == self@.sessions()[server_name@].app,
                None => !self@.sessions().contains_key(server_name@),
            },
    {
        let ghost s = sessions_view(self.servers_data@);
        match self.find_session(server_name) {
            Some(i) => {
                proof {
                    lemma_index(s, i as int);
                }
                Some(self.servers_data[i].1.app.snapshot())
            },
            None => {
                None
            },
        }
    }

    /// A copy of a live session whose roster holds connection `player_id`.
    pub fn get_server_data_by_player_id(&self, player_id: u32) -> (r: Option<ServerData>)
        requires
            self@.wf(),
        ensures
            match r {
                Some(sd) => exists|k: Seq<char>| #[trigger] self@.sessions().contains_key(k)
                    && self@.sessions()[k] == sd@ && roster_has_id(sd@.players_info, player_id),
                None => forall|k: Seq<char>| #[trigger] self@.sessions().contains_key(k)
                    ==> !roster_has_id(self@.sessions()[k].players_info, player_id),
            },
    {
        let ghost s = sessions_view(self.servers_data@);
        let mut i: usize = 0;
        while i < self.servers_data.len()
            invariant
                i <= self.servers_data@.len(),
                s == sessions_view(self.servers_data@),
                keys_unique(s),
                forall|j: int| 0 <= j < i ==> !roster_has_id((#[trigger] s[j]).1.players_info, player_id),
            decreases self.servers_data@.len() - i,
        {
            if roster_contains_id(&self.servers_data[i].1.players_info, player_id) {
                proof {
                    lemma_index(s, i as int);
                }
                return Some(self.servers_data[i].1.snapshot());
            }
            i = i + 1;
        }
        proof {
            assert forall|k: Seq<char>| #[trigger] to_map(s).contains_key(k) implies !roster_has_id(to_map(s)[k].players_info, player_id) by {
                let j = key_index(s, k);
                lemma_index(s, j);
            }
        }
        None
    }
}

/// Removes the entry of `player`.
pub fn roster_remove_player(roster: &mut Vec<(String, PlayerInfo)>, player: &str)
    requires
        roster_wf(roster_view(old(roster)@)),
    ensures
        roster_wf(roster_view(final(roster)@)),
        to_map(roster_view(final(roster)@)) == to_map(roster_view(old(roster)@)).remove(player@),
{
    let ghost s = roster_view(roster@);
    match find_in_roster(roster, player) {
        Some(i) => {
            roster.remove(i);
            proof {
                assert(roster_view(roster@) =~= s.remove(i as int));
                lemma_remove(s, i as int);
            }
        },
        None => {
            proof {
                assert(to_map(s).remove(player@) =~= to_map(s));
            }
        },
    }
}

impl GameStateManager {
    /// Removes the entry of `player_name` from session `server_name`.
    pub fn remove_from_roster(&mut self, server_name: &str, player_name: &str)
        requires
            old(self)@.wf(),
        ensures
            final(self)@.wf(),
            old(self)@.sessions().contains_key(server_name@) ==> {
                let o = old(self)@.sessions()[server_name@];
                &&& only_session_changed(old(self)@, final(self)@, server_name@)
                &&& roster_pruned(o, final(self)@.sessions()[server_name@], o.roster().remove(player_name@))
            },
            !old(self)@.sessions().contains_key(server_name@) ==> final(self)@ == old(self)@,
    {
        let ghost s = sessions_view(self.servers_data@);
        match self.find_session(server_name) {
            Some(i) => {
                proof {
                    lemma_index(s, i as int);
                }
                let (name, mut sd) = self.servers_data.remove(i);
                roster_remove_player(&mut sd.players_info, player_name);
                sd.app.active_characters = collect_characters(&sd.players_info);
                let ghost v = sd@;
                self.servers_data.insert(i, (name, sd));
                proof {
                    assert(sessions_view(self.servers_data@) =~= s.update(i as int, (s[i as int].0, v)));
                    lemma_session_replaced(s, i as int, v);
                }
            },
            None => {},
        }
    }

    /// Whether session `server_name` is live and has an entry for `player_name`.
    pub fn player_in_session(&self, server_name: &str, player_name: &str) -> (r: bool)
        requires
            self@.wf(),
        ensures
            r == (self@.sessions().contains_key(server_name@)
                && self@.sessions()[server_name@].roster().contains_key(player_name@)),
    {
        let ghost s = sessions_view(self.servers_data@);
        match self.find_session(server_name) {
            Some(i) => {
                proof {
                    lemma_index(s, i as int);
                }
                let ghost rs = roster_view(self.servers_data@[i as int].1.players_info@);
                match find_in_roster(&self.servers_data[i].1.players_info, player_name) {
                    Some(j) => {
                        proof {
                            assert(rs[j as int].0 == player_name@);
                            assert(has_key(rs, player_name@));
                        }
                        true
                    },
                    None => {
                        false
                    },
                }
            },
            None => {
                false
            },
        }
    }
}

/// `sd` has an entry for `player` that holds connection `id`.
pub open spec fn holds_connection(sd: ServerDataView, player: Seq<char>, id: u32) -> bool {
    entry_of(sd.roster(), player).player_ids.contains(id)
}

impl GameStateManager {
    /// The names of the live sessions, in store order.
    pub fn session_names(&self) -> (r: Vec<String>)
        ensures
            r@.len() == self@.servers_data.len(),
            forall|j: int| 0 <= j < r@.len() ==> (#[trigger] r@[j])@ == self@.servers_data[j].0,
    {
        let mut r: Vec<String> = Vec::new();
        let mut i: usize = 0;
        while i < self.servers_data.len()
            invariant
                i <= self.servers_data@.len(),
                r@.len() == i,
                forall|j: int| 0 <= j < i ==> (#[trigger] r@[j])@ == self@.servers_data[j].0,
            decreases self.servers_data@.len() - i,
        {
            r.push(self.servers_data[i].0.clone());
            i = i + 1;
        }
        r
    }

    /// Whether live session `server_name` has an entry for `player_name`
    /// that holds connection `id`.
    pub fn player_holds_connection(&self, server_name: &str, player_name: &str, id: u32) -> (r: bool)
        requires
            self@.wf(),
        ensures
            r == (self@.sessions().contains_key(server_name@)
                && holds_connection(self@.sessions()[server_name@], player_name@, id)),
    {
        let ghost s = sessions_view(self.servers_data@);
        match self.find_session(server_name) {
            Some(i) => {
                proof {
                    lemma_index(s, i as int);
                }
                let ghost rs = roster_view(self.servers_data@[i as int].1.players_info@);
                proof {
                    assert(keys_unique(rs)) by {
                        assert(s[i as int].1.wf());
                    }
                }
                match find_in_roster(&self.servers_data[i].1.players_info, player_name) {
                    Some(j) => {
                        proof {
                            lemma_index(rs, j as int);
                        }
                        contains_id(&self.servers_data[i].1.players_info[j].1.player_ids, id)
                    },
                    None => {
                        false
                    },
                }
            },
            None => {
                false
            },
        }
    }
}

/// The roster with connection `id` taken out of every entry; an entry left
/// with no connection goes.
pub open spec fn roster_without_connection(
    r: Map<Seq<char>, PlayerInfoView>,
    id: u32,
) -> Map<Seq<char>, PlayerInfoView> {
    Map::new(
        |p: Seq<char>| r.contains_key(p) && without_id(r[p].player_ids, id).len() > 0,
        |p: Seq<char>|
            PlayerInfoView {
                character_names: r[p].character_names,
                player_ids: without_id(r[p].player_ids, id),
            },
    )
}

/// No entry of a roster that stands for `roster_without_connection(r, id)`
/// holds `id`.
pub proof fn lemma_connection_gone(s: Seq<(Seq<char>, PlayerInfoView)>, r: Map<Seq<char>, PlayerInfoView>, id: u32)
    requires
        keys_unique(s),
        to_map(s) == roster_without_connection(r, id),
    ensures
        !roster_has_id(s, id),
{
    assert forall|j: int| 0 <= j < s.len() implies !(#[trigger] s[j]).1.player_ids.contains(id) by {
        lemma_index(s, j);
        crate::registry::lemma_without_id(r[s[j].0].player_ids, id);
    }
}

/// Takes connection `id` out of every entry of `roster`.
pub fn roster_drop_connection(roster: &Vec<(String, PlayerInfo)>, id: u32) -> (r: Vec<(String, PlayerInfo)>)
    requires
        roster_wf(roster_view(roster@)),
    ensures
        roster_wf(roster_view(r@)),
        to_map(roster_view(r@)) == roster_without_connection(to_map(roster_view(roster@)), id),
{
    let ghost s = roster_view(roster@);
    let mut out: Vec<(String, PlayerInfo)> = Vec::new();
    let mut i: usize = 0;
    proof {
        assert(to_map(roster_view(out@)) =~= roster_without_connection(to_map(s.take(0)), id));
    }
    while i < roster.len()
        invariant
            i <= roster@.len(),
            s == roster_view(roster@),
            roster_wf(s),
            roster_wf(roster_view(out@)),
            to_map(roster_view(out@)) == roster_without_connection(to_map(s.take(i as int)), id),
        decreases roster@.len() - i,
    {
        let ghost t = s.take(i as int);
        let ghost k = s[i as int].0;
        let ghost v = s[i as int].1;
        proof {
            assert(s.take(i as int + 1) =~= t.push((k, v)));
            assert(keys_unique(t));
            lemma_push(t, k, v);
        }
        let ids = remove_id(&roster[i].1.player_ids, id);
        proof {
            crate::registry::lemma_without_id(s[i as int].1.player_ids, id);
        }
        if ids.len() > 0 {
            let info = PlayerInfo { character_names: copy_strings(&roster[i].1.character_names), player_ids: ids };
            let ghost prev = roster_view(out@);
            let ghost w = info@;
            out.push((roster[i].0.clone(), info));
            proof {
                assert(roster_view(out@) =~= prev.push((k, w)));
                assert(w.player_ids == without_id(v.player_ids, id));
                assert(v.player_ids.no_duplicates());
                assert forall|j: int| 0 <= j < roster_view(out@).len() implies (#[trigger] roster_view(out@)[j]).1.player_ids.no_duplicates() by {
                    if j < prev.len() {
                        assert(roster_view(out@)[j] == prev[j]);
                    }
                }
                assert(!to_map(prev).contains_key(k));
                assert(!has_key(prev, k));
                lemma_push(prev, k, w);
                assert(to_map(roster_view(out@)) =~= roster_without_connection(to_map(t.push((k, v))), id));
            }
        } else {
            proof {
                assert(to_map(roster_view(out@)) =~= roster_without_connection(to_map(t.push((k, v))), id));
            }
        }
        i = i + 1;
    }
    proof {
        assert(s.take(roster@.len() as int) =~= s);
    }
    out
}

/// Closing connection `id` ends session `sd`: its owner's entry held the
/// connection, and no other.
pub open spec fn closing_ends(sd: ServerDataView, id: u32) -> bool {
    &&& holds_connection(sd, sd.owner_player_name, id)
    &&& !roster_without_connection(sd.roster(), id).contains_key(sd.owner_player_name)
}

impl GameStateManager {
    /// Takes connection `id` out of every entry of session `server_name`.
    pub fn prune_connection(&mut self, server_name: &str, id: u32)
        requires
            old(self)@.wf(),
        ensures
            final(self)@.wf(),
            old(self)@.sessions().contains_key(server_name@) ==> {
                let o = old(self)@.sessions()[server_name@];
                &&& only_session_changed(old(self)@, final(self)@, server_name@)
                &&& roster_pruned(o, final(self)@.sessions()[server_name@],
                    roster_without_connection(o.roster(), id))
            },
            !old(self)@.sessions().contains_key(server_name@) ==> final(self)@ == old(self)@,
    {
        let ghost s = sessions_view(self.servers_data@);
        match self.find_session(server_name) {
            Some(i) => {
                proof {
                    lemma_index(s, i as int);
                }
                let (name, mut sd) = self.servers_data.remove(i);
                sd.players_info = roster_drop_connection(&sd.players_info, id);
                sd.app.active_characters = collect_characters(&sd.players_info);
                let ghost v = sd@;
                self.servers_data.insert(i, (name, sd));
                proof {
                    assert(sessions_view(self.servers_data@) =~= s.update(i as int, (s[i as int].0, v)));
                    lemma_session_replaced(s, i as int, v);
                }
            },
            None => {},
        }
    }

    /// Whether live session `server_name` has an entry that holds connection `id`.
    pub fn session_has_connection(&self, server_name: &str, id: u32) -> (r: bool)
        requires
            self@.wf(),
        ensures
            r == (self@.sessions().contains_key(server_name@)
                && roster_has_id(self@.sessions()[server_name@].players_info, id)),
    {
        let ghost s = sessions_view(self.servers_data@);
        match self.find_session(server_name) {
            Some(i) => {
                proof {
                    lemma_index(s, i as int);
                }
                roster_contains_id(&self.servers_data[i].1.players_info, id)
            },
            None => {
                false
            },
        }
    }
}

/// A roster entry that holds a connection makes the roster hold it.
pub proof fn lemma_holds_connection(sd: ServerDataView, player: Seq<char>, id: u32)
    requires
        sd.wf(),
        holds_connection(sd, player, id),
    ensures
        roster_has_id(sd.players_info, id),
{
    let j = key_index(sd.players_info, player);
    lemma_index(sd.players_info, j);
}

/// The index entries kept by `without_server` are those of other sessions.
pub proof fn lemma_without_server_contains(s: Seq<OnGoingGameView>, name: Seq<char>)
    ensures
        forall|g: OnGoingGameView| #[trigger] without_server(s, name).contains(g)
            <==> (s.contains(g) && g.server_name != name),
    decreases s.len(),
{
    if s.len() > 0 {
        let t = s.drop_last();
        lemma_without_server_contains(t, name);
        let w = without_server(t, name);
        assert forall|g: OnGoingGameView| #[trigger] s.contains(g) <==> (t.contains(g) || g == s.last()) by {
            if s.contains(g) {
                let i = choose|i: int| 0 <= i < s.len() && s[i] == g;
                if i < s.len() - 1 {
                    assert(t[i] == g);
                }
            }
            if t.contains(g) {
                let i = choose|i: int| 0 <= i < t.len() && t[i] == g;
                assert(s[i] == g);
            }
            if g == s.last() {
                assert(s[s.len() - 1] == g);
            }
        }
        if s.last().server_name == name {
            assert(without_server(s, name) == w);
        } else {
            assert(without_server(s, name) == w.push(s.last()));
            assert forall|g: OnGoingGameView| #[trigger] w.push(s.last()).contains(g) <==> (w.contains(g) || g == s.last()) by {
                let u = w.push(s.last());
                if u.contains(g) {
                    let i = choose|i: int| 0 <= i < u.len() && u[i] == g;
                    if i < w.len() {
                        assert(w[i] == g);
                    }
                }
                if w.contains(g) {
                    let i = choose|i: int| 0 <= i < w.len() && w[i] == g;
                    assert(u[i] == g);
                }
                if g == s.last() {
                    assert(u[w.len() as int] == g);
                }
            }
        }
    }
}

/// The directory with connection `id` taken out of every entry; a player left
/// with no connection goes.
pub open spec fn directory_without_connection(d: Map<Seq<char>, Seq<u32>>, id: u32) -> Map<Seq<char>, Seq<u32>> {
    Map::new(
        |p: Seq<char>| d.contains_key(p) && without_id(d[p], id).len() > 0,
        |p: Seq<char>| without_id(d[p], id),
    )
}

/// Takes connection `id` out of every entry of the player directory.
pub fn directory_drop_connection(players: &Vec<(String, Vec<u32>)>, id: u32) -> (r: Vec<(String, Vec<u32>)>)
    requires
        keys_unique(directory_view(players@)),
    ensures
        keys_unique(directory_view(r@)),
        to_map(directory_view(r@)) == directory_without_connection(to_map(directory_view(players@)), id),
{
    let ghost s = directory_view(players@);
    let mut out: Vec<(String, Vec<u32>)> = Vec::new();
    let mut i: usize = 0;
    proof {
        assert(to_map(directory_view(out@)) =~= directory_without_connection(to_map(s.take(0)), id));
    }
    while i < players.len()
        invariant
            i <= players@.len(),
            s == directory_view(players@),
            keys_unique(s),
            keys_unique(directory_view(out@)),
            to_map(directory_view(out@)) == directory_without_connection(to_map(s.take(i as int)), id),
        decreases players@.len() - i,
    {
        let ghost t = s.take(i as int);
        let ghost k = s[i as int].0;
        let ghost v = s[i as int].1;
        proof {
            assert(s.take(i as int + 1) =~= t.push((k, v)));
            assert(keys_unique(t));
            assert forall|j: int| 0 <= j < t.len() implies (#[trigger] t[j]).0 != k by {
                assert(s[j].0 == t[j].0);
            }
            lemma_absent(t, k);
            lemma_push(t, k, v);
        }
        let ids = remove_id(&players[i].1, id);
        if ids.len() > 0 {
            let ghost prev = directory_view(out@);
            let ghost w = ids@;
            out.push((players[i].0.clone(), ids));
            proof {
                assert(directory_view(out@) =~= prev.push((k, w)));
                assert(!to_map(prev).contains_key(k));
                assert(!has_key(prev, k));
                lemma_push(prev, k, w);
                assert(to_map(directory_view(out@)) =~= directory_without_connection(to_map(t.push((k, v))), id));
            }
        } else {
            proof {
                assert(to_map(directory_view(out@)) =~= directory_without_connection(to_map(t.push((k, v))), id));
            }
        }
        i = i + 1;
    }
    proof {
        assert(s.take(players@.len() as int) =~= s);
    }
    out
}

} // verus!

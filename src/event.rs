//! The event router: inbound client events, outbound server events, and the
//! decisions that turn one into the other. Each handler runs on the store
//! while the caller holds it exclusively, and returns what must be sent and
//! saved once the store is released.
use vstd::prelude::*;
use vstd::string::*;
use crate::assoc::{key_index, lemma_index, text_eq, to_map};
use crate::game_state::{
    find_in_roster,
    closing_ends, contains_id, directory_without_connection, holds_connection, lemma_connection_gone, lemma_holds_connection,
    lemma_sessions_wf, lemma_without_server_contains, roster_without_connection, roster_has_id, only_session_changed, roster_changed, roster_pruned, with_id, without_id,
    all_characters, copy_games, copy_strings, entry_of, games_view, members, roster_after_removal,
    roster_recipients, strings_view, with_active, with_app, without_server, Application,
    ApplicationView, GamePhase, GameStateManager, GameStateManagerView, OnGoingGame,
    OnGoingGameView, PlayerInfoView, ServerData, ServerDataView,
};
use crate::laws::lemma_members;
use crate::registry::{lemma_without_id, ConnectionRegistry};
use crate::snapshot::{decodable, decode_snapshot, decoded, encode_snapshot, encoded};

verus! {

/// File that holds a session's current state.
pub const SAVED_GAME_MANAGER: &'static str = "game_manager.json";

/// File that holds a session's state as it was when its game started.
pub const SAVED_GAME_MANAGER_REPLAY: &'static str = "game_manager_replay.json";

/// Events a client sends.
pub enum ClientEvent {
    /// Player name, account id.
    LoginAllSessions(String, i64),
    /// Player name.
    LogOut(String),
    /// Session name, player name.
    InitializeGame(String, String),
    /// Session name, player name, character name.
    AddCharacterOnServerData(String, String, String),
    /// Session name.
    StartGame(String),
    /// Session name, attack name.
    LaunchAttack(String, String),
    /// Player name.
    AddPlayer(String),
    /// Session name, player name.
    JoinServerData(String, String),
    RequestSavedGameList,
    RequestOnGoingGamesList,
    /// Directory of the saved game, player name.
    LoadGame(String, String),
    /// Session name.
    ReplayGame(String),
    /// Session name, player name.
    DisconnectFromServerData(String, String),
    /// Session name, launcher name, attack name.
    RequestTargetedCharacter(String, String, String),
    /// Session name, launcher name, attack name, target name.
    RequestSetOneTarget(String, String, String, String),
    /// Session name.
    SaveGame(String),
}

/// Events the server sends to a client.
pub enum ServerEvent {
    /// Welcome message, connection id.
    NewClientOnExistingPlayer(String, u32),
    AssignPlayerId(u32),
    UpdateApplication(Application),
    /// Player name, account id.
    ReconnectAllSessions(String, i64),
    UpdateServerData(ServerData),
    UpdateOngoingGames(Vec<OnGoingGame>),
    AnswerSavedGameList(Vec<String>),
    /// The session the client was in has ended.
    EndOfServerData,
}

pub enum ServerEventView {
    NewClientOnExistingPlayer(Seq<char>, u32),
    AssignPlayerId(u32),
    UpdateApplication(ApplicationView),
    ReconnectAllSessions(Seq<char>, i64),
    UpdateServerData(ServerDataView),
    UpdateOngoingGames(Seq<OnGoingGameView>),
    AnswerSavedGameList(Seq<Seq<char>>),
    EndOfServerData,
}

impl View for ServerEvent {
    type V = ServerEventView;

    open spec fn view(&self) -> ServerEventView {
        match self {
            ServerEvent::NewClientOnExistingPlayer(m, id) => ServerEventView::NewClientOnExistingPlayer(m@, *id),
            ServerEvent::AssignPlayerId(id) => ServerEventView::AssignPlayerId(*id),
            ServerEvent::UpdateApplication(app) => ServerEventView::UpdateApplication(app@),
            ServerEvent::ReconnectAllSessions(n, id) => ServerEventView::ReconnectAllSessions(n@, *id),
            ServerEvent::UpdateServerData(sd) => ServerEventView::UpdateServerData(sd@),
            ServerEvent::UpdateOngoingGames(g) => ServerEventView::UpdateOngoingGames(games_view(g@)),
            ServerEvent::AnswerSavedGameList(l) => ServerEventView::AnswerSavedGameList(strings_view(l@)),
            ServerEvent::EndOfServerData => ServerEventView::EndOfServerData,
        }
    }
}

impl ServerEvent {
    pub fn snapshot(&self) -> (r: ServerEvent)
        ensures
            r@ == self@,
    {
        match self {
            ServerEvent::NewClientOnExistingPlayer(m, id) => ServerEvent::NewClientOnExistingPlayer(m.clone(), *id),
            ServerEvent::AssignPlayerId(id) => ServerEvent::AssignPlayerId(*id),
            ServerEvent::UpdateApplication(app) => ServerEvent::UpdateApplication(app.snapshot()),
            ServerEvent::ReconnectAllSessions(n, id) => ServerEvent::ReconnectAllSessions(n.clone(), *id),
            ServerEvent::UpdateServerData(sd) => ServerEvent::UpdateServerData(sd.snapshot()),
            ServerEvent::UpdateOngoingGames(g) => ServerEvent::UpdateOngoingGames(copy_games(g)),
            ServerEvent::AnswerSavedGameList(l) => ServerEvent::AnswerSavedGameList(copy_strings(l)),
            ServerEvent::EndOfServerData => ServerEvent::EndOfServerData,
        }
    }
}

/// One event for one connection.
pub struct Outbound {
    pub client_id: u32,
    pub event: ServerEvent,
}

pub open spec fn outbound_view(s: Seq<Outbound>) -> Seq<(u32, ServerEventView)> {
    s.map_values(|o: Outbound| (o.client_id, o.event@))
}

/// Event `ev` for each connection of `ids`, in order.
pub open spec fn notify(ids: Seq<u32>, ev: ServerEventView) -> Seq<(u32, ServerEventView)> {
    ids.map_values(|id: u32| (id, ev))
}

/// What every connection of session `sd` is sent after a change: the game,
/// then the whole session.
pub open spec fn session_broadcast(live: Seq<u32>, sd: ServerDataView) -> Seq<(u32, ServerEventView)> {
    notify(members(live, sd.players_info), ServerEventView::UpdateApplication(sd.app))
        + notify(members(live, sd.players_info), ServerEventView::UpdateServerData(sd))
}

/// A file to write once the store is released.
pub struct SaveRequest {
    pub dir: String,
    pub file_name: String,
    pub contents: String,
}

pub struct SaveRequestView {
    pub dir: Seq<char>,
    pub file_name: Seq<char>,
    pub contents: Seq<char>,
}

impl View for SaveRequest {
    type V = SaveRequestView;

    open spec fn view(&self) -> SaveRequestView {
        SaveRequestView { dir: self.dir@, file_name: self.file_name@, contents: self.contents@ }
    }
}

pub open spec fn saves_view(s: Seq<SaveRequest>) -> Seq<SaveRequestView> {
    s.map_values(|r: SaveRequest| r@)
}

/// Saving game `app` to file `file_name` of its directory.
pub open spec fn save_of(app: ApplicationView, file_name: Seq<char>) -> SaveRequestView {
    SaveRequestView {
        dir: app.game_dir,
        file_name: file_name,
        contents: encoded(app.game_phase, app.game_state),
    }
}

/// What a handler leaves to do once the store is released.
pub struct Dispatch {
    pub messages: Vec<Outbound>,
    pub saves: Vec<SaveRequest>,
}

impl Dispatch {
    pub open spec fn messages_view(&self) -> Seq<(u32, ServerEventView)> {
        outbound_view(self.messages@)
    }

    pub open spec fn saves_view(&self) -> Seq<SaveRequestView> {
        saves_view(self.saves@)
    }

    pub open spec fn is_empty(&self) -> bool {
        self.messages@.len() == 0 && self.saves@.len() == 0
    }

    pub fn empty() -> (r: Dispatch)
        ensures
            r.is_empty(),
    {
        Dispatch { messages: Vec::new(), saves: Vec::new() }
    }
}

/// Event `ev` for each connection of `ids`, appended to `out`.
pub fn push_notices(out: &mut Vec<Outbound>, ids: &Vec<u32>, ev: &ServerEvent)
    ensures
        outbound_view(final(out)@) == outbound_view(old(out)@) + notify(ids@, ev@),
{
    let ghost start = outbound_view(out@);
    let mut i: usize = 0;
    while i < ids.len()
        invariant
            i <= ids@.len(),
            outbound_view(out@) == start + notify(ids@.take(i as int), ev@),
        decreases ids@.len() - i,
    {
        let ghost prev = outbound_view(out@);
        out.push(Outbound { client_id: ids[i], event: ev.snapshot() });
        proof {
            assert(outbound_view(out@) =~= prev.push((ids@[i as int], ev@)));
            assert(notify(ids@.take(i as int + 1), ev@) =~= notify(ids@.take(i as int), ev@).push((ids@[i as int], ev@)));
        }
        i = i + 1;
    }
    assert(ids@.take(ids@.len() as int) =~= ids@);
}

/// The game of session `sd`, for every connection of that session.
pub fn update_clients_app(out: &mut Vec<Outbound>, clients: &ConnectionRegistry, sd: &ServerData)
    ensures
        outbound_view(final(out)@) == outbound_view(old(out)@) + notify(
            members(clients.live@, sd@.players_info),
            ServerEventView::UpdateApplication(sd@.app),
        ),
{
    let ids = roster_recipients(&sd.players_info, &clients.live);
    push_notices(out, &ids, &ServerEvent::UpdateApplication(sd.app.snapshot()));
}

/// Session `sd`, for every connection of that session.
pub fn update_clients_server_data(out: &mut Vec<Outbound>, clients: &ConnectionRegistry, sd: &ServerData)
    ensures
        outbound_view(final(out)@) == outbound_view(old(out)@) + notify(
            members(clients.live@, sd@.players_info),
            ServerEventView::UpdateServerData(sd@),
        ),
{
    let ids = roster_recipients(&sd.players_info, &clients.live);
    push_notices(out, &ids, &ServerEvent::UpdateServerData(sd.snapshot()));
}

/// The game, then the whole session, for every connection of session `sd`.
pub fn broadcast_session(out: &mut Vec<Outbound>, clients: &ConnectionRegistry, sd: &ServerData)
    ensures
        outbound_view(final(out)@) == outbound_view(old(out)@) + session_broadcast(clients.live@, sd@),
{
    let ghost start = outbound_view(out@);
    update_clients_app(out, clients, sd);
    update_clients_server_data(out, clients, sd);
    assert(outbound_view(out@) =~= start + session_broadcast(clients.live@, sd@));
}

/// The session index, for every open connection.
pub fn update_clients_ongoing_games(out: &mut Vec<Outbound>, gm: &GameStateManager, clients: &ConnectionRegistry)
    ensures
        outbound_view(final(out)@) == outbound_view(old(out)@) + notify(
            clients.live@,
            ServerEventView::UpdateOngoingGames(gm@.ongoing_games),
        ),
{
    push_notices(out, &clients.live, &ServerEvent::UpdateOngoingGames(copy_games(&gm.ongoing_games)));
}

/// Saving game `app` to file `file_name` of its directory.
pub fn save_game_manager_state(app: &Application, file_name: &str) -> (r: SaveRequest)
    ensures
        r@ == save_of(app@, file_name@),
{
    SaveRequest {
        dir: app.game_dir.clone(),
        file_name: String::from_str(file_name),
        contents: encode_snapshot(app.game_phase, app.game_state.as_str()),
    }
}

/// What the engine reports after resolving an attack: its new state, whether
/// the game is over, and how many automated turns follow.
pub struct AttackOutcome {
    pub game_state: String,
    pub game_ended: bool,
    pub pending_auto_turns: u32,
}

pub struct AttackOutcomeView {
    pub game_state: Seq<char>,
    pub game_ended: bool,
    pub pending_auto_turns: u32,
}

impl View for AttackOutcome {
    type V = AttackOutcomeView;

    open spec fn view(&self) -> AttackOutcomeView {
        AttackOutcomeView {
            game_state: self.game_state@,
            game_ended: self.game_ended,
            pending_auto_turns: self.pending_auto_turns,
        }
    }
}

/// `app` with engine state `state` and phase `phase`.
pub open spec fn with_state(app: ApplicationView, state: Seq<char>, phase: GamePhase) -> ApplicationView {
    ApplicationView {
        game_state: state,
        server_name: app.server_name,
        game_phase: phase,
        game_dir: app.game_dir,
        active_characters: app.active_characters,
    }
}

/// The game after an attack the engine resolved with outcome `o`.
pub open spec fn after_attack(app: ApplicationView, o: AttackOutcomeView) -> ApplicationView {
    with_state(app, o.game_state, if o.game_ended { GamePhase::Ended } else { GamePhase::Running })
}

/// Whether an attack may be launched in a session: it is live and running.
pub open spec fn attack_allowed(m: Map<Seq<char>, ServerDataView>, name: Seq<char>) -> bool {
    m.contains_key(name) && m[name].app.game_phase == GamePhase::Running
}

/// The live sessions after an attack on session `name` with outcome `o`.
pub open spec fn attack_applied(
    m: Map<Seq<char>, ServerDataView>,
    name: Seq<char>,
    o: AttackOutcomeView,
) -> Map<Seq<char>, ServerDataView> {
    if attack_allowed(m, name) {
        m.insert(name, with_app(m[name], after_attack(m[name].app, o)))
    } else {
        m
    }
}

fn app_with_state(app: &Application, state: String, phase: GamePhase) -> (r: Application)
    ensures
        r@ == with_state(app@, state@, phase),
{
    Application {
        game_state: state,
        server_name: app.server_name.clone(),
        game_phase: phase,
        game_dir: app.game_dir.clone(),
        active_characters: copy_strings(&app.active_characters),
    }
}

/// Records that connection `id` acts as player `name`.
pub fn add_player(gm: &mut GameStateManager, name: String, id: u32)
    requires
        old(gm)@.wf(),
    ensures
        final(gm)@.wf(),
        final(gm)@.directory() == old(gm)@.directory().insert(
            name@,
            with_id(
                if old(gm)@.directory().contains_key(name@) {
                    old(gm)@.directory()[name@]
                } else {
                    Seq::empty()
                },
                id,
            ),
        ),
        final(gm)@.servers_data == old(gm)@.servers_data,
        final(gm)@.ongoing_games == old(gm)@.ongoing_games,
{
    gm.add_player(name, id);
}

/// Tells every open connection that `username` logged in.
pub fn login_all_sessions(clients: &ConnectionRegistry, username: &str, sql_id: i64) -> (r: Vec<Outbound>)
    ensures
        outbound_view(r@) == notify(
            clients.live@,
            ServerEventView::ReconnectAllSessions(username@, sql_id),
        ),
{
    let mut out: Vec<Outbound> = Vec::new();
    push_notices(&mut out, &clients.live, &ServerEvent::ReconnectAllSessions(String::from_str(username), sql_id));
    assert(outbound_view(out@) =~= notify(clients.live@, ServerEventView::ReconnectAllSessions(username@, sql_id)));
    out
}

/// A copy of the game of live session `server_name`.
pub fn get_app_by_server_name(gm: &GameStateManager, server_name: &str) -> (r: Option<Application>)
    requires
        gm@.wf(),
    ensures
        match r {
            Some(app) => gm@.sessions().contains_key(server_name@) && app@ == gm@.sessions()[server_name@].app,
            None => !gm@.sessions().contains_key(server_name@),
        },
{
    gm.get_app_by_server_name(server_name)
}

/// A copy of live session `server_name`.
pub fn get_server_data_by_server_name(gm: &GameStateManager, server_name: &str) -> (r: Option<ServerData>)
    requires
        gm@.wf(),
    ensures
        match r {
            Some(sd) => gm@.sessions().contains_key(server_name@) && sd@ == gm@.sessions()[server_name@],
            None => !gm@.sessions().contains_key(server_name@),
        },
{
    gm.get_server_data_by_server_name(server_name)
}

/// Makes `app` the game of session `server_name`, owned by `player_name`,
/// whose roster holds connection `id` of that player alone.
pub fn add_server_data_with_player(
    gm: &mut GameStateManager,
    app: &Application,
    server_name: &str,
    id: u32,
    player_name: &str,
)
    requires
        old(gm)@.wf(),
    ensures
        final(gm)@.wf(),
        final(gm)@.same_outside_sessions(old(gm)@),
        final(gm)@.sessions().remove(server_name@) == old(gm)@.sessions().remove(server_name@),
        final(gm)@.sessions().contains_key(server_name@),
        final(gm)@.sessions()[server_name@].app == app@,
        final(gm)@.sessions()[server_name@].owner_player_name == player_name@,
        final(gm)@.sessions()[server_name@].roster() == map![
            player_name@ => PlayerInfoView { character_names: Seq::empty(), player_ids: seq![id] },
        ],
{
    let ghost before = gm@;
    gm.add_server_data(server_name, app, player_name);
    proof {
        assert(to_map(Seq::<(Seq<char>, PlayerInfoView)>::empty()) =~= Map::empty());
    }
    let ghost mid = gm@;
    gm.add_player_to_server(server_name, player_name, id);
    proof {
        assert(with_id_empty(id) =~= seq![id]);
        assert(gm@.sessions()[server_name@].roster() =~= map![
            player_name@ => PlayerInfoView { character_names: Seq::empty(), player_ids: seq![id] },
        ]);
        assert(mid.sessions().remove(server_name@) =~= before.sessions().remove(server_name@));
    }
}

spec fn with_id_empty(id: u32) -> Seq<u32> {
    with_id(Seq::empty(), id)
}

/// Adds connection `id` of `player_name` to session `server_name`, and sends
/// the session to its connections; nothing happens if it is not live.
pub fn update_lobby_page_after_joining_game(
    gm: &mut GameStateManager,
    clients: &ConnectionRegistry,
    server_name: &str,
    player_name: &str,
    id: u32,
) -> (r: Vec<Outbound>)
    requires
        old(gm)@.wf(),
    ensures
        final(gm)@.wf(),
        joined(old(gm)@, final(gm)@, server_name@, player_name@, id),
        old(gm)@.sessions().contains_key(server_name@) ==> outbound_view(r@) == notify(
            members(clients.live@, final(gm)@.sessions()[server_name@].players_info),
            ServerEventView::UpdateServerData(final(gm)@.sessions()[server_name@]),
        ),
        !old(gm)@.sessions().contains_key(server_name@) ==> r@.len() == 0,
{
    let mut out: Vec<Outbound> = Vec::new();
    gm.add_player_to_server(server_name, player_name, id);
    if let Some(sd) = gm.get_server_data_by_server_name(server_name) {
        update_clients_server_data(&mut out, clients, &sd);
        assert(outbound_view(out@) =~= notify(
            members(clients.live@, sd@.players_info),
            ServerEventView::UpdateServerData(sd@),
        ));
    }
    out
}

/// Session `name` of `n` is that of `o` after connection `id` of `player`
/// joined it; when it is not live, nothing changed.
pub open spec fn joined(o: GameStateManagerView, n: GameStateManagerView, name: Seq<char>, player: Seq<char>, id: u32) -> bool {
    if o.sessions().contains_key(name) {
        let s = o.sessions()[name];
        &&& only_session_changed(o, n, name)
        &&& roster_changed(s, n.sessions()[name], s.roster().insert(
            player,
            PlayerInfoView {
                character_names: entry_of(s.roster(), player).character_names,
                player_ids: with_id(entry_of(s.roster(), player).player_ids, id),
            },
        ))
    } else {
        n == o
    }
}

/// Session `name` of `n` is that of `o` after `player` chose `character`;
/// only a live session in the lobby or running takes a choice.
pub open spec fn character_chosen(
    o: GameStateManagerView,
    n: GameStateManagerView,
    name: Seq<char>,
    player: Seq<char>,
    character: Seq<char>,
) -> bool {
    if character_allowed(o, name) {
        let s = o.sessions()[name];
        let t = n.sessions()[name];
        &&& only_session_changed(o, n, name)
        &&& t.owner_player_name == s.owner_player_name
        &&& t.wf()
        &&& t.roster() == s.roster().insert(
            player,
            PlayerInfoView {
                character_names: seq![character],
                player_ids: entry_of(s.roster(), player).player_ids,
            },
        )
        &&& t.app == with_active(s.app, all_characters(t.players_info))
    } else {
        n == o
    }
}

/// `player_name` chooses `character_name` in session `server_name`, which
/// must be live and in the lobby or running; the session is then sent to its
/// connections.
pub fn add_character_on_server_data(
    gm: &mut GameStateManager,
    clients: &ConnectionRegistry,
    server_name: &str,
    player_name: &str,
    character_name: &str,
) -> (r: Vec<Outbound>)
    requires
        old(gm)@.wf(),
    ensures
        final(gm)@.wf(),
        character_chosen(old(gm)@, final(gm)@, server_name@, player_name@, character_name@),
        character_allowed(old(gm)@, server_name@) ==> outbound_view(r@) == session_broadcast(
            clients.live@,
            final(gm)@.sessions()[server_name@],
        ),
        !character_allowed(old(gm)@, server_name@) ==> r@.len() == 0,
{
    let mut out: Vec<Outbound> = Vec::new();
    let phase = match gm.get_app_by_server_name(server_name) {
        Some(app) => app.game_phase,
        None => {
            return out;
        },
    };
    if phase != GamePhase::InitGame && phase != GamePhase::Running {
        return out;
    }
    gm.assign_character(server_name, player_name, character_name);
    if let Some(sd) = gm.get_server_data_by_server_name(server_name) {
        broadcast_session(&mut out, clients, &sd);
        assert(outbound_view(out@) =~= session_broadcast(clients.live@, sd@));
    }
    out
}

/// A character may be chosen in session `name`: it is live, and in the lobby
/// or running.
pub open spec fn character_allowed(o: GameStateManagerView, name: Seq<char>) -> bool {
    o.sessions().contains_key(name) && (o.sessions()[name].app.game_phase == GamePhase::InitGame
        || o.sessions()[name].app.game_phase == GamePhase::Running)
}

/// Puts live session `server_name` in phase `Running` with engine state
/// `game_state`, saves it, and sends it to its connections; nothing happens if
/// it is not live.
fn run_from(
    gm: &mut GameStateManager,
    clients: &ConnectionRegistry,
    server_name: &str,
    game_state: String,
) -> (r: Dispatch)
    requires
        old(gm)@.wf(),
    ensures
        final(gm)@.wf(),
        old(gm)@.sessions().contains_key(server_name@) ==> {
            let s = old(gm)@.sessions()[server_name@];
            let app = with_state(s.app, game_state@, GamePhase::Running);
            &&& final(gm)@.sessions() == old(gm)@.sessions().insert(server_name@, with_app(s, app))
            &&& final(gm)@.same_outside_sessions(old(gm)@)
            &&& r.saves_view() == seq![
                save_of(app, SAVED_GAME_MANAGER@),
                save_of(app, SAVED_GAME_MANAGER_REPLAY@),
            ]
            &&& r.messages_view() == session_broadcast(clients.live@, with_app(s, app))
        },
        !old(gm)@.sessions().contains_key(server_name@) ==> final(gm)@ == old(gm)@ && r.is_empty(),
{
    let mut r = Dispatch::empty();
    let app = match gm.get_app_by_server_name(server_name) {
        Some(app) => app_with_state(&app, game_state, GamePhase::Running),
        None => {
            return r;
        },
    };
    r.saves.push(save_game_manager_state(&app, SAVED_GAME_MANAGER));
    r.saves.push(save_game_manager_state(&app, SAVED_GAME_MANAGER_REPLAY));
    gm.replace_app(server_name, app);
    if let Some(sd) = gm.get_server_data_by_server_name(server_name) {
        broadcast_session(&mut r.messages, clients, &sd);
    }
    proof {
        let s = old(gm)@.sessions()[server_name@];
        let app = with_state(s.app, game_state@, GamePhase::Running);
        assert(r.saves_view() =~= seq![
            save_of(app, SAVED_GAME_MANAGER@),
            save_of(app, SAVED_GAME_MANAGER_REPLAY@),
        ]);
        assert(r.messages_view() =~= session_broadcast(clients.live@, with_app(s, app)));
    }
    r
}

/// A game may start in session `name`: it is live and its game has not ended.
pub open spec fn start_allowed(o: GameStateManagerView, name: Seq<char>) -> bool {
    o.sessions().contains_key(name) && o.sessions()[name].app.game_phase != GamePhase::Ended
}

/// Starts the game of live session `server_name` with `game_state`, the
/// engine's state once started: the session runs, is saved and is sent to its
/// connections. A session whose game ended is left as it is; only a replay
/// runs it again.
pub fn start_new_game_by_player(
    gm: &mut GameStateManager,
    clients: &ConnectionRegistry,
    server_name: &str,
    game_state: String,
) -> (r: Dispatch)
    requires
        old(gm)@.wf(),
    ensures
        final(gm)@.wf(),
        start_allowed(old(gm)@, server_name@) ==> {
            let s = old(gm)@.sessions()[server_name@];
            let app = with_state(s.app, game_state@, GamePhase::Running);
            &&& final(gm)@.sessions() == old(gm)@.sessions().insert(server_name@, with_app(s, app))
            &&& final(gm)@.same_outside_sessions(old(gm)@)
            &&& r.saves_view() == seq![
                save_of(app, SAVED_GAME_MANAGER@),
                save_of(app, SAVED_GAME_MANAGER_REPLAY@),
            ]
            &&& r.messages_view() == session_broadcast(clients.live@, with_app(s, app))
        },
        !start_allowed(old(gm)@, server_name@) ==> final(gm)@ == old(gm)@ && r.is_empty(),
{
    match gm.get_app_by_server_name(server_name) {
        Some(app) => {
            if app.game_phase == GamePhase::Ended {
                return Dispatch::empty();
            }
        },
        None => {
            return Dispatch::empty();
        },
    }
    run_from(gm, clients, server_name, game_state)
}

/// The engine state to resolve an attack on, where one may be launched:
/// session `server_name` is live and running.
pub fn game_state_for_attack(gm: &GameStateManager, server_name: &str) -> (r: Option<String>)
    requires
        gm@.wf(),
    ensures
        match r {
            Some(s) => attack_allowed(gm@.sessions(), server_name@) && s@ == gm@.sessions()[server_name@].app.game_state,
            None => !attack_allowed(gm@.sessions(), server_name@),
        },
{
    match gm.get_app_by_server_name(server_name) {
        Some(app) => {
            if app.game_phase == GamePhase::Running {
                Some(app.game_state)
            } else {
                None
            }
        },
        None => None,
    }
}

/// Applies an attack the engine resolved with `outcome` to session
/// `server_name`, if it is live and running: the session takes the new state,
/// ends if the game is over, is saved and is sent to its connections. Returns
/// that, and how many automated turns to schedule. On a session that is not
/// running nothing changes and nothing is sent.
pub fn update_app_after_atk(
    gm: &mut GameStateManager,
    clients: &ConnectionRegistry,
    server_name: &str,
    outcome: AttackOutcome,
) -> (r: (Dispatch, u32))
    requires
        old(gm)@.wf(),
    ensures
        final(gm)@.wf(),
        final(gm)@.sessions() == attack_applied(old(gm)@.sessions(), server_name@, outcome@),
        final(gm)@.same_outside_sessions(old(gm)@),
        attack_allowed(old(gm)@.sessions(), server_name@) ==> {
            let t = final(gm)@.sessions()[server_name@];
            &&& r.0.saves_view() == seq![save_of(t.app, SAVED_GAME_MANAGER@)]
            &&& r.0.messages_view() == session_broadcast(clients.live@, t)
            &&& r.1 == if outcome.game_ended { 0 } else { outcome.pending_auto_turns }
        },
        !attack_allowed(old(gm)@.sessions(), server_name@) ==> final(gm)@ == old(gm)@ && r.0.is_empty()
            && r.1 == 0,
{
    let mut r = Dispatch::empty();
    let app = match gm.get_app_by_server_name(server_name) {
        Some(app) => app,
        None => {
            return (r, 0);
        },
    };
    if app.game_phase != GamePhase::Running {
        return (r, 0);
    }
    let ended = outcome.game_ended;
    let pending = outcome.pending_auto_turns;
    let phase = if ended {
        GamePhase::Ended
    } else {
        GamePhase::Running
    };
    let next = app_with_state(&app, outcome.game_state, phase);
    r.saves.push(save_game_manager_state(&next, SAVED_GAME_MANAGER));
    gm.replace_app(server_name, next);
    if let Some(sd) = gm.get_server_data_by_server_name(server_name) {
        broadcast_session(&mut r.messages, clients, &sd);
    }
    proof {
        let t = gm@.sessions()[server_name@];
        assert(r.saves_view() =~= seq![save_of(t.app, SAVED_GAME_MANAGER@)]);
        assert(r.messages_view() =~= session_broadcast(clients.live@, t));
    }
    (r, if ended { 0 } else { pending })
}

/// Applies a change the engine made to the state of session `server_name`
/// (a choice of targets), and sends the session to its connections; nothing
/// happens if it is not live.
pub fn apply_engine_update(
    gm: &mut GameStateManager,
    clients: &ConnectionRegistry,
    server_name: &str,
    game_state: String,
) -> (r: Vec<Outbound>)
    requires
        old(gm)@.wf(),
    ensures
        final(gm)@.wf(),
        old(gm)@.sessions().contains_key(server_name@) ==> {
            let s = old(gm)@.sessions()[server_name@];
            let t = with_app(s, with_state(s.app, game_state@, s.app.game_phase));
            &&& final(gm)@.sessions() == old(gm)@.sessions().insert(server_name@, t)
            &&& final(gm)@.same_outside_sessions(old(gm)@)
            &&& outbound_view(r@) == session_broadcast(clients.live@, t)
        },
        !old(gm)@.sessions().contains_key(server_name@) ==> final(gm)@ == old(gm)@ && r@.len() == 0,
{
    let mut out: Vec<Outbound> = Vec::new();
    let app = match gm.get_app_by_server_name(server_name) {
        Some(app) => app,
        None => {
            return out;
        },
    };
    let phase = app.game_phase;
    let next = app_with_state(&app, game_state, phase);
    gm.replace_app(server_name, next);
    if let Some(sd) = gm.get_server_data_by_server_name(server_name) {
        broadcast_session(&mut out, clients, &sd);
        assert(outbound_view(out@) =~= session_broadcast(clients.live@, sd@));
    }
    out
}

/// Saving live session `server_name` to its current file.
pub fn process_save_game(gm: &GameStateManager, server_name: &str) -> (r: Option<SaveRequest>)
    requires
        gm@.wf(),
    ensures
        match r {
            Some(req) => gm@.sessions().contains_key(server_name@) && req@ == save_of(
                gm@.sessions()[server_name@].app,
                SAVED_GAME_MANAGER@,
            ),
            None => !gm@.sessions().contains_key(server_name@),
        },
{
    match gm.get_app_by_server_name(server_name) {
        Some(app) => Some(save_game_manager_state(&app, SAVED_GAME_MANAGER)),
        None => None,
    }
}

/// Keeps the list of saved games read from storage, and sends it to every
/// open connection.
pub fn update_saved_game_list_display(
    gm: &mut GameStateManager,
    clients: &ConnectionRegistry,
    games: Vec<String>,
) -> (r: Vec<Outbound>)
    requires
        old(gm)@.wf(),
    ensures
        final(gm)@.wf(),
        final(gm)@.saved_games_list == strings_view(games@),
        final(gm)@.players == old(gm)@.players,
        final(gm)@.ongoing_games == old(gm)@.ongoing_games,
        final(gm)@.servers_data == old(gm)@.servers_data,
        outbound_view(r@) == notify(clients.live@, ServerEventView::AnswerSavedGameList(strings_view(games@))),
{
    let mut out: Vec<Outbound> = Vec::new();
    push_notices(&mut out, &clients.live, &ServerEvent::AnswerSavedGameList(copy_strings(&games)));
    gm.saved_games_list = games;
    assert(outbound_view(out@) =~= notify(clients.live@, ServerEventView::AnswerSavedGameList(strings_view(games@))));
    out
}

/// Sends the session index to connection `client_id`, if it is open.
pub fn update_ongoing_games_list_display(
    gm: &GameStateManager,
    clients: &ConnectionRegistry,
    client_id: u32,
) -> (r: Vec<Outbound>)
    ensures
        outbound_view(r@) == if clients.live@.contains(client_id) {
            seq![(client_id, ServerEventView::UpdateOngoingGames(gm@.ongoing_games))]
        } else {
            Seq::empty()
        },
{
    let mut out: Vec<Outbound> = Vec::new();
    if clients.is_live(client_id) {
        out.push(Outbound { client_id, event: ServerEvent::UpdateOngoingGames(copy_games(&gm.ongoing_games)) });
    }
    assert(outbound_view(out@) =~= if clients.live@.contains(client_id) {
        seq![(client_id, ServerEventView::UpdateOngoingGames(gm@.ongoing_games))]
    } else {
        Seq::empty()
    });
    out
}

/// `msgs`, `n` and `o` agree with connection `id` of `player` leaving session
/// `name`: the connection is pruned; when the owner has no connection left,
/// every connection of the session is told it ended, the session leaves the
/// store and the index, and every open connection gets the index; otherwise
/// the leaving connection is told it is out and the rest get the session.
pub open spec fn disconnected(
    o: GameStateManagerView,
    n: GameStateManagerView,
    live: Seq<u32>,
    msgs: Seq<(u32, ServerEventView)>,
    name: Seq<char>,
    player: Seq<char>,
    id: u32,
) -> bool {
    if !o.sessions().contains_key(name) {
        &&& n.servers_data == o.servers_data
        &&& n.ongoing_games == o.ongoing_games
        &&& n.saved_games_list == o.saved_games_list
        &&& msgs.len() == 0
    } else {
        let s = o.sessions()[name];
        let roster = roster_after_removal(s.roster(), player, id);
        if player == s.owner_player_name && !roster.contains_key(player) {
            &&& n.sessions() == o.sessions().remove(name)
            &&& n.ongoing_games == without_server(o.ongoing_games, name)
            &&& n.saved_games_list == o.saved_games_list
            &&& msgs == notify(members(live, s.players_info), ServerEventView::EndOfServerData)
                + notify(live, ServerEventView::UpdateOngoingGames(n.ongoing_games))
        } else {
            &&& n.sessions().dom() == o.sessions().dom()
            &&& n.sessions().remove(name) == o.sessions().remove(name)
            &&& roster_pruned(s, n.sessions()[name], roster)
            &&& n.ongoing_games == o.ongoing_games
            &&& n.saved_games_list == o.saved_games_list
            &&& msgs == notify(
                if live.contains(id) { seq![id] } else { Seq::empty() },
                ServerEventView::EndOfServerData,
            ) + session_broadcast(live, n.sessions()[name])
        }
    }
}

/// Connection `client_id` of `player_name` leaves session `server_name`.
pub fn send_disconnection_to_server_data(
    gm: &mut GameStateManager,
    clients: &ConnectionRegistry,
    client_id: u32,
    server_name: &str,
    player_name: &str,
) -> (r: Vec<Outbound>)
    requires
        old(gm)@.wf(),
    ensures
        final(gm)@.wf(),
        final(gm)@.players == old(gm)@.players,
        disconnected(old(gm)@, final(gm)@, clients.live@, outbound_view(r@), server_name@, player_name@, client_id),
{
    let mut out: Vec<Outbound> = Vec::new();
    let sd = match gm.get_server_data_by_server_name(server_name) {
        Some(sd) => sd,
        None => {
            return out;
        },
    };
    let ghost before = gm@;
    gm.remove_connection(server_name, player_name, client_id);
    let ghost mid = gm@;
    if text_eq(player_name, sd.owner_player_name.as_str()) && !gm.player_in_session(server_name, player_name) {
        let ids = roster_recipients(&sd.players_info, &clients.live);
        push_notices(&mut out, &ids, &ServerEvent::EndOfServerData);
        gm.teardown_session(server_name);
        update_clients_ongoing_games(&mut out, gm, clients);
        proof {
            assert(gm@.sessions() =~= before.sessions().remove(server_name@)) by {
                assert(mid.sessions().remove(server_name@) == before.sessions().remove(server_name@));
            }
            assert(outbound_view(out@) =~= notify(members(clients.live@, sd@.players_info), ServerEventView::EndOfServerData)
                + notify(clients.live@, ServerEventView::UpdateOngoingGames(gm@.ongoing_games)));
        }
    } else {
        if clients.is_live(client_id) {
            out.push(Outbound { client_id, event: ServerEvent::EndOfServerData });
        }
        let ghost first = outbound_view(out@);
        proof {
            assert(first =~= notify(
                if clients.live@.contains(client_id) { seq![client_id] } else { Seq::empty() },
                ServerEventView::EndOfServerData,
            ));
        }
        if let Some(nsd) = gm.get_server_data_by_server_name(server_name) {
            broadcast_session(&mut out, clients, &nsd);
        }
    }
    out
}

/// Once connection `id` of `player` is pruned from a roster, that player's
/// entry no longer holds it.
pub proof fn lemma_removal_drops_id(r: Map<Seq<char>, PlayerInfoView>, player: Seq<char>, id: u32)
    ensures
        !entry_of(roster_after_removal(r, player, id), player).player_ids.contains(id),
{
    if r.contains_key(player) {
        lemma_without_id(r[player].player_ids, id);
    }
}

/// Event `ev` for `c` is among those for `ids`, when `c` is.
pub proof fn lemma_notify_contains(ids: Seq<u32>, ev: ServerEventView, c: u32)
    requires
        ids.contains(c),
    ensures
        notify(ids, ev).contains((c, ev)),
{
    let i = choose|i: int| 0 <= i < ids.len() && ids[i] == c;
    assert(notify(ids, ev)[i] == (c, ev));
}

/// `msgs`, `n` and `o` agree with connection `id` closing, in session `name`:
/// the connection leaves every entry of the roster, and an entry left with
/// none goes. When the owner's entry held it and goes, every connection of
/// the roster is told the session ended, the session leaves the store and the
/// index, and every open connection gets the index; otherwise the others get
/// the session.
pub open spec fn closed(
    o: GameStateManagerView,
    n: GameStateManagerView,
    live: Seq<u32>,
    msgs: Seq<(u32, ServerEventView)>,
    name: Seq<char>,
    id: u32,
) -> bool {
    if !o.sessions().contains_key(name) {
        &&& n.servers_data == o.servers_data
        &&& n.ongoing_games == o.ongoing_games
        &&& n.saved_games_list == o.saved_games_list
        &&& msgs.len() == 0
    } else {
        let s = o.sessions()[name];
        if closing_ends(s, id) {
            &&& n.sessions() == o.sessions().remove(name)
            &&& n.ongoing_games == without_server(o.ongoing_games, name)
            &&& n.saved_games_list == o.saved_games_list
            &&& msgs == notify(members(live, s.players_info), ServerEventView::EndOfServerData)
                + notify(live, ServerEventView::UpdateOngoingGames(n.ongoing_games))
        } else {
            &&& n.sessions().dom() == o.sessions().dom()
            &&& n.sessions().remove(name) == o.sessions().remove(name)
            &&& roster_pruned(s, n.sessions()[name], roster_without_connection(s.roster(), id))
            &&& n.ongoing_games == o.ongoing_games
            &&& n.saved_games_list == o.saved_games_list
            &&& msgs == session_broadcast(live, n.sessions()[name])
        }
    }
}

/// Closed connection `client_id` leaves session `server_name`.
pub fn leave_on_close(
    gm: &mut GameStateManager,
    clients: &ConnectionRegistry,
    client_id: u32,
    server_name: &str,
) -> (r: Vec<Outbound>)
    requires
        old(gm)@.wf(),
    ensures
        final(gm)@.wf(),
        final(gm)@.players == old(gm)@.players,
        closed(old(gm)@, final(gm)@, clients.live@, outbound_view(r@), server_name@, client_id),
{
    let mut out: Vec<Outbound> = Vec::new();
    let sd = match gm.get_server_data_by_server_name(server_name) {
        Some(sd) => sd,
        None => {
            return out;
        },
    };
    let ghost before = gm@;
    let held = gm.player_holds_connection(server_name, sd.owner_player_name.as_str(), client_id);
    gm.prune_connection(server_name, client_id);
    let ghost mid = gm@;
    if held && !gm.player_in_session(server_name, sd.owner_player_name.as_str()) {
        let ids = roster_recipients(&sd.players_info, &clients.live);
        push_notices(&mut out, &ids, &ServerEvent::EndOfServerData);
        gm.teardown_session(server_name);
        update_clients_ongoing_games(&mut out, gm, clients);
        proof {
            assert(gm@.sessions() =~= before.sessions().remove(server_name@)) by {
                assert(mid.sessions().remove(server_name@) == before.sessions().remove(server_name@));
            }
            assert(outbound_view(out@) =~= notify(members(clients.live@, sd@.players_info), ServerEventView::EndOfServerData)
                + notify(clients.live@, ServerEventView::UpdateOngoingGames(gm@.ongoing_games)));
        }
    } else {
        if let Some(nsd) = gm.get_server_data_by_server_name(server_name) {
            broadcast_session(&mut out, clients, &nsd);
            assert(outbound_view(out@) =~= session_broadcast(clients.live@, nsd@));
        }
    }
    out
}

/// Whether session `k` left the store between `o` and `n`.
pub open spec fn ended_between(o: GameStateManagerView, n: GameStateManagerView, k: Seq<char>) -> bool {
    o.sessions().contains_key(k) && !n.sessions().contains_key(k)
}

/// Session `k` held connection `id` in `o` and is still live in `n`, without it.
pub open spec fn kept_after_close(o: GameStateManagerView, n: GameStateManagerView, k: Seq<char>, id: u32) -> bool {
    &&& o.sessions().contains_key(k)
    &&& roster_has_id(o.sessions()[k].players_info, id)
    &&& n.sessions().contains_key(k)
    &&& !roster_has_id(n.sessions()[k].players_info, id)
}

/// `x` is one of the messages that closing connection `id` may send, from
/// `o` to `n`: to an open connection, the end of a session that ended and
/// whose roster held it, the index, or the game or session of a session that
/// held `id` and stays live, whose roster holds the recipient.
pub open spec fn close_message(
    o: GameStateManagerView,
    n: GameStateManagerView,
    live: Seq<u32>,
    id: u32,
    x: (u32, ServerEventView),
) -> bool {
    &&& live.contains(x.0)
    &&& {
        ||| x.1 == ServerEventView::EndOfServerData && exists|k: Seq<char>|
            ended_between(o, n, k) && #[trigger] roster_has_id(o.sessions()[k].players_info, x.0)
        ||| x.1 is UpdateOngoingGames
        ||| exists|k: Seq<char>|
            kept_after_close(o, n, k, id) && #[trigger] roster_has_id(n.sessions()[k].players_info, x.0)
            && (x.1 == ServerEventView::UpdateApplication(n.sessions()[k].app)
                || x.1 == ServerEventView::UpdateServerData(n.sessions()[k]))
    }
}

/// Connection `client_id` closed: it leaves every entry of the player
/// directory and every entry of every live session, whatever player those
/// entries are for, as by `leave_on_close`. Returns a player the directory
/// had for it, if any, and what to send.
pub fn send_disconnection_to_server_manager(
    gm: &mut GameStateManager,
    clients: &ConnectionRegistry,
    client_id: u32,
) -> (r: (Option<String>, Vec<Outbound>))
    requires
        old(gm)@.wf(),
    ensures
        final(gm)@.wf(),
        final(gm)@.saved_games_list == old(gm)@.saved_games_list,
        final(gm)@.directory() == directory_without_connection(old(gm)@.directory(), client_id),
        forall|k: Seq<char>| #[trigger] final(gm)@.directory().contains_key(k)
            ==> !final(gm)@.directory()[k].contains(client_id),
        match r.0 {
            Some(name) => old(gm)@.directory().contains_key(name@)
                && old(gm)@.directory()[name@].contains(client_id),
            None => forall|k: Seq<char>| #[trigger] old(gm)@.directory().contains_key(k)
                ==> !old(gm)@.directory()[k].contains(client_id),
        },
        forall|k: Seq<char>| #[trigger] final(gm)@.sessions().contains_key(k)
            ==> old(gm)@.sessions().contains_key(k)
            && !roster_has_id(final(gm)@.sessions()[k].players_info, client_id),
        forall|k: Seq<char>| #[trigger] old(gm)@.sessions().contains_key(k)
            && !roster_has_id(old(gm)@.sessions()[k].players_info, client_id)
            ==> final(gm)@.sessions().contains_key(k) && final(gm)@.sessions()[k] == old(gm)@.sessions()[k],
        forall|k: Seq<char>| #[trigger] old(gm)@.sessions().contains_key(k)
            && roster_has_id(old(gm)@.sessions()[k].players_info, client_id)
            && !closing_ends(old(gm)@.sessions()[k], client_id)
            ==> final(gm)@.sessions().contains_key(k) && roster_pruned(
                old(gm)@.sessions()[k],
                final(gm)@.sessions()[k],
                roster_without_connection(old(gm)@.sessions()[k].roster(), client_id),
            ),
        forall|k: Seq<char>| #[trigger] old(gm)@.sessions().contains_key(k)
            ==> (closing_ends(old(gm)@.sessions()[k], client_id) <==> !final(gm)@.sessions().contains_key(k)),
        forall|k: Seq<char>, c: u32|
            ended_between(old(gm)@, final(gm)@, k) && clients.live@.contains(c)
            && #[trigger] roster_has_id(old(gm)@.sessions()[k].players_info, c)
            ==> outbound_view(r.1@).contains((c, ServerEventView::EndOfServerData)),
        forall|g: OnGoingGameView| #[trigger] final(gm)@.ongoing_games.contains(g)
            <==> (old(gm)@.ongoing_games.contains(g) && !ended_between(old(gm)@, final(gm)@, g.server_name)),
        forall|k: Seq<char>, c: u32|
            kept_after_close(old(gm)@, final(gm)@, k, client_id) && clients.live@.contains(c)
            && #[trigger] roster_has_id(final(gm)@.sessions()[k].players_info, c)
            ==> outbound_view(r.1@).contains((c, ServerEventView::UpdateApplication(final(gm)@.sessions()[k].app)))
            && outbound_view(r.1@).contains((c, ServerEventView::UpdateServerData(final(gm)@.sessions()[k]))),
        forall|q: int| 0 <= q < r.1@.len()
            ==> close_message(old(gm)@, final(gm)@, clients.live@, client_id, #[trigger] outbound_view(r.1@)[q]),
{
    let who = gm.drop_connection(client_id);
    let ghost start = gm@;
    let names = gm.session_names();
    let mut out: Vec<Outbound> = Vec::new();
    let mut i: usize = 0;
    while i < names.len()
        invariant
            gm@.wf(),
            start.wf(),
            start.sessions() == old(gm)@.sessions(),
            start.ongoing_games == old(gm)@.ongoing_games,
            start.saved_games_list == old(gm)@.saved_games_list,
            gm@.players == start.players,
            gm@.saved_games_list == start.saved_games_list,
            names@.len() == start.servers_data.len(),
            forall|j: int| 0 <= j < names@.len() ==> (#[trigger] names@[j])@ == start.servers_data[j].0,
            i <= names@.len(),
            forall|k: Seq<char>| #[trigger] gm@.sessions().contains_key(k) ==> start.sessions().contains_key(k),
            forall|k: Seq<char>| #[trigger] start.sessions().contains_key(k)
                && !roster_has_id(start.sessions()[k].players_info, client_id)
                ==> gm@.sessions().contains_key(k) && gm@.sessions()[k] == start.sessions()[k],
            forall|j: int| 0 <= j < i && roster_has_id(start.sessions()[#[trigger] names@[j]@].players_info, client_id)
                ==> if closing_ends(start.sessions()[names@[j]@], client_id) {
                    !gm@.sessions().contains_key(names@[j]@)
                } else {
                    gm@.sessions().contains_key(names@[j]@) && roster_pruned(
                        start.sessions()[names@[j]@],
                        gm@.sessions()[names@[j]@],
                        roster_without_connection(start.sessions()[names@[j]@].roster(), client_id),
                    )
                },
            forall|j: int| i <= j < names@.len() ==> gm@.sessions().contains_key(#[trigger] names@[j]@)
                && gm@.sessions()[names@[j]@] == start.sessions()[names@[j]@],
            forall|k: Seq<char>| #[trigger] ended_between(start, gm@, k) ==> closing_ends(start.sessions()[k], client_id),
            forall|k: Seq<char>, c: u32|
                ended_between(start, gm@, k) && clients.live@.contains(c)
                && #[trigger] roster_has_id(start.sessions()[k].players_info, c)
                ==> outbound_view(out@).contains((c, ServerEventView::EndOfServerData)),
            forall|g: OnGoingGameView| #[trigger] gm@.ongoing_games.contains(g)
                <==> (start.ongoing_games.contains(g) && !ended_between(start, gm@, g.server_name)),
            forall|k: Seq<char>, c: u32|
                kept_after_close(start, gm@, k, client_id) && clients.live@.contains(c)
                && #[trigger] roster_has_id(gm@.sessions()[k].players_info, c)
                ==> outbound_view(out@).contains((c, ServerEventView::UpdateApplication(gm@.sessions()[k].app)))
                && outbound_view(out@).contains((c, ServerEventView::UpdateServerData(gm@.sessions()[k]))),
            forall|q: int| 0 <= q < out@.len()
                ==> close_message(start, gm@, clients.live@, client_id, #[trigger] outbound_view(out@)[q]),
        decreases names@.len() - i,
    {
        let ghost k0 = names@[i as int]@;
        if gm.session_has_connection(names[i].as_str(), client_id) {
            let ghost before = gm@;
            let ghost out_before = outbound_view(out@);
            let mut msgs = leave_on_close(gm, clients, client_id, names[i].as_str());
            let ghost step = outbound_view(msgs@);
            out.append(&mut msgs);
            proof {
                let s = before.sessions()[k0];
                assert(s == start.sessions()[k0]);
                assert(outbound_view(out@) =~= out_before + step);
                assert forall|x: (u32, ServerEventView)| out_before.contains(x) implies #[trigger] outbound_view(out@).contains(x) by {
                    let q = choose|q: int| 0 <= q < out_before.len() && out_before[q] == x;
                    assert(outbound_view(out@)[q] == x);
                }
                assert forall|j: int| i < j < names@.len() implies names@[j]@ != k0 by {
                    assert(start.servers_data[j].0 != start.servers_data[i as int].0);
                }
                let ends = closing_ends(s, client_id);
                assert forall|k: Seq<char>| k != k0 && #[trigger] gm@.sessions().contains_key(k)
                    implies before.sessions().contains_key(k) && gm@.sessions()[k] == before.sessions()[k] by {
                    if ends {
                        assert(gm@.sessions() == before.sessions().remove(k0));
                    } else {
                        assert(gm@.sessions().remove(k0) == before.sessions().remove(k0));
                        assert(gm@.sessions().remove(k0).contains_key(k));
                        assert(gm@.sessions().remove(k0)[k] == gm@.sessions()[k]);
                        assert(before.sessions().remove(k0)[k] == before.sessions()[k]);
                    }
                }
                assert forall|k: Seq<char>| k != k0 && #[trigger] before.sessions().contains_key(k)
                    implies gm@.sessions().contains_key(k) by {
                    assert(before.sessions().remove(k0).contains_key(k));
                }
                if ends {
                    lemma_members(clients.live@, s.players_info);
                    assert forall|c: u32| clients.live@.contains(c) && #[trigger] roster_has_id(s.players_info, c)
                        implies outbound_view(out@).contains((c, ServerEventView::EndOfServerData)) by {
                        lemma_notify_contains(members(clients.live@, s.players_info), ServerEventView::EndOfServerData, c);
                        let ended = notify(members(clients.live@, s.players_info), ServerEventView::EndOfServerData);
                        let q = choose|q: int| 0 <= q < ended.len() && ended[q] == (c, ServerEventView::EndOfServerData);
                        assert(step[q] == ended[q]);
                        assert(outbound_view(out@)[out_before.len() + q] == step[q]);
                    }
                    lemma_without_server_contains(before.ongoing_games, k0);
                }
                assert forall|k: Seq<char>| #[trigger] ended_between(start, gm@, k)
                    implies closing_ends(start.sessions()[k], client_id) by {
                    if k == k0 {
                        if !ends {
                            assert(gm@.sessions().dom() == before.sessions().dom());
                        }
                    } else {
                        assert(ended_between(start, before, k));
                    }
                }
                assert forall|g: OnGoingGameView| #[trigger] gm@.ongoing_games.contains(g)
                    <==> (start.ongoing_games.contains(g) && !ended_between(start, gm@, g.server_name)) by {
                    assert(before.ongoing_games.contains(g) <==> (start.ongoing_games.contains(g)
                        && !ended_between(start, before, g.server_name)));
                }
                let live = clients.live@;
                let ob = out_before.len() as int;
                assert forall|x: (u32, ServerEventView)| step.contains(x) implies #[trigger] outbound_view(out@).contains(x) by {
                    let q = choose|q: int| 0 <= q < step.len() && step[q] == x;
                    assert(outbound_view(out@)[ob + q] == x);
                }
                assert(before.sessions().contains_key(k0) && roster_has_id(before.sessions()[k0].players_info, client_id));
                if !ends {
                    lemma_sessions_wf(gm@);
                    lemma_connection_gone(gm@.sessions()[k0].players_info, s.roster(), client_id);
                    assert(kept_after_close(start, gm@, k0, client_id));
                    lemma_members(live, gm@.sessions()[k0].players_info);
                }
                assert forall|k: Seq<char>, c: u32|
                    kept_after_close(start, gm@, k, client_id) && live.contains(c)
                    && #[trigger] roster_has_id(gm@.sessions()[k].players_info, c)
                    implies outbound_view(out@).contains((c, ServerEventView::UpdateApplication(gm@.sessions()[k].app)))
                    && outbound_view(out@).contains((c, ServerEventView::UpdateServerData(gm@.sessions()[k]))) by {
                    if k == k0 {
                        let t = gm@.sessions()[k0];
                        let ids = members(live, t.players_info);
                        assert(ids.contains(c));
                        lemma_notify_contains(ids, ServerEventView::UpdateApplication(t.app), c);
                        lemma_notify_contains(ids, ServerEventView::UpdateServerData(t), c);
                        let a = notify(ids, ServerEventView::UpdateApplication(t.app));
                        let b = notify(ids, ServerEventView::UpdateServerData(t));
                        let qa = choose|q: int| 0 <= q < a.len() && a[q] == (c, ServerEventView::UpdateApplication(t.app));
                        let qb = choose|q: int| 0 <= q < b.len() && b[q] == (c, ServerEventView::UpdateServerData(t));
                        assert(step[qa] == a[qa]);
                        assert(step[a.len() + qb] == b[qb]);
                        assert(step.contains((c, ServerEventView::UpdateApplication(t.app))));
                        assert(step.contains((c, ServerEventView::UpdateServerData(t))));
                    } else {
                        assert(kept_after_close(start, before, k, client_id));
                        assert(roster_has_id(before.sessions()[k].players_info, c));
                    }
                }
                if ends {
                    lemma_members(live, s.players_info);
                }
                assert forall|q: int| 0 <= q < out@.len()
                    implies close_message(start, gm@, live, client_id, #[trigger] outbound_view(out@)[q]) by {
                    let x = outbound_view(out@)[q];
                    if q < ob {
                        assert(x == out_before[q]);
                        assert(close_message(start, before, live, client_id, out_before[q]));
                        if x.1 == ServerEventView::EndOfServerData {
                            let k = choose|k: Seq<char>| ended_between(start, before, k)
                                && #[trigger] roster_has_id(start.sessions()[k].players_info, x.0);
                            assert(k != k0);
                            assert(ended_between(start, gm@, k));
                        } else if x.1 is UpdateOngoingGames {
                        } else {
                            let k = choose|k: Seq<char>| kept_after_close(start, before, k, client_id)
                                && #[trigger] roster_has_id(before.sessions()[k].players_info, x.0)
                                && (x.1 == ServerEventView::UpdateApplication(before.sessions()[k].app)
                                    || x.1 == ServerEventView::UpdateServerData(before.sessions()[k]));
                            assert(k != k0);
                            assert(kept_after_close(start, gm@, k, client_id));
                            assert(roster_has_id(gm@.sessions()[k].players_info, x.0));
                        }
                    } else {
                        let q2 = q - ob;
                        assert(x == step[q2]);
                        if ends {
                            let ids = members(live, s.players_info);
                            let e = notify(ids, ServerEventView::EndOfServerData);
                            if q2 < e.len() {
                                assert(x == e[q2]);
                                assert(ids.contains(ids[q2]));
                                assert(ended_between(start, gm@, k0));
                                assert(roster_has_id(start.sessions()[k0].players_info, x.0));
                            } else {
                                let u = notify(live, ServerEventView::UpdateOngoingGames(gm@.ongoing_games));
                                assert(x == u[q2 - e.len()]);
                                assert(live.contains(live[q2 - e.len()]));
                            }
                        } else {
                            let t = gm@.sessions()[k0];
                            let ids = members(live, t.players_info);
                            let a = notify(ids, ServerEventView::UpdateApplication(t.app));
                            let b = notify(ids, ServerEventView::UpdateServerData(t));
                            if q2 < a.len() {
                                assert(x == a[q2]);
                                assert(ids.contains(ids[q2]));
                            } else {
                                assert(x == b[q2 - a.len()]);
                                assert(ids.contains(ids[q2 - a.len()]));
                            }
                            assert(roster_has_id(t.players_info, x.0));
                        }
                    }
                }
            }
        }
        i = i + 1;
    }
    proof {
        lemma_sessions_wf(gm@);
        assert forall|k: Seq<char>| #[trigger] gm@.sessions().contains_key(k)
            implies !roster_has_id(gm@.sessions()[k].players_info, client_id) by {
            assert(start.sessions().contains_key(k));
            let j = key_index(start.servers_data, k);
            assert(names@[j]@ == k);
            if roster_has_id(start.sessions()[k].players_info, client_id) {
                lemma_connection_gone(gm@.sessions()[k].players_info,
                    start.sessions()[k].roster(), client_id);
            }
        }
        assert forall|k: Seq<char>| #[trigger] start.sessions().contains_key(k)
            && roster_has_id(start.sessions()[k].players_info, client_id)
            && !closing_ends(start.sessions()[k], client_id)
            implies gm@.sessions().contains_key(k) && roster_pruned(
                start.sessions()[k],
                gm@.sessions()[k],
                roster_without_connection(start.sessions()[k].roster(), client_id),
            ) by {
            let j = key_index(start.servers_data, k);
            assert(names@[j]@ == k);
        }
        lemma_sessions_wf(start);
        assert forall|k: Seq<char>| #[trigger] start.sessions().contains_key(k)
            implies (closing_ends(start.sessions()[k], client_id) <==> !gm@.sessions().contains_key(k)) by {
            let j = key_index(start.servers_data, k);
            assert(names@[j]@ == k);
            if closing_ends(start.sessions()[k], client_id) {
                lemma_holds_connection(start.sessions()[k], start.sessions()[k].owner_player_name, client_id);
            }
            if !gm@.sessions().contains_key(k) {
                assert(ended_between(start, gm@, k));
            }
        }
    }
    (who, out)
}

/// Player `user_name` logged out: it leaves the player directory and the
/// session named after it.
pub fn send_logout_to_server(gm: &mut GameStateManager, user_name: &str)
    requires
        old(gm)@.wf(),
    ensures
        final(gm)@.wf(),
        final(gm)@.directory() == old(gm)@.directory().remove(user_name@),
        final(gm)@.ongoing_games == old(gm)@.ongoing_games,
        final(gm)@.saved_games_list == old(gm)@.saved_games_list,
        old(gm)@.sessions().contains_key(user_name@) ==> {
            let s = old(gm)@.sessions()[user_name@];
            &&& final(gm)@.sessions().dom() == old(gm)@.sessions().dom()
            &&& final(gm)@.sessions().remove(user_name@) == old(gm)@.sessions().remove(user_name@)
            &&& roster_pruned(s, final(gm)@.sessions()[user_name@], s.roster().remove(user_name@))
        },
        !old(gm)@.sessions().contains_key(user_name@) ==> final(gm)@.servers_data == old(gm)@.servers_data,
{
    gm.remove_player(user_name);
    gm.remove_from_roster(user_name, user_name);
}

/// A new game in the lobby, before any player chose a character.
pub open spec fn fresh_app(state: Seq<char>, name: Seq<char>, dir: Seq<char>) -> ApplicationView {
    ApplicationView {
        game_state: state,
        server_name: name,
        game_phase: GamePhase::InitGame,
        game_dir: dir,
        active_characters: Seq::empty(),
    }
}

/// Player `player_name` on connection `id` creates session `server_name` with
/// a new game (engine state `game_state`, files under `game_dir`): it owns the
/// session, is its only player, and the session waits in the lobby. It is
/// saved, sent to its connection, and the index to every open connection.
/// A session of that name that is live already is left as it is.
pub fn init_new_game_by_player(
    gm: &mut GameStateManager,
    clients: &ConnectionRegistry,
    server_name: &str,
    id: u32,
    player_name: &str,
    game_state: String,
    game_dir: String,
) -> (r: Dispatch)
    requires
        old(gm)@.wf(),
    ensures
        final(gm)@.wf(),
        !old(gm)@.sessions().contains_key(server_name@) ==> {
            let app = fresh_app(game_state@, server_name@, game_dir@);
            let t = final(gm)@.sessions()[server_name@];
            &&& final(gm)@.sessions().contains_key(server_name@)
            &&& final(gm)@.sessions().remove(server_name@) == old(gm)@.sessions()
            &&& t.app == app
            &&& t.owner_player_name == player_name@
            &&& t.roster() == map![
                player_name@ => PlayerInfoView { character_names: Seq::empty(), player_ids: seq![id] },
            ]
            &&& final(gm)@.ongoing_games == without_server(old(gm)@.ongoing_games, server_name@).push(
                OnGoingGameView { path: game_dir@, server_name: server_name@ },
            )
            &&& final(gm)@.players == old(gm)@.players
            &&& final(gm)@.saved_games_list == old(gm)@.saved_games_list
            &&& r.saves_view() == seq![
                save_of(app, SAVED_GAME_MANAGER@),
                save_of(app, SAVED_GAME_MANAGER_REPLAY@),
            ]
            &&& r.messages_view() == session_broadcast(clients.live@, t) + notify(
                clients.live@,
                ServerEventView::UpdateOngoingGames(final(gm)@.ongoing_games),
            )
        },
        old(gm)@.sessions().contains_key(server_name@) ==> final(gm)@ == old(gm)@ && r.is_empty(),
{
    let mut r = Dispatch::empty();
    if gm.get_app_by_server_name(server_name).is_some() {
        return r;
    }
    let app = Application {
        game_state,
        server_name: String::from_str(server_name),
        game_phase: GamePhase::InitGame,
        game_dir,
        active_characters: Vec::new(),
    };
    proof {
        assert(strings_view(app.active_characters@) =~= Seq::<Seq<char>>::empty());
        assert(app@ =~= fresh_app(game_state@, server_name@, game_dir@));
    }
    r.saves.push(save_game_manager_state(&app, SAVED_GAME_MANAGER));
    r.saves.push(save_game_manager_state(&app, SAVED_GAME_MANAGER_REPLAY));
    gm.record_ongoing_game(server_name, app.game_dir.as_str());
    add_server_data_with_player(gm, &app, server_name, id, player_name);
    if let Some(sd) = gm.get_server_data_by_server_name(server_name) {
        broadcast_session(&mut r.messages, clients, &sd);
    }
    update_clients_ongoing_games(&mut r.messages, gm, clients);
    proof {
        let a = fresh_app(game_state@, server_name@, game_dir@);
        assert(old(gm)@.sessions().remove(server_name@) =~= old(gm)@.sessions());
        assert(r.saves_view() =~= seq![save_of(a, SAVED_GAME_MANAGER@), save_of(a, SAVED_GAME_MANAGER_REPLAY@)]);
        assert(r.messages_view() =~= session_broadcast(clients.live@, gm@.sessions()[server_name@]) + notify(
            clients.live@,
            ServerEventView::UpdateOngoingGames(gm@.ongoing_games),
        ));
    }
    r
}

/// The game loaded from the saved form `contents` found under `path`, as
/// session `name`: the saved engine state and phase.
pub open spec fn loaded_app(contents: Seq<char>, name: Seq<char>, path: Seq<char>) -> ApplicationView {
    ApplicationView {
        game_state: decoded(contents).1,
        server_name: name,
        game_phase: decoded(contents).0,
        game_dir: path,
        active_characters: Seq::empty(),
    }
}

/// `n`, `msgs` and `saves` agree with loading saved form `contents` from
/// `path` as session `name`, by connection `id` of `player`: the session is
/// created or replaced with the saved game, `player` alone in its roster and
/// its owner; it is saved, sent to its connection, and the index to every
/// open connection. What is not a saved form changes nothing.
pub open spec fn loaded(
    o: GameStateManagerView,
    n: GameStateManagerView,
    live: Seq<u32>,
    msgs: Seq<(u32, ServerEventView)>,
    saves: Seq<SaveRequestView>,
    path: Seq<char>,
    contents: Seq<char>,
    player: Seq<char>,
    id: u32,
    name: Seq<char>,
) -> bool {
    if decodable(contents) {
        let app = loaded_app(contents, name, path);
        let t = n.sessions()[name];
        &&& n.sessions().contains_key(name)
        &&& n.sessions().remove(name) == o.sessions().remove(name)
        &&& t.app == app
        &&& t.owner_player_name == player
        &&& t.roster() == map![
            player => PlayerInfoView { character_names: Seq::empty(), player_ids: seq![id] },
        ]
        &&& n.ongoing_games == without_server(o.ongoing_games, name).push(
            OnGoingGameView { path: path, server_name: name },
        )
        &&& n.players == o.players
        &&& n.saved_games_list == o.saved_games_list
        &&& saves == seq![save_of(app, SAVED_GAME_MANAGER@), save_of(app, SAVED_GAME_MANAGER_REPLAY@)]
        &&& msgs == session_broadcast(live, t) + notify(live, ServerEventView::UpdateOngoingGames(n.ongoing_games))
    } else {
        &&& n == o
        &&& msgs.len() == 0
        &&& saves.len() == 0
    }
}

/// Player `player_name` on connection `client_id` loads the session saved as
/// `contents` under `game_path`, as session `server_name_opt`, or under its
/// own name.
pub fn load_game_by_player(
    gm: &mut GameStateManager,
    clients: &ConnectionRegistry,
    game_path: &str,
    contents: &str,
    player_name: &str,
    client_id: u32,
    server_name_opt: Option<String>,
) -> (r: Dispatch)
    requires
        old(gm)@.wf(),
    ensures
        final(gm)@.wf(),
        loaded(
            old(gm)@,
            final(gm)@,
            clients.live@,
            r.messages_view(),
            r.saves_view(),
            game_path@,
            contents@,
            player_name@,
            client_id,
            match server_name_opt {
                Some(n) => n@,
                None => player_name@,
            },
        ),
{
    let mut r = Dispatch::empty();
    let (phase, blob) = match decode_snapshot(contents) {
        Some(x) => x,
        None => {
            return r;
        },
    };
    let server_name = match server_name_opt {
        Some(n) => n,
        None => String::from_str(player_name),
    };
    let app = Application {
        game_state: blob,
        server_name: server_name.clone(),
        game_phase: phase,
        game_dir: String::from_str(game_path),
        active_characters: Vec::new(),
    };
    proof {
        assert(strings_view(app.active_characters@) =~= Seq::<Seq<char>>::empty());
        assert(app@ =~= loaded_app(contents@, server_name@, game_path@));
    }
    r.saves.push(save_game_manager_state(&app, SAVED_GAME_MANAGER));
    r.saves.push(save_game_manager_state(&app, SAVED_GAME_MANAGER_REPLAY));
    gm.record_ongoing_game(server_name.as_str(), game_path);
    let ghost mid = gm@;
    add_server_data_with_player(gm, &app, server_name.as_str(), client_id, player_name);
    if let Some(sd) = gm.get_server_data_by_server_name(server_name.as_str()) {
        broadcast_session(&mut r.messages, clients, &sd);
    }
    update_clients_ongoing_games(&mut r.messages, gm, clients);
    proof {
        let a = loaded_app(contents@, server_name@, game_path@);
        assert(r.saves_view() =~= seq![save_of(a, SAVED_GAME_MANAGER@), save_of(a, SAVED_GAME_MANAGER_REPLAY@)]);
        assert(r.messages_view() =~= session_broadcast(clients.live@, gm@.sessions()[server_name@]) + notify(
            clients.live@,
            ServerEventView::UpdateOngoingGames(gm@.ongoing_games),
        ));
    }
    r
}

/// A replay may start: session `name` is live, running or ended, and
/// connection `id` is one of its owner's.
pub open spec fn replay_allowed(o: GameStateManagerView, name: Seq<char>, id: u32) -> bool {
    &&& o.sessions().contains_key(name)
    &&& (o.sessions()[name].app.game_phase == GamePhase::Running
        || o.sessions()[name].app.game_phase == GamePhase::Ended)
    &&& entry_of(o.sessions()[name].roster(), o.sessions()[name].owner_player_name).player_ids.contains(id)
}

/// The owner, on connection `client_id`, replays session `server_name` from
/// `contents`, the saved form of its game as it started: the session runs
/// again from that state, is saved and is sent to its connections.
pub fn process_replay_game(
    gm: &mut GameStateManager,
    clients: &ConnectionRegistry,
    server_name: &str,
    client_id: u32,
    contents: &str,
) -> (r: Dispatch)
    requires
        old(gm)@.wf(),
    ensures
        final(gm)@.wf(),
        replay_allowed(old(gm)@, server_name@, client_id) && decodable(contents@) ==> {
            let s = old(gm)@.sessions()[server_name@];
            let app = with_state(s.app, decoded(contents@).1, GamePhase::Running);
            &&& final(gm)@.sessions() == old(gm)@.sessions().insert(server_name@, with_app(s, app))
            &&& final(gm)@.same_outside_sessions(old(gm)@)
            &&& r.saves_view() == seq![
                save_of(app, SAVED_GAME_MANAGER@),
                save_of(app, SAVED_GAME_MANAGER_REPLAY@),
            ]
            &&& r.messages_view() == session_broadcast(clients.live@, with_app(s, app))
        },
        !(replay_allowed(old(gm)@, server_name@, client_id) && decodable(contents@)) ==> final(gm)@
            == old(gm)@ && r.is_empty(),
{
    let sd = match gm.get_server_data_by_server_name(server_name) {
        Some(sd) => sd,
        None => {
            return Dispatch::empty();
        },
    };
    if sd.app.game_phase != GamePhase::Running && sd.app.game_phase != GamePhase::Ended {
        return Dispatch::empty();
    }
    let ghost rs = sd@.players_info;
    proof {
        lemma_sessions_wf(gm@);
    }
    match find_in_roster(&sd.players_info, sd.owner_player_name.as_str()) {
        Some(j) => {
            proof {
                lemma_index(rs, j as int);
            }
            if !contains_id(&sd.players_info[j].1.player_ids, client_id) {
                return Dispatch::empty();
            }
        },
        None => {
            return Dispatch::empty();
        },
    }
    let blob = match decode_snapshot(contents) {
        Some((_, b)) => b,
        None => {
            return Dispatch::empty();
        },
    };
    run_from(gm, clients, server_name, blob)
}

} // verus!

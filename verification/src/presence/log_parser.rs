//! Follows the game through the lines of its console log.
use super::signals;
use super::hero_data::{own_name, HeroDataStore};
use super::patterns::Patterns;
use super::signals::{told, LineEvent, LineEventView, LineSignals, SignalsView};
use super::state::{
    after_match, at_hideout, at_intro, fresh_state, hideout_phase, in_match, queued, unqueued,
    watching, GamePhase, GameState, MatchMode, StateView,
};
use crate::text;
use crate::text::{contains_text, lowercase, opt_text};
use std::collections::HashSet;
use vstd::prelude::*;
use vstd::string::*;

verus! {

broadcast use vstd::std_specs::hash::group_hash_axioms;

/// Follows the game through the lines of its log.
pub struct LogParser {
    hero_window_open: bool,
    hideout_loaded: bool,
    bot_init_count: u32,
    local_account_id: Option<u64>,
    party_id: Option<u64>,
    party_members: HashSet<u64>,
    patterns: Patterns,
}

/// What the parser remembers of the lines so far.
#[verifier::ext_equal]
pub struct ParserView {
    /// Whether the next hero that is named is the player's.
    pub hero_window_open: bool,
    pub hideout_loaded: bool,
    pub bot_init_count: u32,
    pub local_account_id: Option<u64>,
    pub party_id: Option<u64>,
    pub party_members: Set<u64>,
}

impl View for LogParser {
    type V = ParserView;

    closed spec fn view(&self) -> ParserView {
        ParserView {
            hero_window_open: self.hero_window_open,
            hideout_loaded: self.hideout_loaded,
            bot_init_count: self.bot_init_count,
            local_account_id: self.local_account_id,
            party_id: self.party_id,
            party_members: self.party_members@,
        }
    }
}

/// What is remembered before the first line.
pub open spec fn fresh_parser() -> ParserView {
    ParserView {
        hero_window_open: true,
        hideout_loaded: false,
        bot_init_count: 0,
        local_account_id: None,
        party_id: None,
        party_members: Set::empty(),
    }
}

// ---------------------------------------------------------------------------
// Maps
// ---------------------------------------------------------------------------

pub open spec fn is_hideout_map(map: Seq<char>) -> bool {
    map == "dl_hideout"@
}

/// The mode that is played on a map of matches.
pub open spec fn map_mode(map: Seq<char>) -> Option<MatchMode> {
    if map == "street_test"@ || map == "street_test_bridge"@ {
        Some(MatchMode::Unranked)
    } else if map == "new_player_basics"@ {
        Some(MatchMode::Sandbox)
    } else if map == "dl_midtown"@ {
        Some(MatchMode::Unknown)
    } else {
        None
    }
}

pub fn map_is_hideout(map: &str) -> (r: bool)
    ensures
        r == is_hideout_map(map@),
{
    text::same_text(map, "dl_hideout")
}

pub fn mode_of_map(map: &str) -> (r: Option<MatchMode>)
    ensures
        r == map_mode(map@),
{
    if text::same_text(map, "street_test") || text::same_text(map, "street_test_bridge") {
        Some(MatchMode::Unranked)
    } else if text::same_text(map, "new_player_basics") {
        Some(MatchMode::Sandbox)
    } else if text::same_text(map, "dl_midtown") {
        Some(MatchMode::Unknown)
    } else {
        None
    }
}

// ---------------------------------------------------------------------------
// What each event changes
// ---------------------------------------------------------------------------

pub open spec fn before_match(p: GamePhase) -> bool {
    p == GamePhase::MainMenu || p == GamePhase::Hideout || p == GamePhase::PartyHideout || p
        == GamePhase::InQueue
}

pub open spec fn playing(p: GamePhase) -> bool {
    p == GamePhase::MatchIntro || p == GamePhase::InMatch
}

pub open spec fn at_a_match(p: GamePhase) -> bool {
    playing(p) || p == GamePhase::Spectating
}

pub open spec fn in_a_hideout(p: GamePhase) -> bool {
    p == GamePhase::Hideout || p == GamePhase::PartyHideout
}

/// How many are in the party: its members, and the player.
pub open spec fn party_count(p: ParserView) -> nat {
    if p.local_account_id is Some && !p.party_members.contains(p.local_account_id->0) {
        p.party_members.len() + 1
    } else {
        p.party_members.len()
    }
}

/// The size of the party counted in 32 bits, but at least `minimum`.
pub open spec fn party_size_of(p: ParserView, minimum: u32) -> u32 {
    let n = (party_count(p) % 0x1_0000_0000) as u32;
    if n < minimum {
        minimum
    } else {
        n
    }
}

pub open spec fn with_party_size(s: StateView, size: u32) -> StateView {
    StateView { party_size: size, ..s }
}

/// The party is forgotten.
pub open spec fn without_party(p: ParserView) -> ParserView {
    ParserView { party_id: None, party_members: Set::empty(), ..p }
}

/// A match begins: the hero is not known yet, and the next one named is it.
pub open spec fn hero_forgotten(s: StateView) -> StateView {
    StateView { hero_key: None, is_transformed: false, ..s }
}

pub open spec fn window_opened(p: ParserView) -> ParserView {
    ParserView { hero_window_open: true, ..p }
}

/// Learning the account of the player, unless it is known.
pub open spec fn account_learned(p: ParserView, s: StateView, account: Option<u64>) -> (
    ParserView,
    StateView,
) {
    if p.local_account_id is None && account is Some {
        let known = ParserView { local_account_id: account, ..p };
        if p.party_id is Some {
            let joined = ParserView {
                party_members: p.party_members.insert(account->0),
                ..known
            };
            (joined, with_party_size(s, party_size_of(joined, 2)))
        } else {
            (known, s)
        }
    } else {
        (p, s)
    }
}

/// The members of a party that somebody joins: those that were there, unless it is
/// the player who joins or the party is another one.
pub open spec fn members_joined(p: ParserView, party_id: u64, account_id: u64) -> Set<u64> {
    if p.local_account_id == Some(account_id) {
        Set::empty().insert(account_id)
    } else if p.party_id != Some(party_id) {
        if p.local_account_id is Some {
            Set::empty().insert(p.local_account_id->0).insert(account_id)
        } else {
            Set::empty().insert(account_id)
        }
    } else {
        p.party_members.insert(account_id)
    }
}

/// Something happened in a party.
pub open spec fn party_changed(
    p: ParserView,
    s: StateView,
    party_id: u64,
    name: Seq<char>,
    account_id: u64,
) -> (ParserView, StateView) {
    if contains_text(name, "joinedparty"@) {
        let joined = ParserView {
            party_id: Some(party_id),
            party_members: members_joined(p, party_id, account_id),
            ..p
        };
        (joined, with_party_size(s, party_size_of(joined, 2)))
    } else if p.party_id != Some(party_id) {
        (p, s)
    } else if contains_text(name, "leftparty"@) || contains_text(name, "removedfromparty"@)
        || contains_text(name, "kickedfromparty"@) {
        if p.local_account_id == Some(account_id) {
            (without_party(p), with_party_size(s, 1))
        } else {
            let left = ParserView { party_members: p.party_members.remove(account_id), ..p };
            (left, with_party_size(s, party_size_of(left, 1)))
        }
    } else if contains_text(name, "disband"@) {
        (without_party(p), with_party_size(s, 1))
    } else {
        (p, s)
    }
}

/// A map was loaded.
pub open spec fn map_loaded(p: ParserView, s: StateView, map: Seq<char>, now: u64) -> (
    ParserView,
    StateView,
) {
    if s.phase == GamePhase::Spectating || map.len() == 0 || map == "<empty>"@ {
        (p, s)
    } else {
        let there = StateView {
            map_name: Some(map),
            match_mode: if map_mode(map) is Some && map_mode(map)->0 != MatchMode::Unknown {
                map_mode(map)->0
            } else {
                s.match_mode
            },
            ..s
        };
        if is_hideout_map(map) {
            (
                ParserView {
                    hero_window_open: true,
                    hideout_loaded: false,
                    bot_init_count: 0,
                    ..p
                },
                StateView { map_name: Some(map), ..at_hideout(there) },
            )
        } else if map_mode(map) is Some {
            (
                ParserView { hero_window_open: true, hideout_loaded: false, ..p },
                hero_forgotten(in_match(there, map_mode(map)->0, now)),
            )
        } else {
            (p, there)
        }
    }
}

/// Whether a hero that is named becomes the player's. In a match only the first
/// one does, except in the sandbox.
pub open spec fn hero_counts(p: ParserView, s: StateView, hero: Seq<char>) -> bool {
    if playing(s.phase) {
        s.match_mode == MatchMode::Sandbox || (if s.hero_key is Some {
            s.hero_key == Some(hero)
        } else {
            p.hero_window_open
        })
    } else {
        s.phase != GamePhase::Spectating && s.phase != GamePhase::MainMenu && s.phase
            != GamePhase::PostMatch
    }
}

/// A hero was named.
pub open spec fn hero_named(p: ParserView, s: StateView, hero: Seq<char>) -> (
    ParserView,
    StateView,
) {
    if hero_counts(p, s, hero) {
        (
            ParserView {
                hero_window_open: p.hero_window_open && !(playing(s.phase) && s.match_mode
                    != MatchMode::Sandbox),
                ..p
            },
            StateView { hero_key: Some(hero), ..s },
        )
    } else {
        (p, s)
    }
}

/// The match is about to begin.
pub open spec fn intro_entered(s: StateView) -> StateView {
    if before_match(s.phase) {
        at_intro(s)
    } else {
        s
    }
}

/// A connection to a server, or to the game itself.
pub open spec fn server_connected(
    p: ParserView,
    s: StateView,
    address: Seq<char>,
    loopback: bool,
) -> (ParserView, StateView) {
    let there = StateView { server_address: Some(address), ..s };
    if loopback {
        (p, there)
    } else {
        (window_opened(p), intro_entered(hero_forgotten(there)))
    }
}

/// The game changed its state.
pub open spec fn game_state_changed(s: StateView, name: Seq<char>, id: u32, now: u64) -> StateView {
    let there = StateView { game_state_id: Some(id), ..s };
    if name == "matchintro"@ || id == 4 {
        at_intro(there)
    } else if name == "gameinprogress"@ || name == "inprogress"@ || id == 7 {
        in_match(there, MatchMode::Unknown, now)
    } else if name == "postgame"@ || id == 6 {
        after_match(there)
    } else {
        there
    }
}

/// The lobby of the hideout: none, or one with others.
pub open spec fn lobby_changed(p: ParserView, s: StateView, id: i64) -> (ParserView, StateView) {
    let (p1, s1) = if id == 0 {
        (without_party(p), with_party_size(s, 1))
    } else if id > 0 {
        (p, with_party_size(s, party_size_of(p, 2)))
    } else {
        (p, s)
    };
    (
        p1,
        if in_a_hideout(s1.phase) {
            StateView { phase: hideout_phase(s1), ..s1 }
        } else {
            s1
        },
    )
}

/// The number of players became known.
pub open spec fn players_counted(s: StateView, players: u32, bots: u32) -> StateView {
    StateView {
        player_count: players,
        bot_count: bots,
        match_mode: if (s.match_mode == MatchMode::Unknown || s.match_mode == MatchMode::BotMatch)
            && players >= 9 {
            MatchMode::Unranked
        } else {
            s.match_mode
        },
        ..s
    }
}

/// What an event changes. `hideout` says whether the map is that of the hideout.
pub open spec fn event_applied(
    p: ParserView,
    s: StateView,
    e: LineEventView,
    hideout: bool,
    aliases: Seq<(Seq<char>, Seq<char>)>,
    now: u64,
) -> (ParserView, StateView) {
    match e {
        LineEventView::Nothing => (p, s),
        LineEventView::Party { party_id, name, account_id } => party_changed(
            p,
            s,
            party_id,
            name,
            account_id,
        ),
        LineEventView::MapLoaded { name } => map_loaded(p, s, name, now),
        LineEventView::QueueStarted => (
            p,
            if in_a_hideout(s.phase) || s.phase == GamePhase::MainMenu {
                queued(s, now)
            } else {
                s
            },
        ),
        LineEventView::QueueStopped => (
            p,
            if s.phase == GamePhase::InQueue {
                unqueued(s)
            } else {
                s
            },
        ),
        LineEventView::LobbyCreated => (
            window_opened(p),
            intro_entered(hero_forgotten(StateView { queue_start_time: None, ..s })),
        ),
        LineEventView::LobbyDestroyed => (p, after_match(s)),
        LineEventView::Broadcast => (ParserView { hideout_loaded: false, ..p }, watching(s)),
        LineEventView::Connected { address, loopback } => server_connected(
            p,
            s,
            address,
            loopback,
        ),
        LineEventView::HeroLoaded { key } => if in_a_hideout(s.phase) && !p.hideout_loaded {
            (p, s)
        } else {
            hero_named(p, s, own_name(aliases, key))
        },
        LineEventView::HeroModel { key, transforming } => {
            let (p1, s1) = hero_named(p, s, own_name(aliases, key));
            (
                p1,
                if s1.hero_key == Some("werewolf"@) && key == "werewolf"@ {
                    StateView { is_transformed: transforming, ..s1 }
                } else {
                    s1
                },
            )
        },
        LineEventView::FormOn => (p, StateView { is_transformed: true, ..s }),
        LineEventView::FormOff => (p, StateView { is_transformed: false, ..s }),
        LineEventView::Disconnected { reason } => if contains_text(reason, "EXITING"@) {
            (window_opened(p), fresh_state())
        } else if !contains_text(reason, "LOOPDEACTIVATE"@) && at_a_match(s.phase) {
            (p, after_match(s))
        } else {
            (p, s)
        },
        LineEventView::GameStateChanged { name, id } => (
            p,
            if s.phase != GamePhase::Spectating && !hideout && !p.hideout_loaded {
                game_state_changed(s, name, id, now)
            } else {
                s
            },
        ),
        LineEventView::LobbyState { lobby } => lobby_changed(p, s, lobby),
        LineEventView::BotAdded => if s.phase != GamePhase::Spectating && !hideout {
            (
                ParserView {
                    bot_init_count: ((p.bot_init_count + 1) % 0x1_0000_0000) as u32,
                    ..p
                },
                StateView {
                    match_mode: if s.match_mode == MatchMode::Unknown {
                        MatchMode::BotMatch
                    } else {
                        s.match_mode
                    },
                    ..s
                },
            )
        } else {
            (p, s)
        },
        LineEventView::HostActivated { map } => (
            ParserView { hideout_loaded: p.hideout_loaded || is_hideout_map(map), ..p },
            s,
        ),
        LineEventView::ServerStopped { reason } => if contains_text(reason, "EXITING"@) {
            (window_opened(without_party(p)), fresh_state())
        } else {
            (p, s)
        },
        LineEventView::GameStopped => (window_opened(without_party(p)), fresh_state()),
        LineEventView::Players { players, bots } => (
            p,
            if s.phase != GamePhase::Spectating {
                players_counted(s, players, bots)
            } else {
                s
            },
        ),
        LineEventView::HeroesPrecached { count } => (
            ParserView { hideout_loaded: p.hideout_loaded && count == 0, ..p },
            s,
        ),
    }
}

/// What a line changes, by what it tells.
pub open spec fn signals_applied(
    p: ParserView,
    s: StateView,
    x: SignalsView,
    hideout: bool,
    aliases: Seq<(Seq<char>, Seq<char>)>,
    now: u64,
) -> (ParserView, StateView) {
    let (p1, s1) = account_learned(p, s, x.account);
    if x.event != LineEventView::Nothing {
        event_applied(p1, s1, x.event, hideout, aliases, now)
    } else if x.menu && at_a_match(s1.phase) {
        (p1, after_match(s1))
    } else {
        event_applied(p1, s1, x.later, hideout, aliases, now)
    }
}

/// Whether what is shown of the game has changed.
pub open spec fn shows_change(a: StateView, b: StateView) -> bool {
    a.phase != b.phase || a.hero_key != b.hero_key || a.match_mode != b.match_mode
        || a.is_transformed != b.is_transformed || a.party_size != b.party_size
}

/// Whether the map that a state names is that of the hideout.
pub open spec fn state_at_hideout(s: StateView) -> bool {
    is_hideout_map(
        lowercase(
            match s.map_name {
                Some(m) => m,
                None => ""@,
            },
        ),
    )
}

// ---------------------------------------------------------------------------
// Laws
// ---------------------------------------------------------------------------

/// Events that tell that a match is over, or that the game is back at its start.
pub open spec fn leaves_spectating(e: LineEventView) -> bool {
    match e {
        LineEventView::LobbyDestroyed => true,
        LineEventView::Disconnected { reason } => true,
        LineEventView::ServerStopped { reason } => true,
        LineEventView::GameStopped => true,
        _ => false,
    }
}

/// While a match is only watched, nothing but its end changes what is shown,
/// except the party and the form of a hero.
pub proof fn law_spectating_ends_with_the_match(
    p: ParserView,
    s: StateView,
    e: LineEventView,
    hideout: bool,
    aliases: Seq<(Seq<char>, Seq<char>)>,
    now: u64,
)
    requires
        s.phase == GamePhase::Spectating,
        s.hero_key is None,
        !leaves_spectating(e),
    ensures
        ({
            let after = event_applied(p, s, e, hideout, aliases, now).1;
            &&& after.phase == GamePhase::Spectating
            &&& after.hero_key is None
            &&& after.match_mode == s.match_mode
        }),
{
}

/// In a match that is not in the sandbox, the player's hero stays the one that was
/// named first, whatever other heroes are named.
pub proof fn law_hero_is_kept_in_a_match(p: ParserView, s: StateView, hero: Seq<char>)
    requires
        playing(s.phase),
        s.match_mode != MatchMode::Sandbox,
        s.hero_key is Some,
    ensures
        hero_named(p, s, hero).1.hero_key == s.hero_key,
{
}

/// The party always counts the player: it never shrinks below one, and somebody
/// joining makes it at least two.
pub proof fn law_party_counts_the_player(
    p: ParserView,
    s: StateView,
    party_id: u64,
    name: Seq<char>,
    account_id: u64,
)
    requires
        s.party_size >= 1,
    ensures
        party_changed(p, s, party_id, name, account_id).1.party_size >= 1,
        contains_text(name, "joinedparty"@) ==> party_changed(
            p,
            s,
            party_id,
            name,
            account_id,
        ).1.party_size >= 2,
{
}

/// A line that tells nothing changes nothing.
pub proof fn law_silent_lines_change_nothing(
    p: ParserView,
    s: StateView,
    hideout: bool,
    aliases: Seq<(Seq<char>, Seq<char>)>,
    now: u64,
)
    ensures
        signals_applied(
            p,
            s,
            SignalsView {
                account: None,
                event: LineEventView::Nothing,
                menu: false,
                later: LineEventView::Nothing,
            },
            hideout,
            aliases,
            now,
        ) == (p, s),
        !shows_change(s, s),
{
}

// ---------------------------------------------------------------------------
// The parser
// ---------------------------------------------------------------------------

fn opt_is(a: &Option<String>, b: &str) -> (r: bool)
    ensures
        r == (opt_text(*a) == Some(b@)),
{
    match a {
        Some(s) => text::same_text(s.as_str(), b),
        None => false,
    }
}

fn same_opt(a: &Option<String>, b: &Option<String>) -> (r: bool)
    ensures
        r == (opt_text(*a) == opt_text(*b)),
{
    match (a, b) {
        (Some(x), Some(y)) => text::same_text(x.as_str(), y.as_str()),
        (None, None) => true,
        _ => false,
    }
}

fn is_playing(p: GamePhase) -> (r: bool)
    ensures
        r == playing(p),
{
    p == GamePhase::MatchIntro || p == GamePhase::InMatch
}

fn is_at_a_match(p: GamePhase) -> (r: bool)
    ensures
        r == at_a_match(p),
{
    is_playing(p) || p == GamePhase::Spectating
}

fn is_in_a_hideout(p: GamePhase) -> (r: bool)
    ensures
        r == in_a_hideout(p),
{
    p == GamePhase::Hideout || p == GamePhase::PartyHideout
}

fn is_before_match(p: GamePhase) -> (r: bool)
    ensures
        r == before_match(p),
{
    p == GamePhase::MainMenu || is_in_a_hideout(p) || p == GamePhase::InQueue
}

/// Whether a state is at the map of the hideout.
pub fn is_state_at_hideout(state: &GameState) -> (r: bool)
    ensures
        r == state_at_hideout(state@),
{
    let map: &str = match &state.map_name {
        Some(m) => m.as_str(),
        None => "",
    };
    map_is_hideout(map.to_lowercase().as_str())
}

impl LogParser {
    #[verifier::type_invariant]
    spec fn compiled(self) -> bool {
        self.patterns.ready()
    }

    pub fn new() -> (r: LogParser)
        ensures
            r@ == fresh_parser(),
    {
        let r = LogParser {
            hero_window_open: true,
            hideout_loaded: false,
            bot_init_count: 0,
            local_account_id: None,
            party_id: None,
            party_members: HashSet::new(),
            patterns: Patterns::new(),
        };
        assert(r.party_members@ =~= Set::<u64>::empty());
        r
    }

    /// Takes in one line of the log at time `now`. Returns whether what is shown of
    /// the game has changed.
    pub fn process_line(
        &mut self,
        line: &str,
        state: &mut GameState,
        hero_store: &HeroDataStore,
        now: u64,
    ) -> (r: bool)
        ensures
            (final(self)@, final(state)@) == signals_applied(
                old(self)@,
                old(state)@,
                told(line@),
                state_at_hideout(old(state)@),
                hero_store@,
                now,
            ),
            r == shows_change(old(state)@, final(state)@),
    {
        proof {
            use_type_invariant(&*self);
        }
        let in_hideout_map = is_state_at_hideout(state);
        let told = signals::read_line(&self.patterns, line);
        self.apply_signals(told, in_hideout_map, state, hero_store, now)
    }

    /// Takes in what one line of the log tells. `in_hideout_map` says whether the
    /// map so far is that of the hideout. Returns whether what is shown of the game
    /// has changed.
    pub fn apply_signals(
        &mut self,
        told: LineSignals,
        in_hideout_map: bool,
        state: &mut GameState,
        hero_store: &HeroDataStore,
        now: u64,
    ) -> (r: bool)
        ensures
            (final(self)@, final(state)@) == signals_applied(
                old(self)@,
                old(state)@,
                told@,
                in_hideout_map,
                hero_store@,
                now,
            ),
            r == shows_change(old(state)@, final(state)@),
    {
        let old_phase = state.phase;
        let old_hero = text::copy_opt(&state.hero_key);
        let old_mode = state.match_mode;
        let old_transformed = state.is_transformed;
        let old_party = state.party_size;
        self.learn_account(told.account, state);
        match told.event {
            LineEvent::Nothing => {
                if told.menu && is_at_a_match(state.phase) {
                    state.end_match();
                } else {
                    self.apply_event(told.later, in_hideout_map, state, hero_store, now);
                }
            },
            event => {
                self.apply_event(event, in_hideout_map, state, hero_store, now);
            },
        }
        state.phase != old_phase || !same_opt(&state.hero_key, &old_hero) || state.match_mode
            != old_mode || state.is_transformed != old_transformed || state.party_size != old_party
    }

    fn learn_account(&mut self, account: Option<u64>, state: &mut GameState)
        ensures
            (final(self)@, final(state)@) == account_learned(old(self)@, old(state)@, account),
    {
        proof {
            use_type_invariant(&*self);
        }
        if self.local_account_id.is_none() {
            if let Some(id) = account {
                self.local_account_id = Some(id);
                if self.party_id.is_some() {
                    self.add_member(id);
                    self.set_party_size_from_members(state, 2);
                }
            }
        }
    }

    fn add_member(&mut self, id: u64)
        ensures
            final(self)@ == (ParserView {
                party_members: old(self)@.party_members.insert(id),
                ..old(self)@
            }),
    {
        proof {
            use_type_invariant(&*self);
        }
        let mut members: HashSet<u64> = HashSet::new();
        std::mem::swap(&mut members, &mut self.party_members);
        members.insert(id);
        self.party_members = members;
    }

    fn drop_member(&mut self, id: u64)
        ensures
            final(self)@ == (ParserView {
                party_members: old(self)@.party_members.remove(id),
                ..old(self)@
            }),
    {
        proof {
            use_type_invariant(&*self);
        }
        let mut members: HashSet<u64> = HashSet::new();
        std::mem::swap(&mut members, &mut self.party_members);
        members.remove(&id);
        self.party_members = members;
    }

    fn set_party_size_from_members(&self, state: &mut GameState, minimum: u32)
        ensures
            final(state)@ == with_party_size(old(state)@, party_size_of(self@, minimum)),
    {
        let count: u64 = self.party_members.len() as u64;
        let mut more: u64 = 0;
        if let Some(id) = self.local_account_id {
            if !self.party_members.contains(&id) {
                more = 1;
            }
        }
        let n: u32 = ((count % 0x1_0000_0000 + more) % 0x1_0000_0000) as u32;
        assert((count as int % 0x1_0000_0000 + more as int) % 0x1_0000_0000 == (count as int
            + more as int) % 0x1_0000_0000);
        if n < minimum {
            state.set_party_size(minimum);
        } else {
            state.set_party_size(n);
        }
    }

    fn clear_party_tracking(&mut self, state: &mut GameState)
        ensures
            final(self)@ == without_party(old(self)@),
            final(state)@ == with_party_size(old(state)@, 1),
    {
        proof {
            use_type_invariant(&*self);
        }
        self.party_id = None;
        self.party_members = HashSet::new();
        state.set_party_size(1);
    }

    fn prepare_match_hero_tracking(&mut self, state: &mut GameState)
        ensures
            final(self)@ == window_opened(old(self)@),
            final(state)@ == hero_forgotten(old(state)@),
    {
        proof {
            use_type_invariant(&*self);
        }
        state.hero_key = None;
        state.is_transformed = false;
        self.hero_window_open = true;
    }

    fn apply_party_event(
        &mut self,
        state: &mut GameState,
        party_id: u64,
        event_lower: &str,
        account_id: u64,
    )
        ensures
            (final(self)@, final(state)@) == party_changed(
                old(self)@,
                old(state)@,
                party_id,
                event_lower@,
                account_id,
            ),
    {
        proof {
            use_type_invariant(&*self);
        }
        let local = self.local_account_id;
        if text::has_text(event_lower, "joinedparty") {
            if local == Some(account_id) {
                self.party_id = Some(party_id);
                self.party_members = HashSet::new();
            } else if self.party_id != Some(party_id) {
                self.party_id = Some(party_id);
                self.party_members = HashSet::new();
                if let Some(local_id) = local {
                    self.add_member(local_id);
                }
            }
            self.add_member(account_id);
            self.set_party_size_from_members(state, 2);
            return;
        }
        if self.party_id != Some(party_id) {
            return;
        }
        if text::has_text(event_lower, "leftparty") || text::has_text(
            event_lower,
            "removedfromparty",
        ) || text::has_text(event_lower, "kickedfromparty") {
            if local == Some(account_id) {
                self.clear_party_tracking(state);
            } else {
                self.drop_member(account_id);
                self.set_party_size_from_members(state, 1);
            }
        } else if text::has_text(event_lower, "disband") {
            self.clear_party_tracking(state);
        }
    }

    fn apply_map(&mut self, state: &mut GameState, map: String, now: u64)
        ensures
            (final(self)@, final(state)@) == map_loaded(old(self)@, old(state)@, map@, now),
    {
        proof {
            use_type_invariant(&*self);
        }
        if state.phase == GamePhase::Spectating {
            return;
        }
        if map.as_str().unicode_len() == 0 || text::same_text(map.as_str(), "<empty>") {
            return;
        }
        state.map_name = Some(map.clone());
        let mapped = mode_of_map(map.as_str());
        if let Some(mode) = mapped {
            if mode != MatchMode::Unknown {
                state.match_mode = mode;
            }
        }
        if map_is_hideout(map.as_str()) {
            state.enter_hideout();
            state.map_name = Some(map);
            self.hero_window_open = true;
            self.hideout_loaded = false;
            self.bot_init_count = 0;
            return;
        }
        if let Some(mode) = mapped {
            state.start_match(mode, now);
            self.prepare_match_hero_tracking(state);
            proof {
                use_type_invariant(&*self);
            }
            self.hideout_loaded = false;
        }
    }

    fn apply_hero_signal(&mut self, state: &mut GameState, hero: &str)
        ensures
            (final(self)@, final(state)@) == hero_named(old(self)@, old(state)@, hero@),
    {
        proof {
            use_type_invariant(&*self);
        }
        if state.phase == GamePhase::Spectating {
            return;
        }
        if is_playing(state.phase) {
            if state.match_mode != MatchMode::Sandbox {
                if state.hero_key.is_some() && !opt_is(&state.hero_key, hero) {
                    return;
                }
                if state.hero_key.is_none() && !self.hero_window_open {
                    return;
                }
            }
        } else if state.phase == GamePhase::MainMenu || state.phase == GamePhase::PostMatch {
            return;
        }
        state.set_hero(hero);
        if is_playing(state.phase) && state.match_mode != MatchMode::Sandbox {
            self.hero_window_open = false;
        }
    }

    fn apply_event(
        &mut self,
        event: LineEvent,
        in_hideout_map: bool,
        state: &mut GameState,
        hero_store: &HeroDataStore,
        now: u64,
    )
        ensures
            (final(self)@, final(state)@) == event_applied(
                old(self)@,
                old(state)@,
                event@,
                in_hideout_map,
                hero_store@,
                now,
            ),
    {
        proof {
            use_type_invariant(&*self);
        }
        match event {
            LineEvent::Nothing => {},
            LineEvent::Party { party_id, name, account_id } => {
                self.apply_party_event(state, party_id, name.as_str(), account_id);
            },
            LineEvent::MapLoaded { name } => {
                self.apply_map(state, name, now);
            },
            LineEvent::QueueStarted => {
                if is_in_a_hideout(state.phase) || state.phase == GamePhase::MainMenu {
                    state.enter_queue(now);
                }
            },
            LineEvent::QueueStopped => {
                if state.phase == GamePhase::InQueue {
                    state.leave_queue();
                }
            },
            LineEvent::LobbyCreated => {
                state.queue_start_time = None;
                self.prepare_match_hero_tracking(state);
                if is_before_match(state.phase) {
                    state.enter_match_intro();
                }
            },
            LineEvent::LobbyDestroyed => {
                state.end_match();
            },
            LineEvent::Broadcast => {
                state.enter_spectating();
                self.hideout_loaded = false;
            },
            LineEvent::Connected { address, loopback } => {
                state.connect_to_server(address.as_str());
                if !loopback {
                    self.prepare_match_hero_tracking(state);
                    if is_before_match(state.phase) {
                        state.enter_match_intro();
                    }
                }
            },
            LineEvent::HeroLoaded { key } => {
                if !(is_in_a_hideout(state.phase) && !self.hideout_loaded) {
                    let hero = hero_store.name_of(key.as_str());
                    self.apply_hero_signal(state, hero.as_str());
                }
            },
            LineEvent::HeroModel { key, transforming } => {
                let hero = hero_store.name_of(key.as_str());
                self.apply_hero_signal(state, hero.as_str());
                if opt_is(&state.hero_key, "werewolf") && text::same_text(
                    key.as_str(),
                    "werewolf",
                ) {
                    state.is_transformed = transforming;
                }
            },
            LineEvent::FormOn => {
                state.is_transformed = true;
            },
            LineEvent::FormOff => {
                state.is_transformed = false;
            },
            LineEvent::Disconnected { reason } => {
                if text::has_text(reason.as_str(), "EXITING") {
                    self.hero_window_open = true;
                    state.reset();
                } else if !text::has_text(reason.as_str(), "LOOPDEACTIVATE") && is_at_a_match(
                    state.phase,
                ) {
                    state.end_match();
                }
            },
            LineEvent::GameStateChanged { name, id } => {
                if state.phase != GamePhase::Spectating && !in_hideout_map && !self.hideout_loaded {
                    change_game_state(state, name.as_str(), id, now);
                }
            },
            LineEvent::LobbyState { lobby } => {
                if lobby == 0 {
                    self.clear_party_tracking(state);
                } else if lobby > 0 {
                    self.set_party_size_from_members(state, 2);
                }
                if is_in_a_hideout(state.phase) {
                    state.phase = state.hideout();
                }
            },
            LineEvent::BotAdded => {
                if state.phase != GamePhase::Spectating && !in_hideout_map {
                    self.bot_init_count = if self.bot_init_count == u32::MAX {
                        0
                    } else {
                        self.bot_init_count + 1
                    };
                    if state.match_mode == MatchMode::Unknown {
                        state.match_mode = MatchMode::BotMatch;
                    }
                }
            },
            LineEvent::HostActivated { map } => {
                if map_is_hideout(map.as_str()) {
                    self.hideout_loaded = true;
                }
            },
            LineEvent::ServerStopped { reason } => {
                if text::has_text(reason.as_str(), "EXITING") {
                    self.stop(state);
                }
            },
            LineEvent::GameStopped => {
                self.stop(state);
            },
            LineEvent::Players { players, bots } => {
                if state.phase != GamePhase::Spectating {
                    state.player_count = players;
                    state.bot_count = bots;
                    if (state.match_mode == MatchMode::Unknown || state.match_mode
                        == MatchMode::BotMatch) && players >= 9 {
                        state.match_mode = MatchMode::Unranked;
                    }
                }
            },
            LineEvent::HeroesPrecached { count } => {
                if count > 0 {
                    self.hideout_loaded = false;
                }
            },
        }
    }

    fn stop(&mut self, state: &mut GameState)
        ensures
            final(self)@ == window_opened(without_party(old(self)@)),
            final(state)@ == fresh_state(),
    {
        self.clear_party_tracking(state);
        proof {
            use_type_invariant(&*self);
        }
        self.hero_window_open = true;
        state.reset();
    }

    /// Forgets everything, as before the first line.
    pub fn reset_tracking(&mut self)
        ensures
            final(self)@ == fresh_parser(),
    {
        proof {
            use_type_invariant(&*self);
        }
        self.hero_window_open = true;
        self.hideout_loaded = false;
        self.bot_init_count = 0;
        self.local_account_id = None;
        self.party_id = None;
        self.party_members = HashSet::new();
        assert(self@ =~= fresh_parser());
    }
}

fn change_game_state(state: &mut GameState, name: &str, id: u32, now: u64)
    ensures
        final(state)@ == game_state_changed(old(state)@, name@, id, now),
{
    state.game_state_id = Some(id);
    if text::same_text(name, "matchintro") || id == 4 {
        state.enter_match_intro();
    } else if text::same_text(name, "gameinprogress") || text::same_text(name, "inprogress") || id
        == 7 {
        state.start_match(MatchMode::Unknown, now);
    } else if text::same_text(name, "postgame") || id == 6 {
        state.end_match();
    }
}

impl Default for LogParser {
    fn default() -> (r: Self)
        ensures
            r@ == fresh_parser(),
    {
        LogParser::new()
    }
}

} // verus!

//! What the game is doing.
use crate::text::opt_text;
use vstd::prelude::*;
use vstd::string::*;

verus! {

#[derive(Debug, Clone, Copy, PartialEq, Eq, Structural)]
pub enum GamePhase {
    MainMenu,
    Hideout,
    PartyHideout,
    InQueue,
    MatchIntro,
    InMatch,
    PostMatch,
    Spectating,
}

#[derive(Debug, Clone, Copy, PartialEq, Eq, Structural)]
pub enum MatchMode {
    Unknown,
    Unranked,
    Sandbox,
    BotMatch,
}

/// What the game is doing, as far as its log tells. Times are in seconds from the
/// start of 1970.
#[derive(Debug)]
pub struct GameState {
    pub phase: GamePhase,
    pub match_mode: MatchMode,
    pub hero_key: Option<String>,
    pub is_transformed: bool,
    pub party_size: u32,
    pub map_name: Option<String>,
    pub server_address: Option<String>,
    pub game_state_id: Option<u32>,
    pub player_count: u32,
    pub bot_count: u32,
    pub queue_start_time: Option<u64>,
    pub match_start_time: Option<u64>,
}

pub struct StateView {
    pub phase: GamePhase,
    pub match_mode: MatchMode,
    pub hero_key: Option<Seq<char>>,
    pub is_transformed: bool,
    pub party_size: u32,
    pub map_name: Option<Seq<char>>,
    pub server_address: Option<Seq<char>>,
    pub game_state_id: Option<u32>,
    pub player_count: u32,
    pub bot_count: u32,
    pub queue_start_time: Option<u64>,
    pub match_start_time: Option<u64>,
}

impl View for GameState {
    type V = StateView;

    open spec fn view(&self) -> StateView {
        StateView {
            phase: self.phase,
            match_mode: self.match_mode,
            hero_key: opt_text(self.hero_key),
            is_transformed: self.is_transformed,
            party_size: self.party_size,
            map_name: opt_text(self.map_name),
            server_address: opt_text(self.server_address),
            game_state_id: self.game_state_id,
            player_count: self.player_count,
            bot_count: self.bot_count,
            queue_start_time: self.queue_start_time,
            match_start_time: self.match_start_time,
        }
    }
}

/// The game was just started.
pub open spec fn fresh_state() -> StateView {
    StateView {
        phase: GamePhase::MainMenu,
        match_mode: MatchMode::Unknown,
        hero_key: None,
        is_transformed: false,
        party_size: 1,
        map_name: None,
        server_address: None,
        game_state_id: None,
        player_count: 0,
        bot_count: 0,
        queue_start_time: None,
        match_start_time: None,
    }
}

pub open spec fn in_party(s: StateView) -> bool {
    s.party_size > 1
}

/// The hideout, alone or with a party.
pub open spec fn hideout_phase(s: StateView) -> GamePhase {
    if in_party(s) {
        GamePhase::PartyHideout
    } else {
        GamePhase::Hideout
    }
}

/// The hideout: what was known of a match is gone, the party stays.
pub open spec fn at_hideout(s: StateView) -> StateView {
    StateView { phase: hideout_phase(s), party_size: s.party_size, ..fresh_state() }
}

pub open spec fn queued(s: StateView, now: u64) -> StateView {
    StateView { phase: GamePhase::InQueue, queue_start_time: Some(now), ..s }
}

pub open spec fn unqueued(s: StateView) -> StateView {
    StateView { phase: hideout_phase(s), queue_start_time: None, ..s }
}

pub open spec fn at_intro(s: StateView) -> StateView {
    StateView { phase: GamePhase::MatchIntro, queue_start_time: None, ..s }
}

/// A match under way. A mode that is not known leaves the one that is, and a match
/// that was under way keeps its start.
pub open spec fn in_match(s: StateView, mode: MatchMode, now: u64) -> StateView {
    StateView {
        phase: GamePhase::InMatch,
        match_mode: if mode == MatchMode::Unknown {
            s.match_mode
        } else {
            mode
        },
        queue_start_time: None,
        match_start_time: if s.match_start_time is Some {
            s.match_start_time
        } else {
            Some(now)
        },
        ..s
    }
}

pub open spec fn after_match(s: StateView) -> StateView {
    StateView {
        phase: GamePhase::PostMatch,
        is_transformed: false,
        queue_start_time: None,
        match_start_time: None,
        ..s
    }
}

pub open spec fn watching(s: StateView) -> StateView {
    StateView {
        phase: GamePhase::Spectating,
        hero_key: None,
        is_transformed: false,
        queue_start_time: None,
        ..s
    }
}

impl GameState {
    pub fn new() -> (r: GameState)
        ensures
            r@ == fresh_state(),
    {
        GameState {
            phase: GamePhase::MainMenu,
            match_mode: MatchMode::Unknown,
            hero_key: None,
            is_transformed: false,
            party_size: 1,
            map_name: None,
            server_address: None,
            game_state_id: None,
            player_count: 0,
            bot_count: 0,
            queue_start_time: None,
            match_start_time: None,
        }
    }

    pub fn in_party(&self) -> (r: bool)
        ensures
            r == in_party(self@),
    {
        self.party_size > 1
    }

    /// The hideout, alone or with a party.
    pub fn hideout(&self) -> (r: GamePhase)
        ensures
            r == hideout_phase(self@),
    {
        if self.in_party() {
            GamePhase::PartyHideout
        } else {
            GamePhase::Hideout
        }
    }

    pub fn reset(&mut self)
        ensures
            final(self)@ == fresh_state(),
    {
        *self = GameState::new();
    }

    pub fn enter_hideout(&mut self)
        ensures
            final(self)@ == at_hideout(old(self)@),
    {
        let phase = self.hideout();
        let party_size = self.party_size;
        *self = GameState { phase, party_size, ..GameState::new() };
    }

    pub fn enter_queue(&mut self, now: u64)
        ensures
            final(self)@ == queued(old(self)@, now),
    {
        self.phase = GamePhase::InQueue;
        self.queue_start_time = Some(now);
    }

    pub fn leave_queue(&mut self)
        ensures
            final(self)@ == unqueued(old(self)@),
    {
        self.phase = self.hideout();
        self.queue_start_time = None;
    }

    pub fn enter_match_intro(&mut self)
        ensures
            final(self)@ == at_intro(old(self)@),
    {
        self.phase = GamePhase::MatchIntro;
        self.queue_start_time = None;
    }

    pub fn start_match(&mut self, mode: MatchMode, now: u64)
        ensures
            final(self)@ == in_match(old(self)@, mode, now),
    {
        self.phase = GamePhase::InMatch;
        if mode != MatchMode::Unknown {
            self.match_mode = mode;
        }
        self.queue_start_time = None;
        if self.match_start_time.is_none() {
            self.match_start_time = Some(now);
        }
    }

    pub fn end_match(&mut self)
        ensures
            final(self)@ == after_match(old(self)@),
    {
        self.phase = GamePhase::PostMatch;
        self.is_transformed = false;
        self.queue_start_time = None;
        self.match_start_time = None;
    }

    pub fn enter_spectating(&mut self)
        ensures
            final(self)@ == watching(old(self)@),
    {
        self.phase = GamePhase::Spectating;
        self.hero_key = None;
        self.is_transformed = false;
        self.queue_start_time = None;
    }

    pub fn connect_to_server(&mut self, address: &str)
        ensures
            final(self)@ == (StateView { server_address: Some(address@), ..old(self)@ }),
    {
        self.server_address = Some(address.to_owned());
    }

    pub fn set_hero(&mut self, key: &str)
        ensures
            final(self)@ == (StateView { hero_key: Some(key@), ..old(self)@ }),
    {
        self.hero_key = Some(key.to_owned());
    }

    pub fn set_party_size(&mut self, size: u32)
        ensures
            final(self)@ == (StateView { party_size: size, ..old(self)@ }),
    {
        self.party_size = size;
    }
}

impl Default for GameState {
    fn default() -> (r: Self)
        ensures
            r@ == fresh_state(),
    {
        GameState::new()
    }
}

} // verus!

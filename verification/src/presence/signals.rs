//! What one line of the console log tells.
use super::patterns;
use super::patterns::{
    group_text, groups, Patterns, APP_SHUTDOWN, BOT_INIT, CHANGE_GAME_STATE, CLIENT_HERO_VMDL,
    HIDEOUT_LOBBY_STATE, HOST_ACTIVATE, LOADED_HERO, LOBBY_CREATED, LOBBY_DESTROYED,
    LOCAL_ACCOUNT_ID, LOOP_MODE_MENU, MAP_CREATED_PHYSICS, MAP_INFO, MM_START, MM_STOP,
    PARTY_EVENT, PLAYER_INFO, PRECACHING_HEROES, SERVER_CONNECT, SERVER_DISCONNECT,
    SERVER_SHUTDOWN, SILVER_WOLF_FORM_OFF, SILVER_WOLF_FORM_ON, SOURCE2_SHUTDOWN,
    SPECTATE_BROADCAST,
};
use crate::text;
use crate::text::{contains_text, lowercase, parse_signed, parse_up_to, trimmed, uppercase};
use vstd::prelude::*;
use vstd::string::*;

verus! {

/// Something that a line tells. Names are in lower case and reasons in upper case.
pub enum LineEvent {
    Nothing,
    Party { party_id: u64, name: String, account_id: u64 },
    MapLoaded { name: String },
    QueueStarted,
    QueueStopped,
    LobbyCreated,
    LobbyDestroyed,
    Broadcast,
    Connected { address: String, loopback: bool },
    HeroLoaded { key: String },
    HeroModel { key: String, transforming: bool },
    FormOn,
    FormOff,
    Disconnected { reason: String },
    GameStateChanged { name: String, id: u32 },
    LobbyState { lobby: i64 },
    BotAdded,
    HostActivated { map: String },
    ServerStopped { reason: String },
    GameStopped,
    Players { players: u32, bots: u32 },
    HeroesPrecached { count: u32 },
}

pub enum LineEventView {
    Nothing,
    Party { party_id: u64, name: Seq<char>, account_id: u64 },
    MapLoaded { name: Seq<char> },
    QueueStarted,
    QueueStopped,
    LobbyCreated,
    LobbyDestroyed,
    Broadcast,
    Connected { address: Seq<char>, loopback: bool },
    HeroLoaded { key: Seq<char> },
    HeroModel { key: Seq<char>, transforming: bool },
    FormOn,
    FormOff,
    Disconnected { reason: Seq<char> },
    GameStateChanged { name: Seq<char>, id: u32 },
    LobbyState { lobby: i64 },
    BotAdded,
    HostActivated { map: Seq<char> },
    ServerStopped { reason: Seq<char> },
    GameStopped,
    Players { players: u32, bots: u32 },
    HeroesPrecached { count: u32 },
}

impl View for LineEvent {
    type V = LineEventView;

    open spec fn view(&self) -> LineEventView {
        match self {
            LineEvent::Nothing => LineEventView::Nothing,
            LineEvent::Party { party_id, name, account_id } => LineEventView::Party {
                party_id: *party_id,
                name: name@,
                account_id: *account_id,
            },
            LineEvent::MapLoaded { name } => LineEventView::MapLoaded { name: name@ },
            LineEvent::QueueStarted => LineEventView::QueueStarted,
            LineEvent::QueueStopped => LineEventView::QueueStopped,
            LineEvent::LobbyCreated => LineEventView::LobbyCreated,
            LineEvent::LobbyDestroyed => LineEventView::LobbyDestroyed,
            LineEvent::Broadcast => LineEventView::Broadcast,
            LineEvent::Connected { address, loopback } => LineEventView::Connected {
                address: address@,
                loopback: *loopback,
            },
            LineEvent::HeroLoaded { key } => LineEventView::HeroLoaded { key: key@ },
            LineEvent::HeroModel { key, transforming } => LineEventView::HeroModel {
                key: key@,
                transforming: *transforming,
            },
            LineEvent::FormOn => LineEventView::FormOn,
            LineEvent::FormOff => LineEventView::FormOff,
            LineEvent::Disconnected { reason } => LineEventView::Disconnected { reason: reason@ },
            LineEvent::GameStateChanged { name, id } => LineEventView::GameStateChanged {
                name: name@,
                id: *id,
            },
            LineEvent::LobbyState { lobby } => LineEventView::LobbyState { lobby: *lobby },
            LineEvent::BotAdded => LineEventView::BotAdded,
            LineEvent::HostActivated { map } => LineEventView::HostActivated { map: map@ },
            LineEvent::ServerStopped { reason } => LineEventView::ServerStopped {
                reason: reason@,
            },
            LineEvent::GameStopped => LineEventView::GameStopped,
            LineEvent::Players { players, bots } => LineEventView::Players {
                players: *players,
                bots: *bots,
            },
            LineEvent::HeroesPrecached { count } => LineEventView::HeroesPrecached {
                count: *count,
            },
        }
    }
}

/// What a line tells: the account of the player; the first event; whether it says
/// that the menu is back; and the event that counts if the menu does not.
pub struct LineSignals {
    pub account: Option<u64>,
    pub event: LineEvent,
    pub menu: bool,
    pub later: LineEvent,
}

pub struct SignalsView {
    pub account: Option<u64>,
    pub event: LineEventView,
    pub menu: bool,
    pub later: LineEventView,
}

impl View for LineSignals {
    type V = SignalsView;

    open spec fn view(&self) -> SignalsView {
        SignalsView {
            account: self.account,
            event: self.event@,
            menu: self.menu,
            later: self.later@,
        }
    }
}

pub open spec fn number_or_zero(s: Seq<char>, max: nat) -> nat {
    match parse_up_to(s, max) {
        Some(n) => n,
        None => 0,
    }
}

pub open spec fn signed_or_zero(s: Seq<char>) -> int {
    match parse_signed(s) {
        Some(n) => n,
        None => 0,
    }
}

/// The account that a line names.
pub open spec fn account_told(line: Seq<char>) -> Option<u64> {
    match groups(LOCAL_ACCOUNT_ID@, line) {
        Some(g) => match parse_up_to(group_text(g, 1), u64::MAX as nat) {
            Some(n) => Some(n as u64),
            None => None,
        },
        None => None,
    }
}

/// The first event of a line.
pub open spec fn event_told(line: Seq<char>) -> LineEventView {
    if groups(PARTY_EVENT@, line) is Some {
        let g = groups(PARTY_EVENT@, line)->0;
        LineEventView::Party {
            party_id: number_or_zero(group_text(g, 1), u64::MAX as nat) as u64,
            name: lowercase(group_text(g, 2)),
            account_id: number_or_zero(group_text(g, 3), u64::MAX as nat) as u64,
        }
    } else if groups(MAP_INFO@, line) is Some {
        LineEventView::MapLoaded {
            name: trimmed(lowercase(group_text(groups(MAP_INFO@, line)->0, 1))),
        }
    } else if groups(MAP_CREATED_PHYSICS@, line) is Some {
        LineEventView::MapLoaded {
            name: trimmed(lowercase(group_text(groups(MAP_CREATED_PHYSICS@, line)->0, 1))),
        }
    } else if groups(MM_START@, line) is Some {
        LineEventView::QueueStarted
    } else if groups(MM_STOP@, line) is Some {
        LineEventView::QueueStopped
    } else if groups(LOBBY_CREATED@, line) is Some {
        LineEventView::LobbyCreated
    } else if groups(LOBBY_DESTROYED@, line) is Some {
        LineEventView::LobbyDestroyed
    } else if groups(SPECTATE_BROADCAST@, line) is Some {
        LineEventView::Broadcast
    } else if groups(SERVER_CONNECT@, line) is Some {
        let address = group_text(groups(SERVER_CONNECT@, line)->0, 1);
        LineEventView::Connected {
            address,
            loopback: contains_text(lowercase(address), "loopback"@),
        }
    } else if groups(LOADED_HERO@, line) is Some {
        LineEventView::HeroLoaded {
            key: lowercase(group_text(groups(LOADED_HERO@, line)->0, 1)),
        }
    } else if groups(CLIENT_HERO_VMDL@, line) is Some {
        LineEventView::HeroModel {
            key: lowercase(group_text(groups(CLIENT_HERO_VMDL@, line)->0, 1)),
            transforming: contains_text(lowercase(line), "werewolf_transform"@),
        }
    } else if groups(SILVER_WOLF_FORM_ON@, line) is Some {
        LineEventView::FormOn
    } else if groups(SILVER_WOLF_FORM_OFF@, line) is Some {
        LineEventView::FormOff
    } else if groups(SERVER_DISCONNECT@, line) is Some {
        LineEventView::Disconnected {
            reason: uppercase(group_text(groups(SERVER_DISCONNECT@, line)->0, 1)),
        }
    } else {
        LineEventView::Nothing
    }
}

/// The event of a line that counts if neither an earlier one nor the menu does.
pub open spec fn later_told(line: Seq<char>) -> LineEventView {
    if groups(CHANGE_GAME_STATE@, line) is Some {
        let g = groups(CHANGE_GAME_STATE@, line)->0;
        LineEventView::GameStateChanged {
            name: lowercase(group_text(g, 1)),
            id: number_or_zero(group_text(g, 2), u32::MAX as nat) as u32,
        }
    } else if groups(HIDEOUT_LOBBY_STATE@, line) is Some {
        LineEventView::LobbyState {
            lobby: signed_or_zero(group_text(groups(HIDEOUT_LOBBY_STATE@, line)->0, 2)) as i64,
        }
    } else if groups(BOT_INIT@, line) is Some {
        LineEventView::BotAdded
    } else if groups(HOST_ACTIVATE@, line) is Some {
        LineEventView::HostActivated {
            map: trimmed(lowercase(group_text(groups(HOST_ACTIVATE@, line)->0, 1))),
        }
    } else if groups(SERVER_SHUTDOWN@, line) is Some {
        LineEventView::ServerStopped {
            reason: uppercase(group_text(groups(SERVER_SHUTDOWN@, line)->0, 1)),
        }
    } else if groups(APP_SHUTDOWN@, line) is Some || groups(SOURCE2_SHUTDOWN@, line) is Some {
        LineEventView::GameStopped
    } else if groups(PLAYER_INFO@, line) is Some {
        let g = groups(PLAYER_INFO@, line)->0;
        LineEventView::Players {
            players: number_or_zero(group_text(g, 1), u32::MAX as nat) as u32,
            bots: number_or_zero(group_text(g, 2), u32::MAX as nat) as u32,
        }
    } else if groups(PRECACHING_HEROES@, line) is Some {
        LineEventView::HeroesPrecached {
            count: number_or_zero(
                group_text(groups(PRECACHING_HEROES@, line)->0, 1),
                u32::MAX as nat,
            ) as u32,
        }
    } else {
        LineEventView::Nothing
    }
}

/// What a line tells.
pub open spec fn told(line: Seq<char>) -> SignalsView {
    SignalsView {
        account: account_told(line),
        event: event_told(line),
        menu: groups(LOOP_MODE_MENU@, line) is Some,
        later: later_told(line),
    }
}

fn u64_or_zero(s: &str) -> (r: u64)
    ensures
        r == number_or_zero(s@, u64::MAX as nat),
{
    match text::parse_u64(s) {
        Some(n) => n,
        None => 0,
    }
}

fn u32_or_zero(s: &str) -> (r: u32)
    ensures
        r == number_or_zero(s@, u32::MAX as nat),
{
    match text::parse_u32(s) {
        Some(n) => n,
        None => 0,
    }
}

fn i64_or_zero(s: &str) -> (r: i64)
    ensures
        r == signed_or_zero(s@),
{
    match text::parse_i64(s) {
        Some(n) => n,
        None => 0,
    }
}

fn lower(s: String) -> (r: String)
    ensures
        r@ == lowercase(s@),
{
    s.as_str().to_lowercase()
}

fn upper(s: String) -> (r: String)
    ensures
        r@ == uppercase(s@),
{
    s.as_str().to_uppercase()
}

fn lower_trimmed(s: String) -> (r: String)
    ensures
        r@ == trimmed(lowercase(s@)),
{
    text::trim_text(lower(s).as_str())
}

fn read_account(p: &Patterns, line: &str) -> (r: Option<u64>)
    requires
        p.ready(),
    ensures
        r == account_told(line@),
{
    match p.local_account_id.captures(line) {
        Some(g) => text::parse_u64(patterns::group(&g, 1).as_str()),
        None => None,
    }
}

fn read_event(p: &Patterns, line: &str) -> (r: LineEvent)
    requires
        p.ready(),
    ensures
        r@ == event_told(line@),
{
    if let Some(g) = p.party_event.captures(line) {
        return LineEvent::Party {
            party_id: u64_or_zero(patterns::group(&g, 1).as_str()),
            name: lower(patterns::group(&g, 2)),
            account_id: u64_or_zero(patterns::group(&g, 3).as_str()),
        };
    }
    if let Some(g) = p.map_info.captures(line) {
        return LineEvent::MapLoaded { name: lower_trimmed(patterns::group(&g, 1)) };
    }
    if let Some(g) = p.map_created_physics.captures(line) {
        return LineEvent::MapLoaded { name: lower_trimmed(patterns::group(&g, 1)) };
    }
    if p.mm_start.matches(line) {
        return LineEvent::QueueStarted;
    }
    if p.mm_stop.matches(line) {
        return LineEvent::QueueStopped;
    }
    if p.lobby_created.matches(line) {
        return LineEvent::LobbyCreated;
    }
    if p.lobby_destroyed.matches(line) {
        return LineEvent::LobbyDestroyed;
    }
    if p.spectate_broadcast.matches(line) {
        return LineEvent::Broadcast;
    }
    if let Some(g) = p.server_connect.captures(line) {
        let address = patterns::group(&g, 1);
        let loopback = text::has_text(address.as_str().to_lowercase().as_str(), "loopback");
        return LineEvent::Connected { address, loopback };
    }
    if let Some(g) = p.loaded_hero.captures(line) {
        return LineEvent::HeroLoaded { key: lower(patterns::group(&g, 1)) };
    }
    if let Some(g) = p.client_hero_vmdl.captures(line) {
        return LineEvent::HeroModel {
            key: lower(patterns::group(&g, 1)),
            transforming: text::has_text(line.to_lowercase().as_str(), "werewolf_transform"),
        };
    }
    if p.silver_wolf_form_on.matches(line) {
        return LineEvent::FormOn;
    }
    if p.silver_wolf_form_off.matches(line) {
        return LineEvent::FormOff;
    }
    if let Some(g) = p.server_disconnect.captures(line) {
        return LineEvent::Disconnected { reason: upper(patterns::group(&g, 1)) };
    }
    LineEvent::Nothing
}

fn read_later(p: &Patterns, line: &str) -> (r: LineEvent)
    requires
        p.ready(),
    ensures
        r@ == later_told(line@),
{
    if let Some(g) = p.change_game_state.captures(line) {
        return LineEvent::GameStateChanged {
            name: lower(patterns::group(&g, 1)),
            id: u32_or_zero(patterns::group(&g, 2).as_str()),
        };
    }
    if let Some(g) = p.hideout_lobby_state.captures(line) {
        return LineEvent::LobbyState { lobby: i64_or_zero(patterns::group(&g, 2).as_str()) };
    }
    if p.bot_init.matches(line) {
        return LineEvent::BotAdded;
    }
    if let Some(g) = p.host_activate.captures(line) {
        return LineEvent::HostActivated { map: lower_trimmed(patterns::group(&g, 1)) };
    }
    if let Some(g) = p.server_shutdown.captures(line) {
        return LineEvent::ServerStopped { reason: upper(patterns::group(&g, 1)) };
    }
    if p.app_shutdown.matches(line) || p.source2_shutdown.matches(line) {
        return LineEvent::GameStopped;
    }
    if let Some(g) = p.player_info.captures(line) {
        return LineEvent::Players {
            players: u32_or_zero(patterns::group(&g, 1).as_str()),
            bots: u32_or_zero(patterns::group(&g, 2).as_str()),
        };
    }
    if let Some(g) = p.precaching_heroes.captures(line) {
        return LineEvent::HeroesPrecached { count: u32_or_zero(patterns::group(&g, 1).as_str()) };
    }
    LineEvent::Nothing
}

/// Reads what a line tells.
pub fn read_line(p: &Patterns, line: &str) -> (r: LineSignals)
    requires
        p.ready(),
    ensures
        r@ == told(line@),
{
    LineSignals {
        account: read_account(p, line),
        event: read_event(p, line),
        menu: p.loop_mode_menu.matches(line),
        later: read_later(p, line),
    }
}

} // verus!

//! The lines of the console log that tell something.
use crate::text::opt_text;
use vstd::prelude::*;
use vstd::string::*;

verus! {

/// `regex::Regex`, a compiled regular expression.
#[verifier::external_type_specification]
#[verifier::external_body]
pub struct ExRegex(regex::Regex);

/// What `Regex::captures` returns for the expression that a text writes, on a
/// line: the texts of the whole match and of each group, or nothing if there is
/// no match or the text is no expression.
pub uninterp spec fn groups(pattern: Seq<char>, line: Seq<char>) -> Option<
    Seq<Option<Seq<char>>>,
>;

/// A regular expression, with the text that writes it.
pub struct Pattern {
    text: String,
    regex: Option<regex::Regex>,
}

impl View for Pattern {
    type V = Seq<char>;

    closed spec fn view(&self) -> Seq<char> {
        self.text@
    }
}

pub open spec fn group_views(v: Option<Vec<Option<String>>>) -> Option<Seq<Option<Seq<char>>>> {
    match v {
        Some(v) => Some(v@.map_values(|g: Option<String>| opt_text(g))),
        None => None,
    }
}

/// The text of group `i`; empty if the group is not part of the match.
pub open spec fn group_text(g: Seq<Option<Seq<char>>>, i: int) -> Seq<char> {
    if 0 <= i < g.len() && g[i] is Some {
        g[i]->0
    } else {
        Seq::empty()
    }
}

impl Pattern {
    /// `Regex::new` compiles the text that it is given.
    #[verifier::external_body]
    pub(crate) fn new(text: &str) -> (r: Pattern)
        ensures
            r@ == text@,
    {
        Pattern { text: text.to_owned(), regex: regex::Regex::new(text).ok() }
    }

    /// `Regex::captures` depends on nothing but the expression and the line; its
    /// result is called `groups`. A `Pattern` is made by `Pattern::new` alone, so
    /// its expression is the one that its text writes.
    #[verifier::external_body]
    pub(crate) fn captures(&self, line: &str) -> (r: Option<Vec<Option<String>>>)
        ensures
            group_views(r) == groups(self@, line@),
    {
        let found = self.regex.as_ref()?.captures(line)?;
        Some(found.iter().map(|g| g.map(|m| m.as_str().to_owned())).collect())
    }

    pub(crate) fn matches(&self, line: &str) -> (r: bool)
        ensures
            r == (groups(self@, line@) is Some),
    {
        self.captures(line).is_some()
    }
}

/// The text of group `i`.
pub(crate) fn group<'a>(g: &'a Vec<Option<String>>, i: usize) -> (r: String)
    ensures
        r@ == group_text(g@.map_values(|x: Option<String>| opt_text(x)), i as int),
{
    let ghost v = g@.map_values(|x: Option<String>| opt_text(x));
    if i < g.len() {
        assert(v[i as int] == opt_text(g@[i as int]));
        match &g[i] {
            Some(s) => {
                return s.clone();
            },
            None => {},
        }
    }
    let r = String::new();
    assert(r@ =~= Seq::<char>::empty());
    r
}

pub const LOCAL_ACCOUNT_ID: &'static str = "(?i)\\[U:1:(\\d+)\\]";

pub const PARTY_EVENT: &'static str = "(?i)party event: party (\\d+),? (\\w+),? account (\\d+)";

pub const MAP_INFO: &'static str = "(?i)\\bMap: \"?([^\"]+)\"?\\s*$";

pub const MAP_CREATED_PHYSICS: &'static str = "(?i)created physics for (\\S+)";

pub const MM_START: &'static str = "(?i)k_EMsgClientToGCStartMatchmaking\\b";

pub const MM_STOP: &'static str = "(?i)k_EMsgClientToGCStopMatchmaking\\b";

pub const LOBBY_CREATED: &'static str = "(?i)lobby \\d+ for match \\d+ created";

pub const LOBBY_DESTROYED: &'static str = "(?i)lobby \\d+ for match \\d+ destroyed";

pub const SPECTATE_BROADCAST: &'static str = "(?i)playing broadcast";

pub const SERVER_CONNECT: &'static str = "(?i)connected to '?([^'\\s]+)'?";

pub const LOADED_HERO: &'static str = "(?i)loaded hero \\d+/hero_(\\w+)";

pub const CLIENT_HERO_VMDL: &'static str = "(?i)vmdl camera pose success! models/heroes(?:_\\w+)?/(\\w+)/";

pub const SILVER_WOLF_FORM_ON: &'static str = "(?i)silver_wolf_form.*\\bon\\b";

pub const SILVER_WOLF_FORM_OFF: &'static str = "(?i)silver_wolf_form.*\\boff\\b";

pub const SERVER_DISCONNECT: &'static str = "(?i)disconnect(?:ed|ing) from server: (\\w+)";

pub const LOOP_MODE_MENU: &'static str = "(?i)loopmode: menu";

pub const CHANGE_GAME_STATE: &'static str = "(?i)changegamestate: (\\w+) \\((\\d+)\\)";

pub const HIDEOUT_LOBBY_STATE: &'static str = "(?i)hideout lobby state: (\\w+) lobby (-?\\d+)";

pub const BOT_INIT: &'static str = "(?i)initializing bot for player slot";

pub const HOST_ACTIVATE: &'static str = "(?i)host activate: [^(]*\\(([^)]+)\\)";

pub const SERVER_SHUTDOWN: &'static str = "(?i)server shutting down: (\\w+)";

pub const APP_SHUTDOWN: &'static str = "(?i)dispatching eventappshutdown";

pub const SOURCE2_SHUTDOWN: &'static str = "(?i)source2shutdown";

pub const PLAYER_INFO: &'static str = "(?i)players: (\\d+) \\((\\d+) bots\\)";

pub const PRECACHING_HEROES: &'static str = "(?i)precaching (\\d+) heroes";

/// The patterns of the lines that tell something.
pub struct Patterns {
    pub local_account_id: Pattern,
    pub party_event: Pattern,
    pub map_info: Pattern,
    pub map_created_physics: Pattern,
    pub mm_start: Pattern,
    pub mm_stop: Pattern,
    pub lobby_created: Pattern,
    pub lobby_destroyed: Pattern,
    pub spectate_broadcast: Pattern,
    pub server_connect: Pattern,
    pub loaded_hero: Pattern,
    pub client_hero_vmdl: Pattern,
    pub silver_wolf_form_on: Pattern,
    pub silver_wolf_form_off: Pattern,
    pub server_disconnect: Pattern,
    pub loop_mode_menu: Pattern,
    pub change_game_state: Pattern,
    pub hideout_lobby_state: Pattern,
    pub bot_init: Pattern,
    pub host_activate: Pattern,
    pub server_shutdown: Pattern,
    pub app_shutdown: Pattern,
    pub source2_shutdown: Pattern,
    pub player_info: Pattern,
    pub precaching_heroes: Pattern,
}

impl Patterns {
    /// Each pattern is the one that its text writes.
    pub open spec fn ready(self) -> bool {
        &&& self.local_account_id@ == LOCAL_ACCOUNT_ID@
        &&& self.party_event@ == PARTY_EVENT@
        &&& self.map_info@ == MAP_INFO@
        &&& self.map_created_physics@ == MAP_CREATED_PHYSICS@
        &&& self.mm_start@ == MM_START@
        &&& self.mm_stop@ == MM_STOP@
        &&& self.lobby_created@ == LOBBY_CREATED@
        &&& self.lobby_destroyed@ == LOBBY_DESTROYED@
        &&& self.spectate_broadcast@ == SPECTATE_BROADCAST@
        &&& self.server_connect@ == SERVER_CONNECT@
        &&& self.loaded_hero@ == LOADED_HERO@
        &&& self.client_hero_vmdl@ == CLIENT_HERO_VMDL@
        &&& self.silver_wolf_form_on@ == SILVER_WOLF_FORM_ON@
        &&& self.silver_wolf_form_off@ == SILVER_WOLF_FORM_OFF@
        &&& self.server_disconnect@ == SERVER_DISCONNECT@
        &&& self.loop_mode_menu@ == LOOP_MODE_MENU@
        &&& self.change_game_state@ == CHANGE_GAME_STATE@
        &&& self.hideout_lobby_state@ == HIDEOUT_LOBBY_STATE@
        &&& self.bot_init@ == BOT_INIT@
        &&& self.host_activate@ == HOST_ACTIVATE@
        &&& self.server_shutdown@ == SERVER_SHUTDOWN@
        &&& self.app_shutdown@ == APP_SHUTDOWN@
        &&& self.source2_shutdown@ == SOURCE2_SHUTDOWN@
        &&& self.player_info@ == PLAYER_INFO@
        &&& self.precaching_heroes@ == PRECACHING_HEROES@
    }

    pub fn new() -> (r: Patterns)
        ensures
            r.ready(),
    {
        Patterns {
            local_account_id: Pattern::new(LOCAL_ACCOUNT_ID),
            party_event: Pattern::new(PARTY_EVENT),
            map_info: Pattern::new(MAP_INFO),
            map_created_physics: Pattern::new(MAP_CREATED_PHYSICS),
            mm_start: Pattern::new(MM_START),
            mm_stop: Pattern::new(MM_STOP),
            lobby_created: Pattern::new(LOBBY_CREATED),
            lobby_destroyed: Pattern::new(LOBBY_DESTROYED),
            spectate_broadcast: Pattern::new(SPECTATE_BROADCAST),
            server_connect: Pattern::new(SERVER_CONNECT),
            loaded_hero: Pattern::new(LOADED_HERO),
            client_hero_vmdl: Pattern::new(CLIENT_HERO_VMDL),
            silver_wolf_form_on: Pattern::new(SILVER_WOLF_FORM_ON),
            silver_wolf_form_off: Pattern::new(SILVER_WOLF_FORM_OFF),
            server_disconnect: Pattern::new(SERVER_DISCONNECT),
            loop_mode_menu: Pattern::new(LOOP_MODE_MENU),
            change_game_state: Pattern::new(CHANGE_GAME_STATE),
            hideout_lobby_state: Pattern::new(HIDEOUT_LOBBY_STATE),
            bot_init: Pattern::new(BOT_INIT),
            host_activate: Pattern::new(HOST_ACTIVATE),
            server_shutdown: Pattern::new(SERVER_SHUTDOWN),
            app_shutdown: Pattern::new(APP_SHUTDOWN),
            source2_shutdown: Pattern::new(SOURCE2_SHUTDOWN),
            player_info: Pattern::new(PLAYER_INFO),
            precaching_heroes: Pattern::new(PRECACHING_HEROES),
        }
    }
}

} // verus!

//! Which lines of the log lead to which phase of the game.
use super::hero_data::own_name;
use super::log_parser::{
    event_applied, fresh_parser, shows_change, signals_applied, state_at_hideout, ParserView,
};
use super::patterns::{
    group_text, groups, APP_SHUTDOWN, BOT_INIT, CHANGE_GAME_STATE, CLIENT_HERO_VMDL,
    HIDEOUT_LOBBY_STATE, HOST_ACTIVATE, LOADED_HERO, LOBBY_CREATED, LOBBY_DESTROYED,
    LOCAL_ACCOUNT_ID, LOOP_MODE_MENU, MAP_CREATED_PHYSICS, MAP_INFO, MM_START, MM_STOP,
    PARTY_EVENT, PLAYER_INFO, PRECACHING_HEROES, SERVER_CONNECT, SERVER_DISCONNECT,
    SERVER_SHUTDOWN, SILVER_WOLF_FORM_OFF, SILVER_WOLF_FORM_ON, SOURCE2_SHUTDOWN,
    SPECTATE_BROADCAST,
};
use super::signals::{told, LineEventView, SignalsView};
use super::state::{fresh_state, GamePhase, MatchMode, StateView};
use crate::text::{contains_text, lowercase, parse_signed, parse_up_to, trimmed, uppercase};
use vstd::prelude::*;

verus! {

/// The names that models go by.
pub type Aliases = Seq<(Seq<char>, Seq<char>)>;

/// A change of the game's own state tells the phase of a match: its intro, the match
/// itself, or its end. It counts nowhere in the hideout, nor while a match is watched.
pub proof fn law_game_states_lead_to_their_phases(
    p: ParserView,
    s: StateView,
    name: Seq<char>,
    id: u32,
    hideout: bool,
    aliases: Aliases,
    now: u64,
)
    ensures
        ({
            let (q, t) = event_applied(
                p,
                s,
                LineEventView::GameStateChanged { name, id },
                hideout,
                aliases,
                now,
            );
            let heard = s.phase != GamePhase::Spectating && !hideout && !p.hideout_loaded;
            let intro = name == "matchintro"@ || id == 4;
            let running = name == "gameinprogress"@ || name == "inprogress"@ || id == 7;
            let over = name == "postgame"@ || id == 6;
            &&& q == p
            &&& !heard ==> t == s
            &&& heard && intro ==> t == (StateView {
                phase: GamePhase::MatchIntro,
                queue_start_time: None,
                game_state_id: Some(id),
                ..s
            })
            &&& heard && !intro && running ==> t == (StateView {
                phase: GamePhase::InMatch,
                queue_start_time: None,
                game_state_id: Some(id),
                match_start_time: if s.match_start_time is Some {
                    s.match_start_time
                } else {
                    Some(now)
                },
                ..s
            })
            &&& heard && !intro && !running && over ==> t == (StateView {
                phase: GamePhase::PostMatch,
                is_transformed: false,
                queue_start_time: None,
                match_start_time: None,
                game_state_id: Some(id),
                ..s
            })
            &&& heard && !intro && !running && !over ==> t == (StateView {
                game_state_id: Some(id),
                ..s
            })
        }),
{
    reveal_strlit("matchintro");
    reveal_strlit("gameinprogress");
    reveal_strlit("inprogress");
    reveal_strlit("postgame");
}

/// A map tells where the player is: in the hideout, alone or with the party, with all that
/// was known of a match forgotten; or in a match, with the mode of the map, the hero still
/// to be named, and the time at which it began. A map of neither is only noted, and while a
/// match is watched no map counts.
pub proof fn law_maps_lead_to_their_phases(
    p: ParserView,
    s: StateView,
    map: Seq<char>,
    hideout: bool,
    aliases: Aliases,
    now: u64,
)
    ensures
        ({
            let (q, t) = event_applied(
                p,
                s,
                LineEventView::MapLoaded { name: map },
                hideout,
                aliases,
                now,
            );
            let heard = s.phase != GamePhase::Spectating && map.len() > 0 && map != "<empty>"@;
            let match_map = map == "street_test"@ || map == "street_test_bridge"@ || map
                == "new_player_basics"@ || map == "dl_midtown"@;
            &&& !heard ==> q == p && t == s
            &&& heard && map == "dl_hideout"@ ==> {
                &&& q == (ParserView {
                    hero_window_open: true,
                    hideout_loaded: false,
                    bot_init_count: 0,
                    ..p
                })
                &&& t == (StateView {
                    phase: if s.party_size > 1 {
                        GamePhase::PartyHideout
                    } else {
                        GamePhase::Hideout
                    },
                    match_mode: MatchMode::Unknown,
                    hero_key: None,
                    is_transformed: false,
                    party_size: s.party_size,
                    map_name: Some(map),
                    server_address: None,
                    game_state_id: None,
                    player_count: 0,
                    bot_count: 0,
                    queue_start_time: None,
                    match_start_time: None,
                })
            }
            &&& heard && match_map ==> {
                &&& q == (ParserView { hero_window_open: true, hideout_loaded: false, ..p })
                &&& t == (StateView {
                    phase: GamePhase::InMatch,
                    match_mode: if map == "dl_midtown"@ {
                        s.match_mode
                    } else if map == "new_player_basics"@ {
                        MatchMode::Sandbox
                    } else {
                        MatchMode::Unranked
                    },
                    hero_key: None,
                    is_transformed: false,
                    map_name: Some(map),
                    queue_start_time: None,
                    match_start_time: if s.match_start_time is Some {
                        s.match_start_time
                    } else {
                        Some(now)
                    },
                    ..s
                })
            }
            &&& heard && map != "dl_hideout"@ && !match_map ==> q == p && t == (StateView {
                map_name: Some(map),
                ..s
            })
        }),
{
    reveal_strlit("dl_hideout");
    reveal_strlit("street_test");
    reveal_strlit("street_test_bridge");
    reveal_strlit("new_player_basics");
    reveal_strlit("dl_midtown");
    reveal_strlit("<empty>");
    assert("dl_midtown"@.len() == 10);
    assert("dl_hideout"@.len() == 10);
    assert("dl_hideout"@[3] == 'h');
    assert("dl_midtown"@[3] == 'm');
    assert("street_test"@.len() == 11);
    assert("street_test_bridge"@.len() == 18);
    assert("new_player_basics"@.len() == 17);
}

/// The queue is entered from the hideout or the menu, at the time of the line, and left for
/// the hideout, alone or with the party. Anywhere else it does not count.
pub proof fn law_the_queue_is_entered_and_left(
    p: ParserView,
    s: StateView,
    hideout: bool,
    aliases: Aliases,
    now: u64,
)
    ensures
        ({
            let entered = event_applied(p, s, LineEventView::QueueStarted, hideout, aliases, now);
            let left = event_applied(p, s, LineEventView::QueueStopped, hideout, aliases, now);
            let idle = s.phase == GamePhase::MainMenu || s.phase == GamePhase::Hideout || s.phase
                == GamePhase::PartyHideout;
            &&& entered == (
                p,
                if idle {
                    StateView { phase: GamePhase::InQueue, queue_start_time: Some(now), ..s }
                } else {
                    s
                },
            )
            &&& left == (
                p,
                if s.phase == GamePhase::InQueue {
                    StateView {
                        phase: if s.party_size > 1 {
                            GamePhase::PartyHideout
                        } else {
                            GamePhase::Hideout
                        },
                        queue_start_time: None,
                        ..s
                    }
                } else {
                    s
                },
            )
        }),
{
}

/// A lobby, or a connection to a server that is not the game itself, begins a match: the
/// hero is forgotten and the next one named counts; before a match it leads to the intro.
pub proof fn law_lobbies_and_servers_begin_a_match(
    p: ParserView,
    s: StateView,
    address: Seq<char>,
    hideout: bool,
    aliases: Aliases,
    now: u64,
)
    ensures
        ({
            let idle = s.phase == GamePhase::MainMenu || s.phase == GamePhase::Hideout || s.phase
                == GamePhase::PartyHideout || s.phase == GamePhase::InQueue;
            let open = ParserView { hero_window_open: true, ..p };
            let begun = StateView {
                hero_key: None,
                is_transformed: false,
                phase: if idle {
                    GamePhase::MatchIntro
                } else {
                    s.phase
                },
                ..s
            };
            &&& event_applied(p, s, LineEventView::LobbyCreated, hideout, aliases, now) == (
                open,
                StateView { queue_start_time: None, ..begun },
            )
            &&& event_applied(
                p,
                s,
                LineEventView::Connected { address, loopback: false },
                hideout,
                aliases,
                now,
            ) == (
                open,
                StateView {
                    server_address: Some(address),
                    queue_start_time: if idle {
                        None
                    } else {
                        s.queue_start_time
                    },
                    ..begun
                },
            )
            &&& event_applied(
                p,
                s,
                LineEventView::Connected { address, loopback: true },
                hideout,
                aliases,
                now,
            ) == (p, StateView { server_address: Some(address), ..s })
        }),
{
}

/// The game as it is just started.
pub open spec fn at_the_menu(s: StateView) -> bool {
    &&& s.phase == GamePhase::MainMenu
    &&& s.match_mode == MatchMode::Unknown
    &&& s.hero_key is None
    &&& !s.is_transformed
    &&& s.party_size == 1
    &&& s.map_name is None
    &&& s.server_address is None
    &&& s.game_state_id is None
    &&& s.player_count == 0
    &&& s.bot_count == 0
    &&& s.queue_start_time is None
    &&& s.match_start_time is None
}

/// A match that is over leads to the phase after it, with everything but the form of the
/// hero and the times kept: when its lobby is gone, or when the server is left during a
/// match, unless only a loop ends.
pub proof fn law_matches_end(
    p: ParserView,
    s: StateView,
    reason: Seq<char>,
    hideout: bool,
    aliases: Aliases,
    now: u64,
)
    ensures
        ({
            let over = StateView {
                phase: GamePhase::PostMatch,
                is_transformed: false,
                queue_start_time: None,
                match_start_time: None,
                ..s
            };
            let during = s.phase == GamePhase::MatchIntro || s.phase == GamePhase::InMatch
                || s.phase == GamePhase::Spectating;
            let (q, t) = event_applied(
                p,
                s,
                LineEventView::Disconnected { reason },
                hideout,
                aliases,
                now,
            );
            &&& event_applied(p, s, LineEventView::LobbyDestroyed, hideout, aliases, now) == (
                p,
                over,
            )
            &&& contains_text(reason, "EXITING"@) ==> at_the_menu(t) && q == (ParserView {
                hero_window_open: true,
                ..p
            })
            &&& !contains_text(reason, "EXITING"@) && !contains_text(reason, "LOOPDEACTIVATE"@)
                && during ==> q == p && t == over
            &&& !contains_text(reason, "EXITING"@) && (contains_text(reason, "LOOPDEACTIVATE"@)
                || !during) ==> q == p && t == s
        }),
{
}

/// A broadcast leads to watching a match, without a hero. A game that is stopped is at its
/// menu again, without a party; so is one whose server stops because it exits.
pub proof fn law_broadcasts_and_stops(
    p: ParserView,
    s: StateView,
    reason: Seq<char>,
    hideout: bool,
    aliases: Aliases,
    now: u64,
)
    ensures
        ({
            let alone = ParserView {
                hero_window_open: true,
                party_id: None,
                party_members: Set::empty(),
                ..p
            };
            let stopped = event_applied(p, s, LineEventView::GameStopped, hideout, aliases, now);
            let server = event_applied(
                p,
                s,
                LineEventView::ServerStopped { reason },
                hideout,
                aliases,
                now,
            );
            &&& event_applied(p, s, LineEventView::Broadcast, hideout, aliases, now) == (
                ParserView { hideout_loaded: false, ..p },
                StateView {
                    phase: GamePhase::Spectating,
                    hero_key: None,
                    is_transformed: false,
                    queue_start_time: None,
                    ..s
                },
            )
            &&& stopped.0 == alone && at_the_menu(stopped.1)
            &&& contains_text(reason, "EXITING"@) ==> server.0 == alone && at_the_menu(server.1)
            &&& !contains_text(reason, "EXITING"@) ==> server == (p, s)
        }),
{
}

/// Whether a hero that is named is taken for the player's.
pub open spec fn is_taken(p: ParserView, s: StateView, hero: Seq<char>) -> bool {
    match s.phase {
        GamePhase::MainMenu | GamePhase::PostMatch | GamePhase::Spectating => false,
        GamePhase::Hideout | GamePhase::PartyHideout | GamePhase::InQueue => true,
        GamePhase::MatchIntro | GamePhase::InMatch => s.match_mode == MatchMode::Sandbox
            || s.hero_key == Some(hero) || (s.hero_key is None && p.hero_window_open),
    }
}

/// A hero that is named, by any of the names that it goes by, becomes the player's where it
/// is taken for it; in a match that is no sandbox, others then no longer count until the
/// next match. In the hideout the heroes that are loaded with it do not count.
pub proof fn law_heroes_are_named(
    p: ParserView,
    s: StateView,
    key: Seq<char>,
    hideout: bool,
    aliases: Aliases,
    now: u64,
)
    ensures
        ({
            let hero = own_name(aliases, key);
            let (q, t) = event_applied(
                p,
                s,
                LineEventView::HeroLoaded { key },
                hideout,
                aliases,
                now,
            );
            let loading = (s.phase == GamePhase::Hideout || s.phase == GamePhase::PartyHideout)
                && !p.hideout_loaded;
            let closes = (s.phase == GamePhase::MatchIntro || s.phase == GamePhase::InMatch)
                && s.match_mode != MatchMode::Sandbox;
            &&& loading || !is_taken(p, s, hero) ==> q == p && t == s
            &&& !loading && is_taken(p, s, hero) ==> t == (StateView {
                hero_key: Some(hero),
                ..s
            }) && q == (ParserView { hero_window_open: p.hero_window_open && !closes, ..p })
        }),
{
}

/// A model names a hero too, also while the hideout loads; that of the werewolf, when it is
/// the player's hero, tells which form it takes. Its form is told by lines of its own as well.
pub proof fn law_models_name_heroes_and_forms(
    p: ParserView,
    s: StateView,
    key: Seq<char>,
    transforming: bool,
    hideout: bool,
    aliases: Aliases,
    now: u64,
)
    ensures
        ({
            let hero = own_name(aliases, key);
            let taken = is_taken(p, s, hero);
            let now_hero = if taken {
                Some(hero)
            } else {
                s.hero_key
            };
            let (q, t) = event_applied(
                p,
                s,
                LineEventView::HeroModel { key, transforming },
                hideout,
                aliases,
                now,
            );
            let closes = (s.phase == GamePhase::MatchIntro || s.phase == GamePhase::InMatch)
                && s.match_mode != MatchMode::Sandbox;
            &&& t == (StateView {
                hero_key: now_hero,
                is_transformed: if key == "werewolf"@ && now_hero == Some("werewolf"@) {
                    transforming
                } else {
                    s.is_transformed
                },
                ..s
            })
            &&& q == (ParserView {
                hero_window_open: p.hero_window_open && !(taken && closes),
                ..p
            })
            &&& event_applied(p, s, LineEventView::FormOn, hideout, aliases, now) == (
                p,
                StateView { is_transformed: true, ..s },
            )
            &&& event_applied(p, s, LineEventView::FormOff, hideout, aliases, now) == (
                p,
                StateView { is_transformed: false, ..s },
            )
        }),
{
}

/// How many a party with these members has, the player among them.
pub open spec fn with_player(members: Set<u64>, player: Option<u64>) -> nat {
    match player {
        Some(x) => members.insert(x).len(),
        None => members.len(),
    }
}

/// The party grows by whoever joins it and shrinks by whoever leaves it; it is a new one for
/// a player who joins it, or when its number is another. It is gone when the player leaves
/// it, or when it is disbanded. Its size is that of its members and the player, at least two
/// when somebody joins, and one when it is gone.
pub proof fn law_parties_grow_and_shrink(
    p: ParserView,
    s: StateView,
    party_id: u64,
    name: Seq<char>,
    account_id: u64,
    hideout: bool,
    aliases: Aliases,
    now: u64,
)
    requires
        p.party_members.finite(),
    ensures
        ({
            let (q, t) = event_applied(
                p,
                s,
                LineEventView::Party { party_id, name, account_id },
                hideout,
                aliases,
                now,
            );
            let me = p.local_account_id;
            let joins = contains_text(name, "joinedparty"@);
            let leaves = contains_text(name, "leftparty"@) || contains_text(
                name,
                "removedfromparty"@,
            ) || contains_text(name, "kickedfromparty"@);
            let same = p.party_id == Some(party_id);
            let size = with_player(q.party_members, me);
            let gone = me == Some(account_id) || (!leaves && contains_text(name, "disband"@));
            &&& t == (StateView { party_size: t.party_size, ..s })
            &&& q == (ParserView { party_id: q.party_id, party_members: q.party_members, ..p })
            &&& joins ==> {
                &&& q.party_id == Some(party_id)
                &&& q.party_members.contains(account_id)
                &&& forall|x: u64|
                    x != account_id ==> (#[trigger] q.party_members.contains(x) <==> (if me == Some(
                        account_id,
                    ) {
                        false
                    } else if same {
                        p.party_members.contains(x)
                    } else {
                        me == Some(x)
                    }))
                &&& size < 0x1_0000_0000 ==> t.party_size == (if size < 2 {
                    2
                } else {
                    size as int
                })
            }
            &&& !joins && !same ==> q == p && t == s
            &&& !joins && same && leaves && me != Some(account_id) ==> {
                &&& q.party_id == p.party_id
                &&& !q.party_members.contains(account_id)
                &&& forall|x: u64|
                    x != account_id ==> (#[trigger] q.party_members.contains(x)
                        <==> p.party_members.contains(x))
                &&& size < 0x1_0000_0000 ==> t.party_size == (if size < 1 {
                    1
                } else {
                    size as int
                })
            }
            &&& !joins && same && (leaves || contains_text(name, "disband"@)) && gone ==> {
                &&& q.party_id is None
                &&& q.party_members == Set::<u64>::empty()
                &&& t.party_size == 1
            }
            &&& !joins && same && !leaves && !contains_text(name, "disband"@) ==> q == p && t == s
        }),
{
    let (q, t) = event_applied(
        p,
        s,
        LineEventView::Party { party_id, name, account_id },
        hideout,
        aliases,
        now,
    );
    let me = p.local_account_id;
    if me is Some {
        let x = me->0;
        if q.party_members.contains(x) {
            assert(q.party_members.insert(x) =~= q.party_members);
        }
    }
}

/// The account of the player is learned once, and counts in a party from then on.
pub proof fn law_the_player_is_learned_once(
    p: ParserView,
    s: StateView,
    account: u64,
    hideout: bool,
    aliases: Aliases,
    now: u64,
)
    requires
        p.party_members.finite(),
    ensures
        ({
            let silent = SignalsView {
                account: Some(account),
                event: LineEventView::Nothing,
                menu: false,
                later: LineEventView::Nothing,
            };
            let (q, t) = signals_applied(p, s, silent, hideout, aliases, now);
            let size = p.party_members.insert(account).len();
            &&& p.local_account_id is Some ==> q == p && t == s
            &&& p.local_account_id is None && p.party_id is None ==> t == s && q == (ParserView {
                local_account_id: Some(account),
                ..p
            })
            &&& p.local_account_id is None && p.party_id is Some ==> {
                &&& q == (ParserView {
                    local_account_id: Some(account),
                    party_members: p.party_members.insert(account),
                    ..p
                })
                &&& t == (StateView { party_size: t.party_size, ..s })
                &&& size < 0x1_0000_0000 ==> t.party_size == (if size < 2 {
                    2
                } else {
                    size as int
                })
            }
        }),
{
}

/// The lobby of the hideout tells whether there is a party, and with it which hideout the
/// player is in. Players and bots tell the mode of a match, as far as no map has told it.
pub proof fn law_lobbies_and_players_tell_the_mode(
    p: ParserView,
    s: StateView,
    lobby: i64,
    players: u32,
    bots: u32,
    hideout: bool,
    aliases: Aliases,
    now: u64,
)
    requires
        p.party_members.finite(),
    ensures
        ({
            let (q, t) = event_applied(
                p,
                s,
                LineEventView::LobbyState { lobby },
                hideout,
                aliases,
                now,
            );
            let at_home = s.phase == GamePhase::Hideout || s.phase == GamePhase::PartyHideout;
            let size = with_player(p.party_members, p.local_account_id);
            let counted = event_applied(
                p,
                s,
                LineEventView::Players { players, bots },
                hideout,
                aliases,
                now,
            );
            let (b, u) = event_applied(p, s, LineEventView::BotAdded, hideout, aliases, now);
            &&& t == (StateView { party_size: t.party_size, phase: t.phase, ..s })
            &&& lobby == 0 ==> t.party_size == 1 && q == (ParserView {
                party_id: None,
                party_members: Set::empty(),
                ..p
            })
            &&& lobby > 0 ==> q == p && (size < 0x1_0000_0000 ==> t.party_size == (if size < 2 {
                2
            } else {
                size as int
            }))
            &&& lobby < 0 ==> q == p && t.party_size == s.party_size
            &&& at_home ==> t.phase == (if t.party_size > 1 {
                GamePhase::PartyHideout
            } else {
                GamePhase::Hideout
            })
            &&& !at_home ==> t.phase == s.phase
            &&& counted == (
                p,
                if s.phase == GamePhase::Spectating {
                    s
                } else {
                    StateView {
                        player_count: players,
                        bot_count: bots,
                        match_mode: if players >= 9 && (s.match_mode == MatchMode::Unknown
                            || s.match_mode == MatchMode::BotMatch) {
                            MatchMode::Unranked
                        } else {
                            s.match_mode
                        },
                        ..s
                    }
                },
            )
            &&& s.phase == GamePhase::Spectating || hideout ==> b == p && u == s
            &&& s.phase != GamePhase::Spectating && !hideout ==> {
                &&& b == (ParserView { bot_init_count: b.bot_init_count, ..p })
                &&& p.bot_init_count < u32::MAX ==> b.bot_init_count == p.bot_init_count + 1
                &&& u == (StateView {
                    match_mode: if s.match_mode == MatchMode::Unknown {
                        MatchMode::BotMatch
                    } else {
                        s.match_mode
                    },
                    ..s
                })
            }
        }),
{
    if p.local_account_id is Some {
        let x = p.local_account_id->0;
        if p.party_members.contains(x) {
            assert(p.party_members.insert(x) =~= p.party_members);
        }
    }
}

/// The hideout is loaded once a host is active on its map, and no longer once heroes are
/// made ready for a match.
pub proof fn law_the_hideout_is_loaded_by_its_host(
    p: ParserView,
    s: StateView,
    map: Seq<char>,
    count: u32,
    hideout: bool,
    aliases: Aliases,
    now: u64,
)
    ensures
        event_applied(p, s, LineEventView::HostActivated { map }, hideout, aliases, now) == (
            ParserView { hideout_loaded: p.hideout_loaded || map == "dl_hideout"@, ..p },
            s,
        ),
        event_applied(p, s, LineEventView::HeroesPrecached { count }, hideout, aliases, now) == (
            ParserView {
                hideout_loaded: if count > 0 {
                    false
                } else {
                    p.hideout_loaded
                },
                ..p
            },
            s,
        ),
{
}

/// Of what a line tells, the first event counts; where there is none, the menu ends a match
/// that is on; where that does not apply either, the later event counts.
pub proof fn law_the_first_event_of_a_line_counts(
    p: ParserView,
    s: StateView,
    x: SignalsView,
    hideout: bool,
    aliases: Aliases,
    now: u64,
)
    requires
        x.account is None,
    ensures
        ({
            let r = signals_applied(p, s, x, hideout, aliases, now);
            let during = s.phase == GamePhase::MatchIntro || s.phase == GamePhase::InMatch
                || s.phase == GamePhase::Spectating;
            &&& x.event !is Nothing ==> r == event_applied(p, s, x.event, hideout, aliases, now)
            &&& x.event is Nothing && x.menu && during ==> r == (
                p,
                StateView {
                    phase: GamePhase::PostMatch,
                    is_transformed: false,
                    queue_start_time: None,
                    match_start_time: None,
                    ..s
                },
            )
            &&& x.event is Nothing && !(x.menu && during) ==> r == event_applied(
                p,
                s,
                x.later,
                hideout,
                aliases,
                now,
            )
        }),
{
}

/// Following the game starts with nothing known: no party, no player, no hideout, and the next
/// hero that is named counts.
pub proof fn law_following_starts_afresh()
    ensures
        fresh_parser().hero_window_open,
        !fresh_parser().hideout_loaded,
        fresh_parser().bot_init_count == 0,
        fresh_parser().local_account_id is None,
        fresh_parser().party_id is None,
        fresh_parser().party_members == Set::<u64>::empty(),
        at_the_menu(fresh_state()),
{
}

/// A change is told just where the phase, the hero, its form, the mode or the size of the
/// party is another.
pub proof fn law_changes_are_told(a: StateView, b: StateView)
    ensures
        !shows_change(a, b) <==> a.phase == b.phase && a.hero_key == b.hero_key && a.is_transformed
            == b.is_transformed && a.match_mode == b.match_mode && a.party_size == b.party_size,
{
}

/// The player is in the hideout just where the map is that of the hideout, in letters of any
/// case.
pub proof fn law_the_hideout_is_known_by_its_map(s: StateView, map: Seq<char>)
    requires
        s.map_name == Some(map),
    ensures
        state_at_hideout(s) <==> lowercase(map) == "dl_hideout"@,
{
}

/// Whether a number up to a limit is the one that a text writes, or zero if it writes none.
pub open spec fn is_number(s: Seq<char>, max: nat, n: nat) -> bool {
    &&& parse_up_to(s, max) is Some ==> n == parse_up_to(s, max)->0
    &&& parse_up_to(s, max) is None ==> n == 0
}

/// A line is read as the first of the expressions that it matches: the party, a map, the
/// queue, a lobby, a broadcast, a server, a hero, its form, or the end of a connection.
/// Names count in lower case and reasons in upper case, and a number that cannot be read
/// counts as zero.
pub proof fn law_lines_tell_their_first_event(line: Seq<char>)
    ensures
        ({
            let e = told(line).event;
            let party = groups(PARTY_EVENT@, line);
            let map = if groups(MAP_INFO@, line) is Some {
                groups(MAP_INFO@, line)
            } else {
                groups(MAP_CREATED_PHYSICS@, line)
            };
            let start = groups(MM_START@, line);
            let stop = groups(MM_STOP@, line);
            let created = groups(LOBBY_CREATED@, line);
            let destroyed = groups(LOBBY_DESTROYED@, line);
            let broadcast = groups(SPECTATE_BROADCAST@, line);
            let server = groups(SERVER_CONNECT@, line);
            let hero = groups(LOADED_HERO@, line);
            let model = groups(CLIENT_HERO_VMDL@, line);
            let on = groups(SILVER_WOLF_FORM_ON@, line);
            let off = groups(SILVER_WOLF_FORM_OFF@, line);
            let left = groups(SERVER_DISCONNECT@, line);
            let other = party is None && map is None;
            let no_queue = other && start is None && stop is None;
            let no_lobby = no_queue && created is None && destroyed is None;
            let no_server = no_lobby && broadcast is None && server is None;
            let no_hero = no_server && hero is None && model is None;
            let no_form = no_hero && on is None && off is None;
            &&& party is Some ==> {
                &&& e is Party
                &&& e->Party_name == lowercase(group_text(party->0, 2))
                &&& is_number(group_text(party->0, 1), u64::MAX as nat, e->party_id as nat)
                &&& is_number(group_text(party->0, 3), u64::MAX as nat, e->account_id as nat)
            }
            &&& party is None && map is Some ==> e == (LineEventView::MapLoaded {
                name: trimmed(lowercase(group_text(map->0, 1))),
            })
            &&& other && start is Some ==> e == LineEventView::QueueStarted
            &&& other && start is None && stop is Some ==> e == LineEventView::QueueStopped
            &&& no_queue && created is Some ==> e == LineEventView::LobbyCreated
            &&& no_queue && created is None && destroyed is Some ==> e
                == LineEventView::LobbyDestroyed
            &&& no_lobby && broadcast is Some ==> e == LineEventView::Broadcast
            &&& no_lobby && broadcast is None && server is Some ==> e == (
            LineEventView::Connected {
                address: group_text(server->0, 1),
                loopback: contains_text(lowercase(group_text(server->0, 1)), "loopback"@),
            })
            &&& no_server && hero is Some ==> e == (LineEventView::HeroLoaded {
                key: lowercase(group_text(hero->0, 1)),
            })
            &&& no_server && hero is None && model is Some ==> e == (LineEventView::HeroModel {
                key: lowercase(group_text(model->0, 1)),
                transforming: contains_text(lowercase(line), "werewolf_transform"@),
            })
            &&& no_hero && on is Some ==> e == LineEventView::FormOn
            &&& no_hero && on is None && off is Some ==> e == LineEventView::FormOff
            &&& no_form && left is Some ==> e == (LineEventView::Disconnected {
                reason: uppercase(group_text(left->0, 1)),
            })
            &&& no_form && left is None ==> e == LineEventView::Nothing
        }),
{
}

/// Behind the menu, a line is read as the first of these that it matches: a change of the
/// game's state, the lobby of the hideout, a bot, a host, the end of a server or of the game,
/// the players, or the heroes that are made ready.
pub proof fn law_lines_tell_their_later_event(line: Seq<char>)
    ensures
        ({
            let e = told(line).later;
            let change = groups(CHANGE_GAME_STATE@, line);
            let lobby = groups(HIDEOUT_LOBBY_STATE@, line);
            let bot = groups(BOT_INIT@, line);
            let host = groups(HOST_ACTIVATE@, line);
            let server = groups(SERVER_SHUTDOWN@, line);
            let stopped = groups(APP_SHUTDOWN@, line) is Some || groups(SOURCE2_SHUTDOWN@, line)
                is Some;
            let players = groups(PLAYER_INFO@, line);
            let ready = groups(PRECACHING_HEROES@, line);
            let no_lobby = change is None && lobby is None;
            let no_host = no_lobby && bot is None && host is None;
            let no_stop = no_host && server is None && !stopped;
            &&& change is Some ==> {
                &&& e is GameStateChanged
                &&& e->GameStateChanged_name == lowercase(group_text(change->0, 1))
                &&& is_number(group_text(change->0, 2), u32::MAX as nat, e->id as nat)
            }
            &&& change is None && lobby is Some ==> {
                &&& e is LobbyState
                &&& parse_signed(group_text(lobby->0, 2)) is Some ==> e->lobby == parse_signed(
                    group_text(lobby->0, 2),
                )->0
                &&& parse_signed(group_text(lobby->0, 2)) is None ==> e->lobby == 0
            }
            &&& no_lobby && bot is Some ==> e == LineEventView::BotAdded
            &&& no_lobby && bot is None && host is Some ==> e == (LineEventView::HostActivated {
                map: trimmed(lowercase(group_text(host->0, 1))),
            })
            &&& no_host && server is Some ==> e == (LineEventView::ServerStopped {
                reason: uppercase(group_text(server->0, 1)),
            })
            &&& no_host && server is None && stopped ==> e == LineEventView::GameStopped
            &&& no_stop && players is Some ==> {
                &&& e is Players
                &&& is_number(group_text(players->0, 1), u32::MAX as nat, e->players as nat)
                &&& is_number(group_text(players->0, 2), u32::MAX as nat, e->bots as nat)
            }
            &&& no_stop && players is None && ready is Some ==> {
                &&& e is HeroesPrecached
                &&& is_number(group_text(ready->0, 1), u32::MAX as nat, e->count as nat)
            }
            &&& no_stop && players is None && ready is None ==> e == LineEventView::Nothing
            &&& told(line).menu <==> groups(LOOP_MODE_MENU@, line) is Some
            &&& groups(LOCAL_ACCOUNT_ID@, line) is Some ==> {
                let read = parse_up_to(
                    group_text(groups(LOCAL_ACCOUNT_ID@, line)->0, 1),
                    u64::MAX as nat,
                );
                &&& told(line).account is Some <==> read is Some
                &&& read is Some ==> told(line).account->0 == read->0
            }
            &&& groups(LOCAL_ACCOUNT_ID@, line) is None ==> told(line).account is None
        }),
{
}

} // verus!

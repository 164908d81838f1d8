//! The cube game: each line names a game and its rounds of coloured
//! cube counts; a game is possible when no round exceeds a challenge
//! configuration.
use vstd::prelude::*;

verus! {

use crate::text::{
    parse_u8_spec,
    parse_u8_chars,
    seq_views,
    split_on,
    split_on_chars,
    split_once_spec,
    split_once_chars,
    to_chars,
    trim_spec,
    trim_chars,
};

/// A count of red, green and blue cubes.
#[derive(Debug, PartialEq, Eq, Structural, Clone, Copy)]
pub struct KubeConfig {
    pub red: u8,
    pub green: u8,
    pub blue: u8,
}

/// Componentwise order on cube counts.
pub open spec fn kube_le(a: KubeConfig, b: KubeConfig) -> bool {
    a.red <= b.red && a.green <= b.green && a.blue <= b.blue
}

impl PartialOrd for KubeConfig {
    /// Equal counts compare equal, componentwise-smaller counts compare
    /// less, and every other pair compares greater.
    fn partial_cmp(&self, other: &KubeConfig) -> (r: Option<core::cmp::Ordering>) {
        if self.red == other.red && self.green == other.green && self.blue == other.blue {
            Some(core::cmp::Ordering::Equal)
        } else if self.red <= other.red && self.green <= other.green && self.blue <= other.blue {
            Some(core::cmp::Ordering::Less)
        } else {
            Some(core::cmp::Ordering::Greater)
        }
    }
}

impl vstd::std_specs::cmp::PartialOrdSpecImpl for KubeConfig {
    open spec fn obeys_partial_cmp_spec() -> bool {
        true
    }

    open spec fn partial_cmp_spec(&self, other: &KubeConfig) -> Option<core::cmp::Ordering> {
        if *self == *other {
            Some(core::cmp::Ordering::Equal)
        } else if kube_le(*self, *other) {
            Some(core::cmp::Ordering::Less)
        } else {
            Some(core::cmp::Ordering::Greater)
        }
    }
}

/// Why a game description was rejected.
#[derive(Debug, PartialEq, Eq, Structural, Clone, Copy)]
pub enum GameParseError {
    /// The part before the colon has no space to split the id off.
    IdSplit,
    /// A cube entry has no space between amount and colour.
    KubeSplit,
    /// A colour is none of red, green and blue.
    UnknownColor,
}

/// How a piece of a game description parses: a value, a reported error,
/// or an input on which parsing is not defined and which callers must
/// rule out (an unparsable game id or cube amount).
pub enum Parsed<T> {
    Value(T),
    Error(GameParseError),
    Undefined,
}

/// A cube colour.
pub enum Channel {
    Red,
    Green,
    Blue,
}

/// Overwrites one colour's count.
pub open spec fn set_channel(acc: KubeConfig, ch: Channel, amt: u8) -> KubeConfig {
    match ch {
        Channel::Red => KubeConfig { red: amt, green: acc.green, blue: acc.blue },
        Channel::Green => KubeConfig { red: acc.red, green: amt, blue: acc.blue },
        Channel::Blue => KubeConfig { red: acc.red, green: acc.green, blue: amt },
    }
}

/// How one cube entry (`"3 blue"`) parses: trimmed, split at the first
/// space into an amount and a colour.
pub open spec fn kube_outcome(k: Seq<char>) -> Parsed<(Channel, u8)> {
    let t = trim_spec(k);
    match split_once_spec(t, ' ') {
        None => Parsed::Error(GameParseError::KubeSplit),
        Some(p) => {
            if p.0.len() == 0 || p.1.len() == 0 {
                Parsed::Undefined
            } else {
                match parse_u8_spec(p.0) {
                    None => Parsed::Undefined,
                    Some(a) => {
                        if p.1 == "red"@ {
                            Parsed::Value((Channel::Red, a))
                        } else if p.1 == "green"@ {
                            Parsed::Value((Channel::Green, a))
                        } else if p.1 == "blue"@ {
                            Parsed::Value((Channel::Blue, a))
                        } else {
                            Parsed::Error(GameParseError::UnknownColor)
                        }
                    },
                }
            }
        },
    }
}

/// Folds the cube entries of one round over a zero count, left to
/// right, stopping at the first failure.
pub open spec fn kubes_outcome(ks: Seq<Seq<char>>, acc: KubeConfig) -> Parsed<KubeConfig>
    decreases ks.len(),
{
    if ks.len() == 0 {
        Parsed::Value(acc)
    } else {
        match kube_outcome(ks[0]) {
            Parsed::Value(ca) => kubes_outcome(ks.skip(1), set_channel(acc, ca.0, ca.1)),
            Parsed::Error(e) => Parsed::Error(e),
            Parsed::Undefined => Parsed::Undefined,
        }
    }
}

/// How one round (the text between semicolons) parses.
pub open spec fn round_outcome(r: Seq<char>) -> Parsed<KubeConfig> {
    kubes_outcome(split_on(r, ','), KubeConfig { red: 0, green: 0, blue: 0 })
}

/// How a list of rounds parses, stopping at the first failure.
pub open spec fn rounds_outcome(rs: Seq<Seq<char>>) -> Parsed<Seq<KubeConfig>>
    decreases rs.len(),
{
    if rs.len() == 0 {
        Parsed::Value(Seq::<KubeConfig>::empty())
    } else {
        match round_outcome(rs[0]) {
            Parsed::Value(c) => match rounds_outcome(rs.skip(1)) {
                Parsed::Value(t) => Parsed::Value(seq![c] + t),
                Parsed::Error(e) => Parsed::Error(e),
                Parsed::Undefined => Parsed::Undefined,
            },
            Parsed::Error(e) => Parsed::Error(e),
            Parsed::Undefined => Parsed::Undefined,
        }
    }
}

/// How a whole game description parses: the text before the first colon
/// yields the id after its first space, the text after it the rounds,
/// split at semicolons.
pub open spec fn game_outcome(s: Seq<char>) -> Parsed<(u8, Seq<KubeConfig>)> {
    match split_once_spec(s, ':') {
        None => Parsed::Undefined,
        Some(p) => match split_once_spec(p.0, ' ') {
            None => Parsed::Error(GameParseError::IdSplit),
            Some(q) => match parse_u8_spec(q.1) {
                None => Parsed::Undefined,
                Some(id) => match rounds_outcome(split_on(p.1, ';')) {
                    Parsed::Value(rs) => Parsed::Value((id, rs)),
                    Parsed::Error(e) => Parsed::Error(e),
                    Parsed::Undefined => Parsed::Undefined,
                },
            },
        },
    }
}

/// One game: its id and the cube counts shown in each round.
#[derive(Debug)]
pub struct Game {
    pub id: u8,
    pub rounds: Vec<KubeConfig>,
}

/// Parses one cube entry.
fn parse_kube(k: &Vec<char>) -> (r: Result<(bool, bool, u8), GameParseError>)
    requires
        !(kube_outcome(k@) is Undefined),
    ensures
        match r {
            Ok(v) => kube_outcome(k@) matches Parsed::Value(ca) && ca.1 == v.2 && (ca.0 is Red
                <==> (v.0, v.1) == (true, false)) && (ca.0 is Green <==> (v.0, v.1) == (
                false,
                true,
            )) && (ca.0 is Blue <==> (v.0, v.1) == (false, false)),
            Err(e) => kube_outcome(k@) == Parsed::<(Channel, u8)>::Error(e),
        },
{
    let t = trim_chars(k);
    match split_once_chars(&t, ' ') {
        None => Err(GameParseError::KubeSplit),
        Some(p) => {
            let amount = p.0;
            let color = p.1;
            proof {
                if amount@.len() == 0 || color@.len() == 0 {
                    assert(kube_outcome(k@) is Undefined);
                }
            }
            let a = match parse_u8_chars(&amount) {
                Some(a) => a,
                None => {
                    proof {
                        assert(kube_outcome(k@) is Undefined);
                    }
                    0
                },
            };
            let red_lit = to_chars("red");
            let green_lit = to_chars("green");
            let blue_lit = to_chars("blue");
            if crate::text::chars_eq(&color, &red_lit) {
                Ok((true, false, a))
            } else if crate::text::chars_eq(&color, &green_lit) {
                Ok((false, true, a))
            } else if crate::text::chars_eq(&color, &blue_lit) {
                Ok((false, false, a))
            } else {
                Err(GameParseError::UnknownColor)
            }
        },
    }
}

/// Parses one round of cube entries.
fn parse_round(r: &Vec<char>) -> (res: Result<KubeConfig, GameParseError>)
    requires
        !(round_outcome(r@) is Undefined),
    ensures
        match res {
            Ok(c) => round_outcome(r@) == Parsed::Value(c),
            Err(e) => round_outcome(r@) == Parsed::<KubeConfig>::Error(e),
        },
{
    let kubes = split_on_chars(r, ',');
    let ghost all = seq_views(kubes@);
    let mut acc = KubeConfig { red: 0, green: 0, blue: 0 };
    let n = kubes.len();
    let mut i: usize = 0;
    proof {
        assert(all.skip(0) =~= all);
    }
    while i < n
        invariant
            i <= n,
            n == kubes@.len(),
            all == seq_views(kubes@),
            !(round_outcome(r@) is Undefined),
            round_outcome(r@) == kubes_outcome(all.skip(i as int), acc),
        decreases n - i,
    {
        let ghost rem = all.skip(i as int);
        proof {
            assert(rem[0] == kubes@[i as int]@);
            assert(rem.skip(1) =~= all.skip(i + 1));
            if kube_outcome(kubes@[i as int]@) is Undefined {
                assert(round_outcome(r@) is Undefined);
            }
        }
        match parse_kube(&kubes[i]) {
            Ok((is_red, is_green, amt)) => {
                if is_red {
                    acc = KubeConfig { red: amt, green: acc.green, blue: acc.blue };
                } else if is_green {
                    acc = KubeConfig { red: acc.red, green: amt, blue: acc.blue };
                } else {
                    acc = KubeConfig { red: acc.red, green: acc.green, blue: amt };
                }
            },
            Err(e) => {
                return Err(e);
            },
        }
        i = i + 1;
    }
    proof {
        assert(all.skip(n as int) =~= Seq::<Seq<char>>::empty());
    }
    Ok(acc)
}

impl Game {
    /// Parses a game description such as
    /// `Game 1: 3 blue, 4 red; 1 red, 2 green`.
    pub fn new(game_description: String) -> (r: Result<Game, GameParseError>)
        requires
            !(game_outcome(game_description@) is Undefined),
        ensures
            match r {
                Ok(g) => game_outcome(game_description@) matches Parsed::Value(v) && v.0 == g.id
                    && v.1 == g.rounds@,
                Err(e) => game_outcome(game_description@) == Parsed::<(u8, Seq<KubeConfig>)>::Error(
                    e,
                ),
            },
    {
        let ghost s = game_description@;
        let chars = to_chars(game_description.as_str());
        let (head, tail) = match split_once_chars(&chars, ':') {
            Some(p) => p,
            None => {
                proof {
                    assert(game_outcome(s) is Undefined);
                }
                return Err(GameParseError::IdSplit);
            },
        };
        let id_part = match split_once_chars(&head, ' ') {
            Some(q) => q.1,
            None => {
                return Err(GameParseError::IdSplit);
            },
        };
        let id = match parse_u8_chars(&id_part) {
            Some(v) => v,
            None => {
                proof {
                    assert(game_outcome(s) is Undefined);
                }
                return Err(GameParseError::IdSplit);
            },
        };
        let round_parts = split_on_chars(&tail, ';');
        let ghost all = seq_views(round_parts@);
        let mut rounds: Vec<KubeConfig> = Vec::new();
        let n = round_parts.len();
        let mut i: usize = 0;
        proof {
            assert(all.skip(0) =~= all);
            assert(rounds@ =~= Seq::<KubeConfig>::empty());
        }
        while i < n
            invariant
                i <= n,
                n == round_parts@.len(),
                all == seq_views(round_parts@),
                s == game_description@,
                !(game_outcome(s) is Undefined),
                game_outcome(s) matches Parsed::Value(v) ==> v.0 == id,
                ({
                    let rest = rounds_outcome(all.skip(i as int));
                    match rest {
                        Parsed::Value(t) => game_outcome(s) matches Parsed::Value(v) && v.1
                            == rounds@ + t,
                        Parsed::Error(e) => game_outcome(s) == Parsed::<(
                            u8,
                            Seq<KubeConfig>,
                        )>::Error(e),
                        Parsed::Undefined => game_outcome(s) is Undefined,
                    }
                }),
            decreases n - i,
        {
            let ghost rem = all.skip(i as int);
            proof {
                assert(rem[0] == round_parts@[i as int]@);
                assert(rem.skip(1) =~= all.skip(i + 1));
                if round_outcome(round_parts@[i as int]@) is Undefined {
                    assert(rounds_outcome(rem) is Undefined);
                }
            }
            match parse_round(&round_parts[i]) {
                Ok(c) => {
                    let ghost rounds_before = rounds@;
                    rounds.push(c);
                    proof {
                        match rounds_outcome(rem.skip(1)) {
                            Parsed::Value(t) => {
                                assert(rounds_before + (seq![c] + t) =~= rounds@ + t);
                            },
                            Parsed::Error(_) => {},
                            Parsed::Undefined => {},
                        }
                    }
                },
                Err(e) => {
                    proof {
                        assert(rounds_outcome(rem) == Parsed::<Seq<KubeConfig>>::Error(e));
                    }
                    return Err(e);
                },
            }
            i = i + 1;
        }
        proof {
            assert(all.skip(n as int) =~= Seq::<Seq<char>>::empty());
            assert(rounds@ + Seq::<KubeConfig>::empty() =~= rounds@);
        }
        Ok(Game { id, rounds })
    }

    /// Whether no round shows more cubes than the challenge allows.
    pub open spec fn is_possible_spec(rounds: Seq<KubeConfig>, config: KubeConfig) -> bool {
        forall|i: int| 0 <= i < rounds.len() ==> !(((#[trigger] rounds[i]) != config) && !kube_le(
            rounds[i],
            config,
        ))
    }

    /// Whether the game is possible with the given cube configuration:
    /// no round compares greater than it.
    pub fn is_possible(&self, config: &KubeConfig) -> (r: bool)
        ensures
            r == Self::is_possible_spec(self.rounds@, *config),
    {
        let n = self.rounds.len();
        let mut i: usize = 0;
        while i < n
            invariant
                i <= n,
                n == self.rounds@.len(),
                forall|j: int| 0 <= j < i ==> !(((#[trigger] self.rounds@[j]) != *config)
                    && !kube_le(self.rounds@[j], *config)),
            decreases n - i,
        {
            let round = &self.rounds[i];
            if round.gt(config) {
                return false;
            }
            i = i + 1;
        }
        true
    }

    /// How a list of game descriptions parses, stopping at the first
    /// failure.
    pub open spec fn games_outcome(ss: Seq<Seq<char>>) -> Parsed<Seq<(u8, Seq<KubeConfig>)>>
        decreases ss.len(),
    {
        if ss.len() == 0 {
            Parsed::Value(Seq::<(u8, Seq<KubeConfig>)>::empty())
        } else {
            match game_outcome(ss[0]) {
                Parsed::Value(g) => match Self::games_outcome(ss.skip(1)) {
                    Parsed::Value(t) => Parsed::Value(seq![g] + t),
                    Parsed::Error(e) => Parsed::Error(e),
                    Parsed::Undefined => Parsed::Undefined,
                },
                Parsed::Error(e) => Parsed::Error(e),
                Parsed::Undefined => Parsed::Undefined,
            }
        }
    }

    /// Parses every line as a game, returning the first error.
    pub fn parse_games(input: Vec<String>) -> (r: Result<Vec<Game>, GameParseError>)
        requires
            !(Self::games_outcome(seq_views(input@)) is Undefined),
        ensures
            match r {
                Ok(gs) => Self::games_outcome(seq_views(input@)) matches Parsed::Value(v)
                    && gs@.len() == v.len() && forall|i: int|
                    0 <= i < v.len() ==> (#[trigger] gs@[i]).id == v[i].0 && gs@[i].rounds@
                        == v[i].1,
                Err(e) => Self::games_outcome(seq_views(input@)) == Parsed::<
                    Seq<(u8, Seq<KubeConfig>)>,
                >::Error(e),
            },
    {
        let ghost all = seq_views(input@);
        let mut games: Vec<Game> = Vec::new();
        let n = input.len();
        let mut i: usize = 0;
        proof {
            assert(all.skip(0) =~= all);
        }
        while i < n
            invariant
                i <= n,
                n == input@.len(),
                all == seq_views(input@),
                !(Self::games_outcome(all) is Undefined),
                games@.len() == i,
                ({
                    let rest = Self::games_outcome(all.skip(i as int));
                    match rest {
                        Parsed::Value(t) => Self::games_outcome(all) matches Parsed::Value(v) && v
                            =~= seq_views_games(games@) + t,
                        Parsed::Error(e) => Self::games_outcome(all) == Parsed::<
                            Seq<(u8, Seq<KubeConfig>)>,
                        >::Error(e),
                        Parsed::Undefined => Self::games_outcome(all) is Undefined,
                    }
                }),
            decreases n - i,
        {
            let ghost rem = all.skip(i as int);
            proof {
                assert(rem[0] == input@[i as int]@);
                assert(rem.skip(1) =~= all.skip(i + 1));
                if game_outcome(input@[i as int]@) is Undefined {
                    assert(Self::games_outcome(rem) is Undefined);
                }
            }
            match Game::new(input[i].clone()) {
                Ok(g) => {
                    let ghost games_before = games@;
                    games.push(g);
                    proof {
                        let gv = (g.id, g.rounds@);
                        assert(seq_views_games(games@) =~= seq_views_games(games_before).push(gv));
                        match Self::games_outcome(rem.skip(1)) {
                            Parsed::Value(t) => {
                                assert(seq_views_games(games_before) + (seq![gv] + t)
                                    =~= seq_views_games(games@) + t);
                            },
                            Parsed::Error(_) => {},
                            Parsed::Undefined => {},
                        }
                    }
                },
                Err(e) => {
                    return Err(e);
                },
            }
            i = i + 1;
        }
        proof {
            assert(all.skip(n as int) =~= Seq::<Seq<char>>::empty());
            assert(seq_views_games(games@) + Seq::<(u8, Seq<KubeConfig>)>::empty() =~= seq_views_games(
                games@,
            ));
        }
        Ok(games)
    }
}

/// The id and round views of each game in a sequence.
pub open spec fn seq_views_games(gs: Seq<Game>) -> Seq<(u8, Seq<KubeConfig>)> {
    Seq::new(gs.len(), |i: int| (gs[i].id, gs[i].rounds@))
}

} // verus!

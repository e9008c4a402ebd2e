//! The configuration of a run.

use crate::decks::{is_yard, is_yard_format};
use crate::text::{same_text, trim, trimmed, Text};
use vstd::prelude::*;

verus! {

/// What is configured of a player.
#[derive(Debug)]
pub struct PlayerConfig {
    pub name: String,
    pub deck_path: String,
    pub starting_life: Option<i32>,
}

/// The configuration of a run.
#[derive(Debug)]
pub struct RunConfig {
    pub format: String,
    pub iterations: usize,
    pub seed: Option<u64>,
    pub max_turns: Option<usize>,
    pub db_path: String,
    pub player1: PlayerConfig,
    pub player2: PlayerConfig,
    pub output_path: Option<String>,
}

/// What is wrong with a configuration.
#[derive(Debug, Clone, Copy, PartialEq, Eq, Structural)]
pub enum ConfigError {
    /// No game is to be played.
    NoIterations,
    /// A player has no name.
    EmptyPlayerName,
    /// The shared deck is given by two different paths.
    DifferentDecks,
}

/// What is wrong with a configuration, if anything is.
pub open spec fn config_fault(cfg: RunConfig) -> Option<ConfigError> {
    if cfg.iterations == 0 {
        Some(ConfigError::NoIterations)
    } else if trimmed(cfg.player1.name@).len() == 0 || trimmed(cfg.player2.name@).len() == 0 {
        Some(ConfigError::EmptyPlayerName)
    } else if is_yard(cfg.format@) && trimmed(cfg.player1.deck_path@) != trimmed(
        cfg.player2.deck_path@,
    ) {
        Some(ConfigError::DifferentDecks)
    } else {
        None
    }
}

impl ConfigError {
    /// The message for this error.
    pub fn message(&self) -> (text: &'static str)
        ensures
            text@ == match *self {
                ConfigError::NoIterations => "iterations must be greater than 0"@,
                ConfigError::EmptyPlayerName => "player names must not be empty"@,
                ConfigError::DifferentDecks =>
                    "yard format requires both players to reference the same deck_path"@,
            },
    {
        match self {
            ConfigError::NoIterations => "iterations must be greater than 0",
            ConfigError::EmptyPlayerName => "player names must not be empty",
            ConfigError::DifferentDecks =>
                "yard format requires both players to reference the same deck_path",
        }
    }
}

/// Checks a configuration.
pub fn validate_run_config(cfg: &RunConfig) -> (verdict: Result<(), ConfigError>)
    ensures
        verdict == match config_fault(*cfg) {
            Some(error) => Err(error),
            None => Ok(()),
        },
{
    if cfg.iterations == 0 {
        return Err(ConfigError::NoIterations);
    }
    if trim(cfg.player1.name.as_str()).is_empty() || trim(cfg.player2.name.as_str()).is_empty() {
        return Err(ConfigError::EmptyPlayerName);
    }
    if is_yard_format(cfg.format.as_str()) && !same_text(
        trim(cfg.player1.deck_path.as_str()),
        trim(cfg.player2.deck_path.as_str()),
    ) {
        return Err(ConfigError::DifferentDecks);
    }
    Ok(())
}

/// The number of rounds after which a game ends.
pub open spec fn turn_limit(cfg: RunConfig) -> nat {
    match cfg.max_turns {
        Some(limit) => limit as nat,
        None => 30,
    }
}

/// The number of rounds after which a game ends: 30 unless it is configured.
pub fn max_turns(cfg: &RunConfig) -> (limit: usize)
    ensures
        limit == turn_limit(*cfg),
{
    match cfg.max_turns {
        Some(limit) => limit,
        None => 30,
    }
}

/// The seed of the random numbers.
pub open spec fn first_seed(cfg: RunConfig) -> u64 {
    match cfg.seed {
        Some(seed) => seed,
        None => 42,
    }
}

/// The seed of the random numbers: 42 unless it is configured.
pub fn random_seed(cfg: &RunConfig) -> (seed: u64)
    ensures
        seed == first_seed(*cfg),
{
    match cfg.seed {
        Some(seed) => seed,
        None => 42,
    }
}

/// The life with which a player starts.
pub open spec fn first_life(player: PlayerConfig) -> int {
    match player.starting_life {
        Some(life) => life as int,
        None => 20,
    }
}

/// The life with which a player starts: 20 unless it is configured.
pub fn starting_life(player: &PlayerConfig) -> (life: i32)
    ensures
        life == first_life(*player),
{
    match player.starting_life {
        Some(life) => life,
        None => 20,
    }
}

/// An entry of Scryfall's list of bulk downloads.
#[derive(Debug)]
pub struct ScryfallBulkItem {
    pub data_type: String,
    pub download_uri: String,
}

/// The address of the first download of Oracle cards in a list of bulk downloads.
pub open spec fn oracle_cards(items: Seq<ScryfallBulkItem>) -> Option<Text>
    decreases items.len(),
{
    if items.len() == 0 {
        None
    } else if items[0].data_type@ == "oracle_cards"@ {
        Some(items[0].download_uri@)
    } else {
        oracle_cards(items.drop_first())
    }
}

/// The address of the first download of Oracle cards in a list of bulk downloads.
pub fn oracle_cards_uri(items: &Vec<ScryfallBulkItem>) -> (uri: Option<String>)
    ensures
        match uri {
            Some(found) => oracle_cards(items@) == Some(found@),
            None => oracle_cards(items@) is None,
        },
{
    let mut i: usize = 0;
    assert(items@.skip(0) =~= items@);
    while i < items.len()
        invariant
            i <= items@.len(),
            oracle_cards(items@) == oracle_cards(items@.skip(i as int)),
        decreases items@.len() - i,
    {
        assert(items@.skip(i as int)[0] == items@[i as int]);
        assert(items@.skip(i as int).drop_first() =~= items@.skip(i + 1));
        if same_text(items[i].data_type.as_str(), "oracle_cards") {
            return Some(items[i].download_uri.clone());
        }
        i += 1;
    }
    None
}

} // verus!

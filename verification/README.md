# mtngin

A Magic: The Gathering simulation engine in Verus: two bots play each other, and the
program reports on the games.

The engine models a subset of the game: lands, creature combat, direct damage, rituals
and simple heuristics for casting, blocking and discarding. Besides the usual
constructed formats it plays `yard`, in which both players draw from one shared deck of
mono-black and colorless cards and share a graveyard, except for Bridge from Below.

## Layout

- `src/` is the verified library.
  - `text` strings as sequences of characters; `ranking` picking positions by key;
    `seen` the set of cards that a player has seen.
  - `cards` card profiles and how they are read off Scryfall's data; `decks` deck lists
    and format rules; `config` the configuration of a run.
  - `players`, `spells`, `yard`, `combat`, `turns` what happens in a turn; `games`
    shuffling, dealing and playing a game; `report` runs of several games.
  - `laws` what holds of every turn and every game.
- `tests/` runs the library on concrete values.
- `app/` is the command line program: it reads the files, downloads the card database
  and writes the report.

## How the contracts read

Every type has a model: a card is its name, a player is a `Player`, two players with
their shared graveyard are a `Table`. Each step of the game is a function on models, and
the executable function ensures that it takes the old model to the new one and logs the
same lines. A step whose arithmetic on life, lands or mana would leave the range of the
machine integers has no model; the executable function then returns `OutOfRange`.

The orders in which decks are shuffled come from the `rand` crate. The contracts name
them as a function of the seed, and say that they are permutations.

## Use

    mtngin init --db-path data/scryfall-oracle-cards.json
    mtngin run --config run.yaml

A deck list is plain text, with a line `<count> <card name>` for each card, or YAML:

    cards:
      - count: 6
        name: Blood Pet

A line `Sideboard` ends a plain list. A run is configured in YAML:

    format: modern
    iterations: 100
    seed: 42
    max_turns: 30
    db_path: data/scryfall-oracle-cards.json
    output_path: out/report.json
    player1:
      name: RedBot-A
      deck_path: decks/red.deck
      starting_life: 20
    player2:
      name: RedBot-B
      deck_path: decks/red.deck
      starting_life: 20

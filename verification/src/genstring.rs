//! Identifier generation: human-shareable game codes and flavor-text
//! codenames, built from a pseudo-random source.  Uniqueness is not
//! enforced here; callers retry until the identifier is free.

use vstd::prelude::*;
use vstd::string::StringExecFns;
use rand::Rng;

verus! {

/// Length of a game join code.
pub const GAME_CODE_LEN: usize = 8;

/// The characters a game code may hold: uppercase letters and digits.
pub open spec fn is_code_char(c: char) -> bool {
    ('A' <= c && c <= 'Z') || ('0' <= c && c <= '9')
}

/// A well-formed game code: exactly `GAME_CODE_LEN` characters from the
/// code alphabet.
pub open spec fn is_game_code(s: Seq<char>) -> bool {
    s.len() == GAME_CODE_LEN && (forall|i: int| 0 <= i < s.len() ==> is_code_char(#[trigger] s[i]))
}

/// Relies on rand::Rng::gen_range over 0..n: draws a uniform sample from
/// the range, which is non-empty because n >= 1.
#[verifier::external_body]
pub(crate) fn rand_index(n: usize) -> (r: usize)
    requires
        n >= 1,
    ensures
        r < n,
{
    rand::thread_rng().gen_range(0..n)
}

/// The i-th character of the code alphabet, as a one-character piece.
fn code_piece(i: usize) -> (r: &'static str)
    requires
        i < 36,
    ensures
        r@.len() == 1,
        is_code_char(r@[0]),
{
    match i {
        0 => { proof { reveal_strlit("A"); } "A" },
        1 => { proof { reveal_strlit("B"); } "B" },
        2 => { proof { reveal_strlit("C"); } "C" },
        3 => { proof { reveal_strlit("D"); } "D" },
        4 => { proof { reveal_strlit("E"); } "E" },
        5 => { proof { reveal_strlit("F"); } "F" },
        6 => { proof { reveal_strlit("G"); } "G" },
        7 => { proof { reveal_strlit("H"); } "H" },
        8 => { proof { reveal_strlit("I"); } "I" },
        9 => { proof { reveal_strlit("J"); } "J" },
        10 => { proof { reveal_strlit("K"); } "K" },
        11 => { proof { reveal_strlit("L"); } "L" },
        12 => { proof { reveal_strlit("M"); } "M" },
        13 => { proof { reveal_strlit("N"); } "N" },
        14 => { proof { reveal_strlit("O"); } "O" },
        15 => { proof { reveal_strlit("P"); } "P" },
        16 => { proof { reveal_strlit("Q"); } "Q" },
        17 => { proof { reveal_strlit("R"); } "R" },
        18 => { proof { reveal_strlit("S"); } "S" },
        19 => { proof { reveal_strlit("T"); } "T" },
        20 => { proof { reveal_strlit("U"); } "U" },
        21 => { proof { reveal_strlit("V"); } "V" },
        22 => { proof { reveal_strlit("W"); } "W" },
        23 => { proof { reveal_strlit("X"); } "X" },
        24 => { proof { reveal_strlit("Y"); } "Y" },
        25 => { proof { reveal_strlit("Z"); } "Z" },
        26 => { proof { reveal_strlit("0"); } "0" },
        27 => { proof { reveal_strlit("1"); } "1" },
        28 => { proof { reveal_strlit("2"); } "2" },
        29 => { proof { reveal_strlit("3"); } "3" },
        30 => { proof { reveal_strlit("4"); } "4" },
        31 => { proof { reveal_strlit("5"); } "5" },
        32 => { proof { reveal_strlit("6"); } "6" },
        33 => { proof { reveal_strlit("7"); } "7" },
        34 => { proof { reveal_strlit("8"); } "8" },
        _ => { proof { reveal_strlit("9"); } "9" },
    }
}

/// Draws a fresh game code: `GAME_CODE_LEN` independent uniform characters
/// from the code alphabet.  Uniqueness among games is the caller's business.
pub fn get_game_code() -> (r: String)
    ensures
        is_game_code(r@),
{
    let mut s = String::new();
    let mut k: usize = 0;
    while k < GAME_CODE_LEN
        invariant
            k <= GAME_CODE_LEN,
            s@.len() == k,
            forall|i: int| 0 <= i < k ==> is_code_char(#[trigger] s@[i]),
        decreases GAME_CODE_LEN - k,
    {
        let piece = code_piece(rand_index(36));
        s = s.concat(piece);
        k = k + 1;
    }
    s
}

/// The i-th adjective of the codename word list, as character content.
pub open spec fn adjective_at(i: int) -> Seq<char> {
    if i == 0 {
        "Crimson"@
    } else if i == 1 {
        "Silent"@
    } else if i == 2 {
        "Gilded"@
    } else if i == 3 {
        "Velvet"@
    } else if i == 4 {
        "Wandering"@
    } else if i == 5 {
        "Obsidian"@
    } else if i == 6 {
        "Lucky"@
    } else if i == 7 {
        "Rusty"@
    } else if i == 8 {
        "Azure"@
    } else if i == 9 {
        "Smiling"@
    } else if i == 10 {
        "Hidden"@
    } else if i == 11 {
        "Electric"@
    } else if i == 12 {
        "Polite"@
    } else if i == 13 {
        "Restless"@
    } else if i == 14 {
        "Amber"@
    } else {
        "Midnight"@
    }
}

/// The i-th noun of the codename word list, as character content.
pub open spec fn noun_at(i: int) -> Seq<char> {
    if i == 0 {
        "Falcon"@
    } else if i == 1 {
        "Badger"@
    } else if i == 2 {
        "Lantern"@
    } else if i == 3 {
        "Viper"@
    } else if i == 4 {
        "Compass"@
    } else if i == 5 {
        "Heron"@
    } else if i == 6 {
        "Anchor"@
    } else if i == 7 {
        "Mongoose"@
    } else if i == 8 {
        "Typewriter"@
    } else if i == 9 {
        "Otter"@
    } else if i == 10 {
        "Raven"@
    } else if i == 11 {
        "Umbrella"@
    } else if i == 12 {
        "Walrus"@
    } else if i == 13 {
        "Marble"@
    } else if i == 14 {
        "Sparrow"@
    } else {
        "Ledger"@
    }
}

/// The i-th adjective of the codename word list.
fn adjective(i: usize) -> (r: &'static str)
    requires
        i < 16,
    ensures
        r@ == adjective_at(i as int),
        r@.len() >= 1,
{
    match i {
        0 => { proof { reveal_strlit("Crimson"); } "Crimson" },
        1 => { proof { reveal_strlit("Silent"); } "Silent" },
        2 => { proof { reveal_strlit("Gilded"); } "Gilded" },
        3 => { proof { reveal_strlit("Velvet"); } "Velvet" },
        4 => { proof { reveal_strlit("Wandering"); } "Wandering" },
        5 => { proof { reveal_strlit("Obsidian"); } "Obsidian" },
        6 => { proof { reveal_strlit("Lucky"); } "Lucky" },
        7 => { proof { reveal_strlit("Rusty"); } "Rusty" },
        8 => { proof { reveal_strlit("Azure"); } "Azure" },
        9 => { proof { reveal_strlit("Smiling"); } "Smiling" },
        10 => { proof { reveal_strlit("Hidden"); } "Hidden" },
        11 => { proof { reveal_strlit("Electric"); } "Electric" },
        12 => { proof { reveal_strlit("Polite"); } "Polite" },
        13 => { proof { reveal_strlit("Restless"); } "Restless" },
        14 => { proof { reveal_strlit("Amber"); } "Amber" },
        _ => { proof { reveal_strlit("Midnight"); } "Midnight" },
    }
}

/// The i-th noun of the codename word list.
fn noun(i: usize) -> (r: &'static str)
    requires
        i < 16,
    ensures
        r@ == noun_at(i as int),
        r@.len() >= 1,
{
    match i {
        0 => { proof { reveal_strlit("Falcon"); } "Falcon" },
        1 => { proof { reveal_strlit("Badger"); } "Badger" },
        2 => { proof { reveal_strlit("Lantern"); } "Lantern" },
        3 => { proof { reveal_strlit("Viper"); } "Viper" },
        4 => { proof { reveal_strlit("Compass"); } "Compass" },
        5 => { proof { reveal_strlit("Heron"); } "Heron" },
        6 => { proof { reveal_strlit("Anchor"); } "Anchor" },
        7 => { proof { reveal_strlit("Mongoose"); } "Mongoose" },
        8 => { proof { reveal_strlit("Typewriter"); } "Typewriter" },
        9 => { proof { reveal_strlit("Otter"); } "Otter" },
        10 => { proof { reveal_strlit("Raven"); } "Raven" },
        11 => { proof { reveal_strlit("Umbrella"); } "Umbrella" },
        12 => { proof { reveal_strlit("Walrus"); } "Walrus" },
        13 => { proof { reveal_strlit("Marble"); } "Marble" },
        14 => { proof { reveal_strlit("Sparrow"); } "Sparrow" },
        _ => { proof { reveal_strlit("Ledger"); } "Ledger" },
    }
}

/// Draws a fresh codename: one listed adjective and one listed noun,
/// joined by a space.  Which pair is drawn is up to chance; collisions
/// within a game are the caller's business.
pub fn get_agent_name() -> (r: String)
    ensures
        r@.len() >= 3,
        exists|i: int, j: int|
            0 <= i < 16 && 0 <= j < 16 && r@ == #[trigger] adjective_at(i) + " "@
                + #[trigger] noun_at(j),
{
    let ia = rand_index(16);
    let ja = rand_index(16);
    let adj = adjective(ia);
    let nn = noun(ja);
    proof {
        reveal_strlit(" ");
    }
    let r = adj.to_owned().concat(" ").concat(nn);
    proof {
        assert(r@ == adjective_at(ia as int) + " "@ + noun_at(ja as int));
    }
    r
}

} // verus!

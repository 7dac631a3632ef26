//! The two players of a game and the board symbols each one owns.
use vstd::prelude::*;
use crate::input::str_chars;

verus! {

/// One robot of the game, identified by its player number and the two
/// symbols (older territory, newest piece) that mark its cells on the board.
#[derive(Debug, Clone, Copy)]
pub struct Contestant {
    pub number: u8,
    pub symbols: (char, char),
    pub cells_captured: usize,
}

impl Contestant {
    /// Whether `c` is one of this contestant's symbols.
    pub open spec fn owns(self, c: char) -> bool {
        c == self.symbols.0 || c == self.symbols.1
    }

    /// Checks whether a pitch cell belongs to this contestant.
    pub fn owns_cell(&self, cell: &char) -> (r: bool)
        ensures
            r == self.owns(*cell),
    {
        *cell == self.symbols.0 || *cell == self.symbols.1
    }
}

/// Player one plays with `a` / `@`.
pub open spec fn player_one() -> Contestant {
    Contestant { number: 1, symbols: ('a', '@'), cells_captured: 0 }
}

/// Player two plays with `s` / `$`.
pub open spec fn player_two() -> Contestant {
    Contestant { number: 2, symbols: ('s', '$'), cells_captured: 0 }
}

/// Whether the characters `p1` start at position `i` of the text.
pub open spec fn p1_at(s: Seq<char>, i: int) -> bool {
    0 <= i && i + 1 < s.len() && s[i] == 'p' && s[i + 1] == '1'
}

/// Whether the text holds the two characters `p1` next to each other.
pub open spec fn mentions_p1(s: Seq<char>) -> bool {
    exists|i: int| #[trigger] p1_at(s, i)
}

fn make_player_one() -> (c: Contestant)
    ensures
        c == player_one(),
{
    Contestant { number: 1, symbols: ('a', '@'), cells_captured: 0 }
}

fn make_player_two() -> (c: Contestant)
    ensures
        c == player_two(),
{
    Contestant { number: 2, symbols: ('s', '$'), cells_captured: 0 }
}

fn chars_mention_p1(s: &Vec<char>) -> (r: bool)
    ensures
        r == mentions_p1(s@),
{
    let mut i: usize = 1;
    while i < s.len()
        invariant
            1 <= i,
            forall|j: int| 0 <= j < i - 1 ==> !#[trigger] p1_at(s@, j),
        decreases s.len() - i,
    {
        if s[i - 1] == 'p' && s[i] == '1' {
            assert(p1_at(s@, i - 1));
            return true;
        }
        i = i + 1;
    }
    false
}

/// Creates both contestants from the engine's first line, such as
/// `$$$ exec p1 : [./filler]`: we are player one when the line mentions
/// `p1`, player two otherwise; the opponent is the other player.
pub fn create_contestants(input: &str) -> (r: (Contestant, Contestant))
    ensures
        mentions_p1(input@) ==> r == (player_one(), player_two()),
        !mentions_p1(input@) ==> r == (player_two(), player_one()),
        r.0.number != r.1.number,
        forall|c: char| !(r.0.owns(c) && r.1.owns(c)),
{
    let chars = str_chars(input);
    if chars_mention_p1(&chars) {
        (make_player_one(), make_player_two())
    } else {
        (make_player_two(), make_player_one())
    }
}

} // verus!

use vstd::prelude::*;

use crate::datatypes::{Battlesnake, Board};
use crate::tools::AppMode;

verus! {

/// How the snake presents itself to the game server.
#[derive(Clone, Copy, Debug)]
pub struct SnakeAppearance {
    pub apiversion: &'static str,
    pub author: &'static str,
    pub color: &'static str,
    pub head: &'static str,
    pub tail: &'static str,
}

/// The look of the snake in each mode: grey with a plain head and tail
/// while developing, red with the crystal-power head and booster tail in
/// production.
pub fn appearance(mode: AppMode) -> (r: SnakeAppearance)
    ensures
        r.apiversion@ == "1"@,
        r.author@ == "ak47andrew"@,
        mode == AppMode::DEV ==> r.color@ == "#7d7d7d"@ && r.head@ == "safe"@ && r.tail@ == "freckled"@,
        mode == AppMode::PROD ==> r.color@ == "#FF0000"@ && r.head@ == "crystal-power"@ && r.tail@
            == "nr-booster"@,
{
    match mode {
        AppMode::DEV => SnakeAppearance {
            apiversion: "1",
            author: "ak47andrew",
            color: "#7d7d7d",
            head: "safe",
            tail: "freckled",
        },
        AppMode::PROD => SnakeAppearance {
            apiversion: "1",
            author: "ak47andrew",
            color: "#FF0000",
            head: "crystal-power",
            tail: "nr-booster",
        },
    }
}

/// How a finished game ended for us.
#[derive(Clone, Debug)]
pub enum GameOutcome {
    /// We are the snake left on the board.
    Won,
    /// Another snake was left; it carries that snake's name.
    Lost(String),
    /// No snake was left.
    Tie,
}

/// The outcome of a finished game for `you`, read from the final board: no
/// snake left is a tie, else the first snake left is the winner.
pub fn game_outcome(you: &Battlesnake, board: &Board) -> (r: GameOutcome)
    ensures
        board.snakes@.len() == 0 ==> r is Tie,
        board.snakes@.len() > 0 && board.snakes@[0].id@ == you.id@ ==> r is Won,
        board.snakes@.len() > 0 && board.snakes@[0].id@ != you.id@ ==> (r matches GameOutcome::Lost(winner)
            && winner@ == board.snakes@[0].name@),
{
    if board.snakes.len() != 0 {
        if you.id == board.snakes[0].id {
            GameOutcome::Won
        } else {
            GameOutcome::Lost(board.snakes[0].name.clone())
        }
    } else {
        GameOutcome::Tie
    }
}

} // verus!

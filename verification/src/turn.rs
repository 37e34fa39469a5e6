//! One player's turn in a played-out game: the dice a throw shows, whether it
//! loses the turn, and where the player's decision on it leaves the turn.
use vstd::prelude::*;
use crate::defs::{Action, ScoreType, SCORE_WIN};
use crate::dice_set::{
    DiceSet, MAX_VAL, encode, index_char, is_face_char, is_roll, num_dice, dice_counts,
    occurrence_counts, empty, combine_diceset, from_ind, lemma_encode_roll,
};
use crate::farkle_solver::{table_score, table_num_dice, dice_after_hold, max_score, highest_score, lemma_max_score};
use crate::precompute::{Precomputed, score};
use crate::valid_holds::{valid_holds_of, lemma_valid_holds_unique, lemma_no_holds_iff_no_score};

verus! {

/// Every face that a throw shows lies between 1 and 6.
pub open spec fn faces_valid(faces: Seq<usize>) -> bool {
    forall|i: int| 0 <= i < faces.len() ==> 1 <= #[trigger] faces[i] <= 6
}

/// The characters of the faces that a throw shows.
pub open spec fn throw_chars(faces: Seq<usize>) -> Seq<char> {
    faces.map_values(|f: usize| index_char(f as int))
}

/// The characters of valid faces are face characters.
proof fn lemma_throw_chars_faces(faces: Seq<usize>)
    requires
        faces_valid(faces),
    ensures
        forall|i: int| 0 <= i < faces.len() ==> is_face_char(#[trigger] throw_chars(faces)[i]),
{
    assert forall|i: int| 0 <= i < faces.len() implies is_face_char(#[trigger] throw_chars(faces)[i]) by {
        assert(1 <= faces[i] <= 6);
    }
}

/// The dice set of a throw of at most six dice showing `faces`.
pub fn roll_of_faces(faces: &[usize]) -> (r: DiceSet)
    requires
        faces@.len() <= 6,
        faces_valid(faces@),
    ensures
        r == encode(throw_chars(faces@)),
        is_roll(r as nat),
        num_dice(r as nat) == faces@.len(),
        dice_counts(r as nat) == occurrence_counts(throw_chars(faces@)),
{
    let ghost s = throw_chars(faces@);
    proof {
        lemma_throw_chars_faces(faces@);
    }
    let mut roll = empty();
    let n = faces.len();
    for i in 0..n
        invariant
            n == faces@.len(),
            n <= 6,
            faces_valid(faces@),
            s == throw_chars(faces@),
            forall|j: int| 0 <= j < n ==> is_face_char(#[trigger] s[j]),
            roll == encode(s.take(i as int)),
    {
        let f = faces[i];
        proof {
            let t = s.take(i + 1);
            assert(t.drop_last() =~= s.take(i as int));
            assert(t.last() == index_char(f as int));
            assert forall|j: int| 0 <= j < t.len() implies is_face_char(#[trigger] t[j]) by {
                assert(t[j] == s[j]);
            }
            lemma_encode_roll(t);
        }
        roll = combine_diceset(roll, from_ind(f));
    }
    proof {
        assert(s.take(n as int) =~= s);
        lemma_encode_roll(s);
    }
    roll
}

/// Whether `roll` loses the turn: it leaves no hold worth considering, which
/// is when it scores nothing.
pub fn is_farkle(precomputed: &Precomputed, roll: DiceSet) -> (r: bool)
    requires
        is_roll(roll as nat),
    ensures
        r == (valid_holds_of(roll as nat).len() == 0),
        r == (score(roll as nat) == 0),
{
    let holds = precomputed.get_valid_holds(roll);
    proof {
        lemma_valid_holds_unique(roll as nat, holds@, valid_holds_of(roll as nat));
        lemma_no_holds_iff_no_score(roll as nat, holds@);
    }
    holds.len() == 0
}

/// Whether a game goes on: no score has passed the winning score yet.
pub fn game_goes_on(scores: &[ScoreType]) -> (r: bool)
    requires
        scores@.len() >= 1,
    ensures
        r == (max_score(scores@) <= SCORE_WIN),
        r == (forall|i: int| 0 <= i < scores@.len() ==> #[trigger] scores@[i] <= SCORE_WIN),
{
    proof {
        lemma_max_score(scores@);
    }
    highest_score(scores) <= SCORE_WIN
}

/// Where a turn stands after the player has decided on a throw.
#[derive(Clone, Copy, Debug, PartialEq, Eq, Structural)]
pub enum TurnOutcome {
    /// The player throws again, with this held score and this many dice.
    Rolling { held_score: ScoreType, dice_left: usize },
    /// The turn ends with this score for the player; `won` when it reaches the winning score.
    Banked { score: ScoreType, won: bool },
}

/// Where holding `hold` (of a throw of `dice_left` dice) and then taking
/// `action` leaves a turn with `held_score` points held, for a player who has
/// `game_score`: reaching the winning score banks and wins whatever the action;
/// otherwise staying banks, and rolling goes on with the dice that are left
/// (all six again when every die is held).
pub open spec fn spec_after_decision(
    game_score: int,
    held_score: int,
    dice_left: nat,
    hold: nat,
    action: Action,
) -> TurnOutcome {
    let held = held_score + table_score(hold);
    if game_score + held >= SCORE_WIN {
        TurnOutcome::Banked { score: (game_score + held) as ScoreType, won: true }
    } else {
        match action {
            Action::Stay => TurnOutcome::Banked { score: (game_score + held) as ScoreType, won: false },
            Action::Roll => TurnOutcome::Rolling {
                held_score: held as ScoreType,
                dice_left: dice_after_hold(dice_left, table_num_dice(hold)) as usize,
            },
        }
    }
}

/// Where the player's decision on a throw leaves the turn: `hold` is kept from
/// the throw of `dice_left` dice, then `action` is taken.
pub fn after_decision(
    precomputed: &Precomputed,
    game_score: ScoreType,
    held_score: ScoreType,
    dice_left: usize,
    hold: DiceSet,
    action: Action,
) -> (r: TurnOutcome)
    requires
        hold <= MAX_VAL,
        table_num_dice(hold as nat) <= dice_left,
        i32::MIN <= held_score + table_score(hold as nat) <= i32::MAX,
        i32::MIN <= game_score + held_score + table_score(hold as nat) <= i32::MAX,
    ensures
        r == spec_after_decision(game_score as int, held_score as int, dice_left as nat, hold as nat, action),
        game_score + held_score + table_score(hold as nat) >= SCORE_WIN ==> (r == (TurnOutcome::Banked {
            score: (game_score + held_score + table_score(hold as nat)) as ScoreType,
            won: true,
        })),
        action == Action::Stay ==> (r is Banked),
        (r is Banked ==> r->score == game_score + held_score + table_score(hold as nat)),
        (r is Banked ==> (r->won <==> r->score >= SCORE_WIN)),
        (r is Rolling ==> action == Action::Roll),
        (r is Rolling ==> r->held_score == held_score + table_score(hold as nat)),
        (r is Rolling ==> game_score + r->held_score < SCORE_WIN),
        (r is Rolling && table_num_dice(hold as nat) < dice_left ==> r->dice_left == dice_left
            - table_num_dice(hold as nat)),
        (r is Rolling && table_num_dice(hold as nat) == dice_left ==> r->dice_left
            == crate::defs::NUM_DICE),
{
    let held = held_score + precomputed.calc_score(hold);
    if game_score + held >= SCORE_WIN {
        return TurnOutcome::Banked { score: game_score + held, won: true };
    }
    match action {
        Action::Stay => TurnOutcome::Banked { score: game_score + held, won: false },
        Action::Roll => {
            let mut left = dice_left - precomputed.get_num_dice(hold);
            if left == 0 {
                left = crate::defs::NUM_DICE;
            }
            TurnOutcome::Rolling { held_score: held, dice_left: left }
        },
    }
}

} // verus!

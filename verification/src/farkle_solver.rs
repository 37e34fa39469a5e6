//! The integer side of the solver: the keys of its memo table, the positions
//! that end the game, and where holding dice leads.
use vstd::prelude::*;
use crate::defs::{ScoreType, SCORE_WIN, NUM_DICE};
use crate::dice_set::{DiceSet, is_roll, num_dice, MAX_VAL};
use crate::precompute::{Precomputed, score};

verus! {

/// The key of the solver's memo table for two players.
pub type CacheKeyType = u32;

/// Rust's division of a score by 50, rounding towards zero.
pub open spec fn div50(score: int) -> int {
    if score >= 0 {
        score / 50
    } else {
        -((-score) / 50)
    }
}

/// The byte that stands for a score: its number of fifties, truncated to eight bits.
pub open spec fn spec_score_to_byte(score: int) -> u8 {
    div50(score) as u8
}

/// The score that a byte stands for.
pub open spec fn spec_byte_to_score(byte: u8) -> int {
    byte * 50
}

/// The byte that stands for `score`: the number of fifties in it, truncated to eight bits.
pub fn score_to_byte(score: ScoreType) -> (b: u8)
    ensures
        b == spec_score_to_byte(score as int),
{
    let q = score / 50;
    assert(q == div50(score as int));
    q as u8
}

/// The score that a byte stands for: fifty times the byte.
pub fn byte_to_score(byte: u8) -> (s: ScoreType)
    ensures
        s == spec_byte_to_score(byte),
{
    (byte as ScoreType) * 50
}

/// The memo key of a position: the held score's byte in bits 0-7, the dice
/// left in bits 8 and up, and the byte of each player's score from bit 16 on,
/// eight bits per player.
pub open spec fn spec_cache_key(held_score: int, dice_left: usize, scores: Seq<ScoreType>) -> u32 {
    let k0 = (spec_score_to_byte(held_score) as u32) | ((dice_left as u32) << 8u32);
    let k1 = if scores.len() >= 1 {
        k0 | ((spec_score_to_byte(scores[0] as int) as u32) << 16u32)
    } else {
        k0
    };
    if scores.len() >= 2 {
        k1 | ((spec_score_to_byte(scores[1] as int) as u32) << 24u32)
    } else {
        k1
    }
}

/// The memo key of a position, for at most two players (a third player's byte
/// would be shifted past the 32 bits of the key).
pub fn get_cache_key(held_score: ScoreType, dice_left: usize, scores: &[ScoreType]) -> (key:
    CacheKeyType)
    requires
        scores@.len() <= 2,
    ensures
        key == spec_cache_key(held_score as int, dice_left, scores@),
{
    let mut key: CacheKeyType = 0;
    key = key | (score_to_byte(held_score) as CacheKeyType);
    key = key | ((dice_left as CacheKeyType) << 8);
    let ghost k0 = key;
    assert(k0 == (spec_score_to_byte(held_score as int) as u32) | ((dice_left as u32) << 8u32))
        by (bit_vector)
        requires
            k0 == (0u32 | (spec_score_to_byte(held_score as int) as u32)) | ((dice_left as u32)
                << 8u32),
    ;
    if scores.len() >= 1 {
        let b = score_to_byte(scores[0]) as CacheKeyType;
        key = key | (b << 16);
    }
    if scores.len() >= 2 {
        let b = score_to_byte(scores[1]) as CacheKeyType;
        key = key | (b << 24);
    }
    key
}

/// The held score, dice left and two players' scores that a memo key stands for.
pub fn unpack_cache_key(cache_key: CacheKeyType) -> (r: (ScoreType, usize, Vec<ScoreType>))
    ensures
        r.0 == spec_byte_to_score((cache_key & 0xff) as u8),
        r.1 == ((cache_key >> 8u32) & 0xff),
        r.2@ == seq![
            spec_byte_to_score(((cache_key >> 16u32) & 0xff) as u8) as ScoreType,
            spec_byte_to_score(((cache_key >> 24u32) & 0xff) as u8) as ScoreType,
        ],
{
    let held_score = byte_to_score((cache_key & 0xFF) as u8);
    let dice_left = ((cache_key >> 8) & 0xFF) as usize;
    let scores: Vec<ScoreType> = vec![
        byte_to_score(((cache_key >> 16) & 0xFF) as u8),
        byte_to_score(((cache_key >> 24) & 0xFF) as u8),
    ];
    (held_score, dice_left, scores)
}

/// What a score comes back as after packing into a memo key: its number of
/// fifties, truncated to eight bits, times fifty.
pub open spec fn key_round(score: int) -> int {
    spec_byte_to_score(spec_score_to_byte(score))
}

/// Unpacking the memo key of a two-player position gives back the dice
/// left, and each score rounded as `key_round` says, as long as fewer than 256 dice are left.
pub proof fn lemma_cache_key_roundtrip(held_score: ScoreType, dice_left: usize, scores: Seq<ScoreType>)
    requires
        scores.len() == 2,
        dice_left < 256,
    ensures
        ({
            let key = spec_cache_key(held_score as int, dice_left, scores);
            &&& spec_byte_to_score((key & 0xff) as u8) == key_round(held_score as int)
            &&& ((key >> 8u32) & 0xff) == dice_left
            &&& spec_byte_to_score(((key >> 16u32) & 0xff) as u8) == key_round(scores[0] as int)
            &&& spec_byte_to_score(((key >> 24u32) & 0xff) as u8) == key_round(scores[1] as int)
        }),
{
    let key = spec_cache_key(held_score as int, dice_left, scores);
    let b0 = spec_score_to_byte(held_score as int);
    let b1 = spec_score_to_byte(scores[0] as int);
    let b2 = spec_score_to_byte(scores[1] as int);
    let dl = dice_left as u32;
    assert(key == ((((b0 as u32) | (dl << 8u32)) | ((b1 as u32) << 16u32)) | ((b2 as u32)
        << 24u32)));
    assert((key & 0xff) as u8 == b0 && ((key >> 8u32) & 0xff) == dl && ((key >> 16u32) & 0xff)
        as u8 == b1 && ((key >> 24u32) & 0xff) as u8 == b2) by (bit_vector)
        requires
            key == ((((b0 as u32) | (dl << 8u32)) | ((b1 as u32) << 16u32)) | ((b2 as u32)
                << 24u32)),
            dl < 256,
    ;
}

/// A score that is a multiple of fifty between 0 and 12750 survives the memo key unchanged.
pub proof fn lemma_key_round_exact(score: int)
    requires
        0 <= score <= 12750,
        score % 50 == 0,
    ensures
        key_round(score) == score,
{
    assert(div50(score) == score / 50);
    assert(0 <= score / 50 < 256);
}

/// How a position stands before anyone decides.
#[derive(Clone, Copy, Debug, PartialEq, Eq, Structural)]
pub enum Standing {
    /// The player to move wins by staying: the held score reaches the winning score.
    Won,
    /// Some player has already reached the winning score.
    Lost,
    /// The game goes on.
    Open,
}

/// The largest of some scores.
pub open spec fn max_score(scores: Seq<ScoreType>) -> int
    decreases scores.len(),
{
    if scores.len() == 0 {
        0
    } else if scores.len() == 1 {
        scores[0] as int
    } else {
        let m = max_score(scores.drop_last());
        if scores.last() as int > m {
            scores.last() as int
        } else {
            m
        }
    }
}

/// The largest of some scores is one of them, and no score is larger.
pub proof fn lemma_max_score(scores: Seq<ScoreType>)
    requires
        scores.len() >= 1,
    ensures
        forall|i: int| 0 <= i < scores.len() ==> #[trigger] scores[i] <= max_score(scores),
        exists|i: int| 0 <= i < scores.len() && #[trigger] scores[i] == max_score(scores),
    decreases scores.len(),
{
    if scores.len() > 1 {
        let t = scores.drop_last();
        lemma_max_score(t);
        assert forall|i: int| 0 <= i < scores.len() implies #[trigger] scores[i] <= max_score(scores) by {
            if i < t.len() {
                assert(t[i] == scores[i]);
            }
        }
        let k = choose|i: int| 0 <= i < t.len() && #[trigger] t[i] == max_score(t);
        if scores.last() as int > max_score(t) {
            assert(scores[scores.len() - 1] == max_score(scores));
        } else {
            assert(scores[k] == t[k]);
        }
    } else {
        assert(scores[0] == max_score(scores));
    }
}

/// How the position stands: won when the held score brings the player to move
/// (the first score) to the winning score, lost when a score has reached it,
/// open otherwise.
pub open spec fn spec_standing(held_score: int, scores: Seq<ScoreType>) -> Standing {
    if held_score + scores[0] >= SCORE_WIN {
        Standing::Won
    } else if max_score(scores) >= SCORE_WIN {
        Standing::Lost
    } else {
        Standing::Open
    }
}

/// The largest of some scores.
pub fn highest_score(scores: &[ScoreType]) -> (m: ScoreType)
    requires
        scores@.len() >= 1,
    ensures
        m == max_score(scores@),
{
    let mut max_val = scores[0];
    let n = scores.len();
    for i in 1..n
        invariant
            n == scores@.len(),
            n >= 1,
            max_val == max_score(scores@.take(i as int)),
    {
        proof {
            assert(scores@.take(i + 1).drop_last() =~= scores@.take(i as int));
        }
        if scores[i] > max_val {
            max_val = scores[i];
        }
        proof {
            assert(scores@.take(i + 1).last() == scores@[i as int]);
        }
    }
    proof {
        assert(scores@.take(n as int) =~= scores@);
        assert(scores@.take(1).len() == 1);
    }
    max_val
}

/// How the position stands for the player to move, whose score comes first.
pub fn standing(held_score: ScoreType, scores: &[ScoreType]) -> (r: Standing)
    requires
        scores@.len() >= 1,
        i32::MIN <= held_score + scores@[0] <= i32::MAX,
    ensures
        r == spec_standing(held_score as int, scores@),
        (r == Standing::Won) == (held_score + scores@[0] >= SCORE_WIN),
        (r == Standing::Lost) == (held_score + scores@[0] < SCORE_WIN && exists|i: int|
            0 <= i < scores@.len() && #[trigger] scores@[i] >= SCORE_WIN),
{
    proof {
        lemma_max_score(scores@);
    }
    if held_score + scores[0] >= SCORE_WIN {
        Standing::Won
    } else if highest_score(scores) >= SCORE_WIN {
        Standing::Lost
    } else {
        Standing::Open
    }
}

/// The scores as the next player sees them: each moved one place to the front,
/// the first going last.
pub fn rotate_scores(scores: &[ScoreType]) -> (r: Vec<ScoreType>)
    requires
        scores@.len() >= 1,
    ensures
        r@ == scores@.subrange(1, scores@.len() as int).push(scores@[0]),
{
    let mut r: Vec<ScoreType> = Vec::new();
    let n = scores.len();
    for i in 1..n
        invariant
            n == scores@.len(),
            r@ == scores@.subrange(1, i as int),
    {
        r.push(scores[i]);
        proof {
            assert(r@ =~= scores@.subrange(1, i + 1));
        }
    }
    r.push(scores[0]);
    r
}

/// The scores the next player sees after the player to move stays: rotated, the
/// held score added to the mover's score, now last.
pub fn stay_scores(held_score: ScoreType, scores: &[ScoreType]) -> (r: Vec<ScoreType>)
    requires
        scores@.len() >= 1,
        scores@[0] + held_score <= i32::MAX,
        scores@[0] + held_score >= i32::MIN,
    ensures
        r@ == scores@.subrange(1, scores@.len() as int).push((scores@[0] + held_score) as ScoreType),
{
    let mut r = rotate_scores(scores);
    let last = r.len() - 1;
    let v = r[last] + held_score;
    r.set(last, v);
    proof {
        assert(r@ =~= scores@.subrange(1, scores@.len() as int).push((scores@[0] + held_score) as ScoreType));
    }
    r
}

/// The dice left to roll after holding `held` of `left` dice: all six again when none are left.
pub open spec fn dice_after_hold(left: nat, held: nat) -> nat {
    if left == held {
        NUM_DICE as nat
    } else {
        (left - held) as nat
    }
}

/// The dice left after a hold: the rolled dice that were not held, and all six
/// again only when every rolled die was held.
pub proof fn lemma_dice_after_hold(left: nat, held: nat)
    requires
        held <= left,
    ensures
        held < left ==> dice_after_hold(left, held) == left - held,
        held == left ==> dice_after_hold(left, held) == NUM_DICE,
        dice_after_hold(left, held) >= 1,
{
}

/// Whether a memo key stands for the start of a turn: nothing held yet.
pub fn is_turn_start(cache_key: CacheKeyType) -> (r: bool)
    ensures
        r == (spec_byte_to_score((cache_key & 0xff) as u8) == 0),
{
    let (held_score, _, _) = unpack_cache_key(cache_key);
    held_score == 0
}

/// What the score table holds for `d`: its score for a roll, `ScoreType::MAX` otherwise.
pub open spec fn table_score(d: nat) -> int {
    if is_roll(d) {
        score(d)
    } else {
        ScoreType::MAX as int
    }
}

/// What the dice table holds for `d`: its number of dice for a roll, 0 otherwise.
pub open spec fn table_num_dice(d: nat) -> nat {
    if is_roll(d) {
        num_dice(d)
    } else {
        0
    }
}

/// Where holding `hold` of `roll` leads: the held score with the hold's score
/// added, and the dice left to roll (all six again when every die is held).
pub fn hold_step(
    precomputed: &Precomputed,
    held_score: ScoreType,
    roll: DiceSet,
    hold: DiceSet,
) -> (r: (ScoreType, usize))
    requires
        roll <= MAX_VAL,
        hold <= MAX_VAL,
        table_num_dice(hold as nat) <= table_num_dice(roll as nat),
        i32::MIN <= held_score + table_score(hold as nat) <= i32::MAX,
    ensures
        r.0 == held_score + table_score(hold as nat),
        r.1 == dice_after_hold(table_num_dice(roll as nat), table_num_dice(hold as nat)),
        table_num_dice(hold as nat) < table_num_dice(roll as nat) ==> r.1 == table_num_dice(
            roll as nat,
        ) - table_num_dice(hold as nat),
        table_num_dice(hold as nat) == table_num_dice(roll as nat) ==> r.1 == NUM_DICE,
        1 <= r.1 <= NUM_DICE || table_num_dice(roll as nat) > NUM_DICE,
{
    let new_held_score = held_score + precomputed.calc_score(hold);
    let mut new_dice_left = precomputed.get_num_dice(roll) - precomputed.get_num_dice(hold);
    if new_dice_left == 0 {
        new_dice_left = NUM_DICE;
    }
    (new_held_score, new_dice_left)
}

/// The scores the next player sees in the approximate solver after a roll that
/// scores nothing: rotated, with 50 points added to the mover's score, now last.
pub fn approx_farkle_scores(scores: &[ScoreType]) -> (r: Vec<ScoreType>)
    requires
        scores@.len() >= 1,
        scores@[0] + 50 <= i32::MAX,
    ensures
        r@ == scores@.subrange(1, scores@.len() as int).push((scores@[0] + 50) as ScoreType),
{
    stay_scores(50, scores)
}

} // verus!

//! The scoring rules of Farkle, and the tables that the solver reads: the
//! score of every roll, the holds worth considering for each roll, and the
//! rolls of each number of dice.
use vstd::prelude::*;
use crate::defs::ScoreType;
use crate::dice_set::{
    DiceSet, MAX_VAL, POWS, FACE_CHARS, count, num_dice, is_roll, face_value, index_char,
    human_readable, dice_counts, from_counts, straight_value, get_freqdist, lemma_take_kind,
    lemma_take_straight, lemma_meld_le, lemma_from_dice_counts, lemma_multiset_occurrences,
    lemma_human_readable_occurrences,
};
use crate::freq::{freq_contents, freqdist_index};
use crate::dice_set::{
    get_chars, empty, from_string, to_sorted_string, encode, sorted_string, face_indices, is_sorted_faces,
    sorted_faces, char_index, is_face_char, all_dice_chars, digits_fit, occurrences,
    lemma_encode_roll, lemma_sorted_string_of_encode, lemma_sorted_faces_of_sorted,
    lemma_sorted_string_sorted, lemma_sorted_string_roundtrip,
};
use crate::valid_holds::{is_valid_holds, get_valid_holds_mut};
use crate::roll_odds::{OkRolls, get_ok_rolls_mut, get_ok_rolls_grouped_mut, scoring_rolls,
    farkle_ways, roll_sequences, sum_ways, lemma_roll_sequences_count, merge_by_holds, lemma_scoring_rolls_in, holds_table};
use crate::iter_tools::{
    combinations_with_replacement_of, join_chars, lists_picks, rows_of, pick, lex_less,
    lex_enumeration, is_combination_with_replacement,
};

verus! {

/// The larger of two numbers.
pub open spec fn larger(a: int, b: int) -> int {
    if a >= b {
        a
    } else {
        b
    }
}

/// The melds made of dice of one face: `(face, number of dice, points)`.
/// A single 1 scores 100 and a single 5 scores 50; three 1s score 1000 and
/// three of another face 100 times the face; four of a kind score 1000 and
/// five of a kind 2000.
pub open spec fn kind_meld(i: int) -> (int, nat, int) {
    if i == 0 {
        (1, 1, 100)
    } else if i == 1 {
        (5, 1, 50)
    } else if 2 <= i <= 7 {
        (i - 1, 3, if i == 2 { 1000 } else { 100 * (i - 1) })
    } else if 8 <= i <= 13 {
        (i - 7, 4, 1000)
    } else {
        (i - 13, 5, 2000)
    }
}

/// How many melds of one face there are.
pub open spec fn num_kind_melds() -> nat {
    20
}

/// The dice left after taking `n` dice of face `f` out of `d`.
pub open spec fn take_kind(d: nat, f: int, n: nat) -> nat {
    (d - n * face_value(f)) as nat
}

/// The best score of `d` that starts with one of the melds of one face from index `i` on,
/// 0 where none fits.
pub open spec fn best_kind(d: nat, i: nat) -> int
    decreases d, num_kind_melds() - i,
{
    if i >= num_kind_melds() {
        0
    } else {
        let (f, n, p) = kind_meld(i as int);
        let here = if count(d, f) >= n {
            proof {
                lemma_meld_le(d, f, n);
            }
            p + score(take_kind(d, f, n))
        } else {
            0
        };
        larger(here, best_kind(d, i + 1))
    }
}

/// A straight (one die of each face) scores 2500 plus the score of what is left.
pub open spec fn straight_points(d: nat) -> int
    decreases d, 0nat,
{
    if count(d, 1) >= 1 && count(d, 2) >= 1 && count(d, 3) >= 1 && count(d, 4) >= 1 && count(d, 5)
        >= 1 && count(d, 6) >= 1 {
        proof {
            lemma_straight_le(d);
        }
        2500 + score((d - straight_value()) as nat)
    } else {
        0
    }
}

/// Six of a kind score 3000.
pub open spec fn six_kind_points(d: nat) -> int {
    if exists|g: int| 1 <= g <= 6 && #[trigger] count(d, g) >= 6 {
        3000
    } else {
        0
    }
}

/// Six dice that make three pairs, or four of a kind and a pair, score 1500:
/// every face occurs 0, 2 or 4 times, and some face twice.
pub open spec fn three_pairs_points(d: nat) -> int {
    if num_dice(d) == 6 && (forall|g: int| 1 <= g <= 6 ==> #[trigger] count(d, g) == 0 || count(d, g)
        == 2 || count(d, g) == 4) && (exists|g: int| 1 <= g <= 6 && #[trigger] count(d, g) == 2) {
        1500
    } else {
        0
    }
}

/// The score of a set of dice: the most points that melds taken from it can
/// make, each meld adding its points to the score of the dice left; 0 where no meld fits.
pub open spec fn score(d: nat) -> int
    decreases d, num_kind_melds() + 1,
{
    larger(
        larger(best_kind(d, 0), straight_points(d)),
        larger(six_kind_points(d), three_pairs_points(d)),
    )
}

/// Starting from any meld of one face, the best score is never negative.
pub proof fn lemma_best_kind_nonneg(d: nat, i: nat)
    ensures
        best_kind(d, i) >= 0,
    decreases num_kind_melds() - i,
{
    if i < num_kind_melds() {
        lemma_best_kind_nonneg(d, i + 1);
    }
}

/// One die of each face weigh no more than a set that holds them.
pub proof fn lemma_straight_le(d: nat)
    requires
        count(d, 1) >= 1,
        count(d, 2) >= 1,
        count(d, 3) >= 1,
        count(d, 4) >= 1,
        count(d, 5) >= 1,
        count(d, 6) >= 1,
    ensures
        straight_value() <= d,
{
    lemma_from_dice_counts(d);
}

/// The score of any set of dice is never negative.
pub proof fn lemma_score_nonneg(d: nat)
    ensures
        score(d) >= 0,
{
    lemma_best_kind_nonneg(d, 0);
}

/// Starting the search of one-face melds earlier never finds less.
proof fn lemma_best_kind_from(d: nat, i: nat, j: nat)
    requires
        i <= j,
    ensures
        best_kind(d, i) >= best_kind(d, j),
    decreases j - i,
{
    if i < j {
        lemma_best_kind_from(d, i + 1, j);
    }
}

/// The meld of one face at index `j`, where it fits, gives at least its points.
proof fn lemma_meld_at_least(d: nat, j: nat)
    requires
        j < num_kind_melds(),
        count(d, kind_meld(j as int).0) >= kind_meld(j as int).1,
    ensures
        score(d) >= kind_meld(j as int).2,
{
    let (f, n, p) = kind_meld(j as int);
    lemma_meld_le(d, f, n);
    lemma_score_nonneg(take_kind(d, f, n));
    lemma_best_kind_from(d, 0, j);
}

/// Every meld of the rules counts: a set of dice scores at least the points of
/// any meld it holds. A single 1 is worth 100 and a single 5 is worth 50;
/// three 1s are worth 1000 and three of another face 100 times the face; four
/// of a kind are worth 1000, five of a kind 2000 and six of a kind 3000; one
/// die of each face is worth 2500, and three pairs (a pair may be four of a
/// kind) are worth 1500.
pub proof fn lemma_melds_score(d: nat)
    ensures
        count(d, 1) >= 1 ==> score(d) >= 100,
        count(d, 5) >= 1 ==> score(d) >= 50,
        count(d, 1) >= 3 ==> score(d) >= 1000,
        forall|f: int| 2 <= f <= 6 && #[trigger] count(d, f) >= 3 ==> score(d) >= 100 * f,
        forall|f: int| 1 <= f <= 6 && #[trigger] count(d, f) >= 4 ==> score(d) >= 1000,
        forall|f: int| 1 <= f <= 6 && #[trigger] count(d, f) >= 5 ==> score(d) >= 2000,
        forall|f: int| 1 <= f <= 6 && #[trigger] count(d, f) >= 6 ==> score(d) >= 3000,
        (forall|f: int| 1 <= f <= 6 ==> #[trigger] count(d, f) >= 1) ==> score(d) >= 2500,
        num_dice(d) == 6 && (forall|f: int|
            1 <= f <= 6 ==> #[trigger] count(d, f) == 0 || count(d, f) == 2 || count(d, f) == 4)
            && (exists|f: int| 1 <= f <= 6 && #[trigger] count(d, f) == 2) ==> score(d) >= 1500,
{
    lemma_best_kind_nonneg(d, 0);
    if count(d, 1) >= 1 {
        lemma_meld_at_least(d, 0);
    }
    if count(d, 5) >= 1 {
        lemma_meld_at_least(d, 1);
    }
    assert forall|f: int| 1 <= f <= 6 && #[trigger] count(d, f) >= 3 implies score(d) >= (if f == 1 {
        1000
    } else {
        100 * f
    }) by {
        lemma_meld_at_least(d, (f + 1) as nat);
    }
    assert forall|f: int| 1 <= f <= 6 && #[trigger] count(d, f) >= 4 implies score(d) >= 1000 by {
        lemma_meld_at_least(d, (f + 7) as nat);
    }
    assert forall|f: int| 1 <= f <= 6 && #[trigger] count(d, f) >= 5 implies score(d) >= 2000 by {
        lemma_meld_at_least(d, (f + 13) as nat);
    }
    if forall|f: int| 1 <= f <= 6 ==> #[trigger] count(d, f) >= 1 {
        assert(count(d, 1) >= 1 && count(d, 2) >= 1 && count(d, 3) >= 1 && count(d, 4) >= 1
            && count(d, 5) >= 1 && count(d, 6) >= 1);
        lemma_straight_le(d);
        lemma_score_nonneg((d - straight_value()) as nat);
    }
    assert forall|f: int| 1 <= f <= 6 && #[trigger] count(d, f) >= 6 implies score(d) >= 3000 by {
        assert(six_kind_points(d) == 3000);
    }
}

/// Only melds score: a set of dice that scores holds a 1, a 5, three of some
/// face, one die of each face, or six dice in pairs.
pub proof fn lemma_score_needs_meld(d: nat)
    requires
        score(d) > 0,
    ensures
        count(d, 1) >= 1 || count(d, 5) >= 1 || (exists|f: int| 1 <= f <= 6 && #[trigger] count(d, f)
            >= 3) || (forall|f: int| 1 <= f <= 6 ==> #[trigger] count(d, f) >= 1) || (num_dice(d)
            == 6 && forall|f: int|
            1 <= f <= 6 ==> #[trigger] count(d, f) == 0 || count(d, f) == 2 || count(d, f) == 4),
{
    lemma_best_kind_pos(d, 0);
    if best_kind(d, 0) > 0 {
        let j = choose|j: int|
            0 <= j < num_kind_melds() && count(d, kind_meld(j).0) >= #[trigger] kind_meld(j).1;
        if j >= 2 {
            assert(count(d, kind_meld(j).0) >= 3);
        }
    } else if straight_points(d) > 0 {
        assert forall|f: int| 1 <= f <= 6 implies #[trigger] count(d, f) >= 1 by {}
    } else if six_kind_points(d) > 0 {
        let g = choose|g: int| 1 <= g <= 6 && #[trigger] count(d, g) >= 6;
        assert(count(d, g) >= 3);
    }
}

/// A meld of one face that fits from index `i` on gives a positive best score,
/// and a positive best score needs such a meld.
proof fn lemma_best_kind_pos(d: nat, i: nat)
    ensures
        best_kind(d, i) > 0 <==> exists|j: int|
            i <= j < num_kind_melds() && count(d, kind_meld(j).0) >= #[trigger] kind_meld(j).1,
    decreases num_kind_melds() - i,
{
    if i < num_kind_melds() {
        lemma_best_kind_pos(d, i + 1);
        let (f, n, p) = kind_meld(i as int);
        if count(d, f) >= n {
            lemma_meld_le(d, f, n);
            lemma_score_nonneg(take_kind(d, f, n));
        }
        if exists|j: int|
            i <= j < num_kind_melds() && count(d, kind_meld(j).0) >= #[trigger] kind_meld(j).1 {
            let j = choose|j: int|
                i <= j < num_kind_melds() && count(d, kind_meld(j).0) >= #[trigger] kind_meld(j).1;
            if j > i {
                assert(i + 1 <= j);
            }
        }
    }
}

/// A set of no dice scores nothing.
pub proof fn lemma_no_dice_no_score(d: nat)
    requires
        num_dice(d) == 0,
    ensures
        score(d) == 0,
{
    lemma_best_kind_pos(d, 0);
    lemma_best_kind_nonneg(d, 0);
    assert forall|j: int| 0 <= j < num_kind_melds() implies count(d, kind_meld(j).0) < #[trigger] kind_meld(j).1 by {
        let f = kind_meld(j).0;
        assert(1 <= f <= 6);
        assert(count(d, f) == 0);
    }
    assert forall|g: int| 1 <= g <= 6 implies #[trigger] count(d, g) == 0 by {}
}

/// A scoring set of dice keeps scoring when dice are added, as long as
/// the result holds at most six dice.
pub proof fn lemma_more_dice_still_score(h: nat, d: nat)
    requires
        forall|g: int| 1 <= g <= 6 ==> #[trigger] count(h, g) <= count(d, g),
        num_dice(d) <= 6,
        score(h) > 0,
    ensures
        score(d) > 0,
{
    lemma_best_kind_pos(h, 0);
    lemma_best_kind_pos(d, 0);
    lemma_best_kind_nonneg(h, 0);
    if best_kind(h, 0) > 0 {
        let j = choose|j: int|
            0 <= j < num_kind_melds() && count(h, kind_meld(j).0) >= #[trigger] kind_meld(j).1;
        assert(1 <= kind_meld(j).0 <= 6);
        assert(count(d, kind_meld(j).0) >= kind_meld(j).1);
    } else if straight_points(h) > 0 {
        assert(count(h, 1) >= 1 && count(h, 2) >= 1 && count(h, 3) >= 1 && count(h, 4) >= 1
            && count(h, 5) >= 1 && count(h, 6) >= 1);
        assert(count(d, 1) >= 1 && count(d, 2) >= 1 && count(d, 3) >= 1 && count(d, 4) >= 1
            && count(d, 5) >= 1 && count(d, 6) >= 1);
        lemma_straight_le(d);
        lemma_score_nonneg((d - straight_value()) as nat);
    } else if six_kind_points(h) > 0 {
        let g = choose|g: int| 1 <= g <= 6 && #[trigger] count(h, g) >= 6;
        assert(count(d, g) >= 6);
    } else {
        assert(three_pairs_points(h) > 0);
        assert(count(h, 1) == count(d, 1) && count(h, 2) == count(d, 2) && count(h, 3) == count(
            d,
            3,
        ) && count(h, 4) == count(d, 4) && count(h, 5) == count(d, 5) && count(h, 6) == count(d, 6)) by {
            assert(count(h, 1) <= count(d, 1));
            assert(count(h, 2) <= count(d, 2));
            assert(count(h, 3) <= count(d, 3));
            assert(count(h, 4) <= count(d, 4));
            assert(count(h, 5) <= count(d, 5));
            assert(count(h, 6) <= count(d, 6));
        }
        let g = choose|g: int| 1 <= g <= 6 && #[trigger] count(h, g) == 2;
        assert(count(d, g) == 2);
        assert forall|g2: int| 1 <= g2 <= 6 implies #[trigger] count(d, g2) == 0 || count(d, g2) == 2
            || count(d, g2) == 4 by {
            assert(count(h, g2) == 0 || count(h, g2) == 2 || count(h, g2) == 4);
        }
    }
}

/// Two rolls, the first holding each face no more often than the second.
pub open spec fn within(a: nat, b: nat) -> bool {
    &&& is_roll(a)
    &&& is_roll(b)
    &&& forall|g: int| 1 <= g <= 6 ==> #[trigger] count(a, g) <= count(b, g)
}

/// The best score from a meld of one face from index `i` on never drops when dice are added.
proof fn lemma_best_kind_mono(a: nat, b: nat, i: nat)
    requires
        within(a, b),
    ensures
        best_kind(a, i) <= best_kind(b, i),
    decreases a, num_kind_melds() - i,
{
    if i < num_kind_melds() {
        lemma_best_kind_mono(a, b, i + 1);
        let (f, n, p) = kind_meld(i as int);
        if count(a, f) >= n {
            assert(count(b, f) >= n);
            lemma_take_kind(a, f, n);
            lemma_take_kind(b, f, n);
            let ta = take_kind(a, f, n);
            let tb = take_kind(b, f, n);
            assert(within(ta, tb)) by {
                assert forall|g: int| 1 <= g <= 6 implies #[trigger] count(ta, g) <= count(tb, g) by {
                    assert(count(a, g) <= count(b, g));
                }
            }
            assert(ta < a);
            lemma_score_mono(ta, tb);
        } else if count(b, f) >= n {
            lemma_meld_le(b, f, n);
            lemma_score_nonneg(take_kind(b, f, n));
        }
    }
}

/// Adding dice to a roll never lowers its score: a roll that holds each face
/// no more often than another roll scores no more than it.
pub proof fn lemma_score_mono(a: nat, b: nat)
    requires
        within(a, b),
    ensures
        score(a) <= score(b),
    decreases a, num_kind_melds() + 1,
{
    lemma_best_kind_mono(a, b, 0);
    lemma_best_kind_nonneg(b, 0);
    if straight_points(a) > 0 {
        assert(count(a, 1) >= 1 && count(a, 2) >= 1 && count(a, 3) >= 1 && count(a, 4) >= 1
            && count(a, 5) >= 1 && count(a, 6) >= 1);
        assert(forall|g: int| 1 <= g <= 6 ==> count(b, g) >= 1) by {
            assert forall|g: int| 1 <= g <= 6 implies count(b, g) >= 1 by {
                assert(count(a, g) <= count(b, g));
            }
        }
        lemma_take_straight(a);
        lemma_take_straight(b);
        let ta = (a - straight_value()) as nat;
        let tb = (b - straight_value()) as nat;
        assert(within(ta, tb)) by {
            assert forall|g: int| 1 <= g <= 6 implies #[trigger] count(ta, g) <= count(tb, g) by {
                assert(count(a, g) <= count(b, g));
            }
        }
        assert(count(b, 1) >= 1 && count(b, 2) >= 1 && count(b, 3) >= 1 && count(b, 4) >= 1
            && count(b, 5) >= 1 && count(b, 6) >= 1);
        lemma_score_mono(ta, tb);
    }
    if six_kind_points(a) > 0 {
        let g = choose|g: int| 1 <= g <= 6 && #[trigger] count(a, g) >= 6;
        assert(count(b, g) >= 6);
    }
    if three_pairs_points(a) > 0 {
        assert(count(a, 1) == count(b, 1) && count(a, 2) == count(b, 2) && count(a, 3) == count(
            b,
            3,
        ) && count(a, 4) == count(b, 4) && count(a, 5) == count(b, 5) && count(a, 6) == count(b, 6)) by {
            assert(count(a, 1) <= count(b, 1));
            assert(count(a, 2) <= count(b, 2));
            assert(count(a, 3) <= count(b, 3));
            assert(count(a, 4) <= count(b, 4));
            assert(count(a, 5) <= count(b, 5));
            assert(count(a, 6) <= count(b, 6));
        }
        let g = choose|g: int| 1 <= g <= 6 && #[trigger] count(a, g) == 2;
        assert(count(b, g) == 2);
        assert forall|g2: int| 1 <= g2 <= 6 implies #[trigger] count(b, g2) == 0 || count(b, g2) == 2
            || count(b, g2) == 4 by {
            assert(count(a, g2) == 0 || count(a, g2) == 2 || count(a, g2) == 4);
        }
    }
}

/// The melds of one face, as the executable code reads them.
fn kind_meld_exec(i: usize) -> (r: (usize, u32, ScoreType))
    requires
        i < 20,
    ensures
        r.0 as int == kind_meld(i as int).0,
        r.1 as nat == kind_meld(i as int).1,
        r.2 as int == kind_meld(i as int).2,
{
    if i == 0 {
        (1, 1, 100)
    } else if i == 1 {
        (5, 1, 50)
    } else if i <= 7 {
        let f = i - 1;
        (f, 3, if i == 2 { 1000 } else { 100 * (f as ScoreType) })
    } else if i <= 13 {
        (i - 7, 4, 1000)
    } else {
        (i - 13, 5, 2000)
    }
}

/// The number of dice of the faces below `f`.
pub open spec fn counted(d: nat, f: int) -> nat
    decreases f,
{
    if f <= 1 {
        0
    } else {
        counted(d, f - 1) + count(d, f - 1)
    }
}

/// The scores in `cache` are right for every roll with fewer than `k` dice.
pub open spec fn scores_known_below(cache: Seq<ScoreType>, k: nat) -> bool {
    &&& cache.len() == MAX_VAL + 1
    &&& forall|d: nat|
        is_roll(d) && num_dice(d) < k ==> cache[d as int] == score(d) && 0 <= score(d) <= 1000
            * num_dice(d)
}

/// The scores in `cache` are right for every roll made of some, but not all,
/// of the dice of `d`.
pub open spec fn sub_scores_known(cache: Seq<ScoreType>, d: nat) -> bool {
    &&& cache.len() == MAX_VAL + 1
    &&& forall|s: nat|
        #[trigger] within(s, d) && s != d ==> cache[s as int] == score(s) && 0 <= score(s) <= 1000
            * num_dice(s)
}

/// The scores in `cache` are right for every roll made of part or all of the dice of `d`.
pub open spec fn part_scores_known(cache: Seq<ScoreType>, d: nat) -> bool {
    &&& cache.len() == MAX_VAL + 1
    &&& forall|s: nat|
        #[trigger] within(s, d) ==> cache[s as int] == score(s) && 0 <= score(s) <= 1000 * num_dice(s)
}

/// Knowing the scores of all rolls gives the scores of the rolls made of
/// part or all of the dice of `d`.
pub proof fn lemma_part_scores_known(cache: Seq<ScoreType>, d: nat)
    requires
        scores_known_below(cache, 7),
    ensures
        part_scores_known(cache, d),
{
}

/// The scores in `cache` are right for every roll of `k` dice.
pub open spec fn size_scores_known(cache: Seq<ScoreType>, k: nat) -> bool {
    &&& cache.len() == MAX_VAL + 1
    &&& forall|d: nat| is_roll(d) && #[trigger] num_dice(d) == k ==> cache[d as int] == score(d)
}

/// A roll made of some, but not all, of the dice of another has fewer dice.
proof fn lemma_proper_within(s: nat, d: nat)
    requires
        within(s, d),
        s != d,
    ensures
        num_dice(s) < num_dice(d),
{
    if num_dice(s) >= num_dice(d) {
        assert(count(s, 1) <= count(d, 1) && count(s, 2) <= count(d, 2) && count(s, 3) <= count(d, 3)
            && count(s, 4) <= count(d, 4) && count(s, 5) <= count(d, 5) && count(s, 6) <= count(d, 6));
        lemma_from_dice_counts(s);
        lemma_from_dice_counts(d);
        assert(dice_counts(s) =~= dice_counts(d));
    }
}

/// Knowing the scores of all smaller rolls gives the scores of the rolls
/// made of part of the dice of `d`.
proof fn lemma_sub_scores_known(cache: Seq<ScoreType>, d: nat)
    requires
        scores_known_below(cache, num_dice(d)),
    ensures
        sub_scores_known(cache, d),
{
    assert forall|s: nat| #[trigger] within(s, d) && s != d implies cache[s as int] == score(s) && 0
        <= score(s) <= 1000 * num_dice(s) by {
        lemma_proper_within(s, d);
    }
}

/// The score of a roll, read from the scores in `cache` of the rolls made of
/// part of its dice, and stored in `cache` at the roll's index.
pub fn calc_score_mut(cache: &mut Vec<ScoreType>, dice: DiceSet) -> (r: ScoreType)
    requires
        is_roll(dice as nat),
        sub_scores_known(old(cache)@, dice as nat),
        old(cache)@[dice as int] == ScoreType::MAX || (old(cache)@[dice as int] == score(
            dice as nat,
        ) && 0 <= score(dice as nat) <= 1000 * num_dice(dice as nat)),
    ensures
        r == score(dice as nat),
        0 <= r <= 1000 * num_dice(dice as nat),
        final(cache)@ == old(cache)@.update(dice as int, r),
{
    let ghost d = dice as nat;
    let ghost k = num_dice(d);
    if cache[dice as usize] != ScoreType::MAX {
        let r = cache[dice as usize];
        proof {
            assert(old(cache)@.update(dice as int, r) =~= old(cache)@);
        }
        return r;
    }
    let freqdist = get_freqdist(dice);
    let mut cnt: Vec<usize> = Vec::new();
    cnt.push(0);
    for f in 1..7
        invariant
            cnt@.len() == f,
            freq_contents(freqdist) == human_readable(d).to_multiset(),
            forall|g: int| 1 <= g < f ==> #[trigger] cnt@[g] == count(d, g),
    {
        let c = freqdist_index(&freqdist, FACE_CHARS[f - 1]);
        proof {
            assert(FACE_CHARS[f - 1] == index_char(f as int));
            lemma_multiset_occurrences(human_readable(d), index_char(f as int));
            lemma_human_readable_occurrences(d, f as int);
        }
        cnt.push(c);
    }
    let mut max_score: ScoreType = 0;
    let mut i: usize = 0;
    proof {
        lemma_best_kind_nonneg(d, 0);
    }
    while i < 20
        invariant
            i <= 20,
            is_roll(d),
            k == num_dice(d),
            d == dice,
            sub_scores_known(cache@, d),
            cnt@.len() == 7,
            forall|g: int| 1 <= g <= 6 ==> #[trigger] cnt@[g] == count(d, g),
            larger(max_score as int, best_kind(d, i as nat)) == best_kind(d, 0),
            0 <= max_score <= 1000 * k,
        decreases 20 - i,
    {
        let (f, n, p) = kind_meld_exec(i);
        if cnt[f] >= n as usize {
            proof {
                lemma_take_kind(d, f as int, n as nat);
                assert(n * POWS[f as int] == n * face_value(f as int));
                let t = take_kind(d, f as int, n as nat);
                assert(within(t, d));
                assert(t != d) by {
                    lemma_meld_le(d, f as int, n as nat);
                }
            }
            let sub = dice - n * POWS[f];
            let cand = p + cache[sub as usize];
            if cand > max_score {
                max_score = cand;
            }
        }
        i = i + 1;
    }
    proof {
        assert(best_kind(d, 20) == 0);
    }
    let ghost kinds = max_score as int;
    let mut straight: ScoreType = 0;
    if cnt[1] >= 1 && cnt[2] >= 1 && cnt[3] >= 1 && cnt[4] >= 1 && cnt[5] >= 1 && cnt[6] >= 1 {
        proof {
            lemma_take_straight(d);
            let t = (d - straight_value()) as nat;
            assert(within(t, d));
            assert(t != d);
        }
        let sub = dice - 19608;
        straight = 2500 + cache[sub as usize];
    }
    assert(straight == straight_points(d));
    let mut six: ScoreType = 0;
    let mut total: usize = 0;
    assert(forall|g: int| 1 <= g <= 6 ==> #[trigger] count(d, g) <= 6);
    let mut only_twos_fours = true;
    let mut has_two = false;
    for f in 1..7
        invariant
            cnt@.len() == 7,
            forall|g: int| 1 <= g <= 6 ==> #[trigger] cnt@[g] == count(d, g),
            six == (if exists|g: int| 1 <= g < f && #[trigger] count(d, g) >= 6 {
                3000int
            } else {
                0int
            }),
            total == counted(d, f as int),
            only_twos_fours == (forall|g: int|
                1 <= g < f ==> #[trigger] count(d, g) == 0 || count(d, g) == 2 || count(d, g) == 4),
            has_two == (exists|g: int| 1 <= g < f && #[trigger] count(d, g) == 2),
            k == num_dice(d),
            k <= 6,
            total <= 6 * (f - 1),
            forall|g: int| 1 <= g <= 6 ==> #[trigger] count(d, g) <= 6,
    {
        let c = cnt[f];
        if c >= 6 {
            six = 3000;
        }
        if c == 2 {
            has_two = true;
        } else if c != 0 && c != 4 {
            only_twos_fours = false;
        }
        total = total + c;
    }
    proof {
        reveal_with_fuel(counted, 7);
    }
    assert(total == num_dice(d));
    let pairs: ScoreType = if total == 6 && only_twos_fours && has_two {
        1500
    } else {
        0
    };
    assert(six == six_kind_points(d));
    assert(pairs == three_pairs_points(d));
    let mut res = max_score;
    if straight > res {
        res = straight;
    }
    let other = if six > pairs {
        six
    } else {
        pairs
    };
    if other > res {
        res = other;
    }
    cache.set(dice as usize, res);
    res
}

/// The six face characters, `'1'` first.
pub open spec fn faces() -> Seq<char> {
    seq!['1', '2', '3', '4', '5', '6']
}

/// `rs` lists every roll of `k` dice once, ordered by their sorted strings in
/// lexicographic order.
pub open spec fn lists_rolls(k: nat, rs: Seq<DiceSet>) -> bool {
    &&& forall|i: int| 0 <= i < rs.len() ==> is_roll(#[trigger] rs[i] as nat) && num_dice(rs[i] as nat) == k
    &&& forall|d: nat| is_roll(d) && #[trigger] num_dice(d) == k ==> rs.contains(d as DiceSet)
    &&& forall|i: int, j: int|
        0 <= i < j < rs.len() ==> lex_less(
            face_indices(sorted_string(#[trigger] rs[i] as nat)),
            face_indices(sorted_string(#[trigger] rs[j] as nat)),
        )
}

/// The faces that nondecreasing indices pick are sorted, pack to a roll of as
/// many dice, and are that roll's sorted string.
proof fn lemma_pick_faces(idx: Seq<int>, k: nat)
    requires
        is_combination_with_replacement(idx, 6, k as int),
        k <= 6,
    ensures
        is_sorted_faces(pick(faces(), idx)),
        face_indices(pick(faces(), idx)) == idx.map_values(|t: int| t + 1),
        is_roll(encode(pick(faces(), idx))),
        num_dice(encode(pick(faces(), idx))) == k,
        sorted_string(encode(pick(faces(), idx))) == pick(faces(), idx),
{
    let s = pick(faces(), idx);
    assert forall|i: int| 0 <= i < s.len() implies char_index(#[trigger] s[i]) == idx[i] + 1 by {
        assert(0 <= idx[i] < 6);
    }
    assert(is_sorted_faces(s)) by {
        assert forall|i: int, j: int| 0 <= i <= j < s.len() implies char_index(#[trigger] s[i])
            <= char_index(#[trigger] s[j]) by {
            assert(idx[i] <= idx[j]);
        }
    }
    assert(face_indices(s) =~= idx.map_values(|t: int| t + 1));
    lemma_encode_roll(s);
    assert(all_dice_chars(s));
    assert(digits_fit(s)) by {
        lemma_encode_roll(s);
    }
    lemma_sorted_string_of_encode(s);
    lemma_sorted_faces_of_sorted(s);
}

/// The sorted string of a roll of `k` dice is picked by `k` nondecreasing indices.
pub proof fn lemma_roll_is_pick(d: nat, k: nat)
    requires
        is_roll(d),
        num_dice(d) == k,
    ensures
        is_combination_with_replacement(
            face_indices(sorted_string(d)).map_values(|t: int| t - 1),
            6,
            k as int,
        ),
        pick(faces(), face_indices(sorted_string(d)).map_values(|t: int| t - 1)) == sorted_string(
            d,
        ),
{
    lemma_sorted_string_sorted(d);
    let s = sorted_string(d);
    let idx = face_indices(s).map_values(|t: int| t - 1);
    assert forall|i: int| 0 <= i < s.len() implies #[trigger] idx[i] == char_index(s[i]) - 1 by {}
    assert forall|i: int| 0 <= i < s.len() implies 0 <= #[trigger] idx[i] < 6 by {
        assert(is_face_char(s[i]));
    }
    assert forall|i: int, j: int| 0 <= i <= j < idx.len() implies #[trigger] idx[i] <= #[trigger] idx[j] by {
        assert(char_index(s[i]) <= char_index(s[j]));
    }
    assert forall|i: int| 0 <= i < s.len() implies #[trigger] pick(faces(), idx)[i] == s[i] by {
        assert(is_face_char(s[i]));
    }
    assert(pick(faces(), idx) =~= s);
}

/// Adding one to every index keeps lexicographic order.
proof fn lemma_lex_shift(a: Seq<int>, b: Seq<int>)
    requires
        lex_less(a, b),
    ensures
        lex_less(a.map_values(|t: int| t + 1), b.map_values(|t: int| t + 1)),
{
    let p = choose|p: int|
        0 <= p < a.len() && p < b.len() && a[p] < b[p] && (forall|q: int|
            0 <= q < p ==> #[trigger] a[q] == b[q]);
    let a1 = a.map_values(|t: int| t + 1);
    let b1 = b.map_values(|t: int| t + 1);
    assert(forall|q: int| 0 <= q < p ==> #[trigger] a1[q] == b1[q]) by {
        assert forall|q: int| 0 <= q < p implies #[trigger] a1[q] == b1[q] by {
            assert(a[q] == b[q]);
        }
    }
    assert(a1[p] < b1[p]);
}

/// Every roll of `dice_left` dice, once each, ordered by sorted string.
fn get_rolls_mut(dice_left: usize) -> (res: Vec<DiceSet>)
    requires
        dice_left <= 6,
    ensures
        lists_rolls(dice_left as nat, res@),
{
    if dice_left == 0 {
        let res = vec![empty()];
        proof {
            assert forall|d: nat| is_roll(d) && #[trigger] num_dice(d) == 0 implies res@.contains(
                d as DiceSet,
            ) by {
                lemma_sorted_string_sorted(d);
                lemma_sorted_string_roundtrip(d);
                assert(sorted_string(d) =~= Seq::<char>::empty());
                assert(encode(Seq::<char>::empty()) == 0);
                assert(res@[0] == d as DiceSet);
            }
            lemma_encode_roll(Seq::<char>::empty());
        }
        return res;
    }
    let chars = get_chars();
    let combs = combinations_with_replacement_of(chars, dice_left);
    let ghost valid = |idx: Seq<int>| is_combination_with_replacement(idx, 6, dice_left as int);
    let ghost ids = choose|ids: Seq<Seq<int>>|
        {
            &&& lex_enumeration(ids, valid)
            &&& rows_of(combs@).len() == ids.len()
            &&& forall|i: int|
                0 <= i < ids.len() ==> #[trigger] rows_of(combs@)[i] == pick(faces(), ids[i])
        };
    assert(chars@ == faces());
    let mut res: Vec<DiceSet> = Vec::new();
    let n = combs.len();
    for i in 0..n
        invariant
            n == combs@.len(),
            n == ids.len(),
            dice_left <= 6,
            lex_enumeration(ids, valid),
            forall|j: int| 0 <= j < ids.len() ==> #[trigger] rows_of(combs@)[j] == pick(faces(), ids[j]),
            valid == (|idx: Seq<int>| is_combination_with_replacement(idx, 6, dice_left as int)),
            res@.len() == i,
            forall|j: int| 0 <= j < i ==> #[trigger] res@[j] == encode(pick(faces(), ids[j])),
    {
        let comb: &Vec<char> = &combs[i];
        proof {
            assert(rows_of(combs@)[i as int] == comb@);
            assert(valid(ids[i as int]));
            lemma_pick_faces(ids[i as int], dice_left as nat);
        }
        let act_comb = join_chars(comb);
        let new_dice_set = from_string(act_comb.as_str());
        res.push(new_dice_set);
    }
    proof {
        let k = dice_left as nat;
        assert forall|i: int| 0 <= i < res@.len() implies is_roll(#[trigger] res@[i] as nat)
            && num_dice(res@[i] as nat) == k by {
            assert(valid(ids[i]));
            lemma_pick_faces(ids[i], k);
        }
        assert forall|d: nat| is_roll(d) && #[trigger] num_dice(d) == k implies res@.contains(
            d as DiceSet,
        ) by {
            lemma_roll_is_pick(d, k);
            let idx = face_indices(sorted_string(d)).map_values(|t: int| t - 1);
            assert(valid(idx));
            assert(ids.contains(idx));
            let j = choose|j: int| 0 <= j < ids.len() && ids[j] == idx;
            lemma_sorted_string_roundtrip(d);
            assert(res@[j] == d as DiceSet);
        }
        assert forall|i: int, j: int| 0 <= i < j < res@.len() implies lex_less(
            face_indices(sorted_string(#[trigger] res@[i] as nat)),
            face_indices(sorted_string(#[trigger] res@[j] as nat)),
        ) by {
            assert(valid(ids[i]) && valid(ids[j]));
            lemma_pick_faces(ids[i], k);
            lemma_pick_faces(ids[j], k);
            assert(lex_less(ids[i], ids[j]));
            lemma_lex_shift(ids[i], ids[j]);
        }
    }
    res
}

/// The first `j + 1` items of `s` hold `x` when the first `j` do or item `j` is `x`.
proof fn lemma_take_push_contains(s: Seq<DiceSet>, j: int, x: DiceSet)
    requires
        0 <= j < s.len(),
    ensures
        s.take(j + 1).contains(x) == (s.take(j).contains(x) || x == s[j]),
{
    if s.take(j + 1).contains(x) {
        let t = choose|t: int| 0 <= t < j + 1 && #[trigger] s.take(j + 1)[t] == x;
        if t < j {
            assert(s.take(j)[t] == x);
        }
    }
    if s.take(j).contains(x) {
        let t = choose|t: int| 0 <= t < j && #[trigger] s.take(j)[t] == x;
        assert(s.take(j + 1)[t] == x);
    }
    if x == s[j] {
        assert(s.take(j + 1)[j] == x);
    }
}

/// `a` and `b` are different sequences when one comes first.
pub proof fn lemma_lex_less_ne(a: Seq<int>, b: Seq<int>)
    requires
        lex_less(a, b),
    ensures
        a != b,
{
}

/// The tables of a Farkle game: the score of every roll, the holds worth
/// considering for every roll, the number of dice of every roll, and the
/// rolls of each number of dice. Each table is indexed by the packed dice set.
pub struct Precomputed {
    cache_calc_score: Vec<ScoreType>,
    cache_get_valid_rolls: Vec<Option<Vec<DiceSet>>>,
    cache_get_num_dice: Vec<usize>,
    cache_get_rolls: Vec<Vec<DiceSet>>,
    cache_get_ok_rolls: Vec<OkRolls>,
    cache_get_ok_rolls_grouped: Vec<OkRolls>,
}

/// `r` holds the rolls of `rs` (the rolls of `k` dice) that score, with their
/// ways, the ways to score nothing and the number of all ways.
pub open spec fn is_ok_rolls(k: nat, rs: Seq<DiceSet>, r: OkRolls) -> bool {
    &&& r.rolls@ == scoring_rolls(k, rs)
    &&& forall|i: int| 0 <= i < r.rolls@.len() ==> (#[trigger] r.rolls@[i]).1 > 0
    &&& r.zero_ways == farkle_ways(k).len()
    &&& r.total_ways == roll_sequences(k).len()
    &&& sum_ways(r.rolls@) + r.zero_ways == r.total_ways
}

/// `r` holds the scoring rolls of `rs` merged by their holds.
pub open spec fn is_merged_ok_rolls(k: nat, rs: Seq<DiceSet>, r: OkRolls) -> bool {
    &&& r.rolls@ == merge_by_holds(scoring_rolls(k, rs))
    &&& r.zero_ways == farkle_ways(k).len()
    &&& r.total_ways == roll_sequences(k).len()
    &&& sum_ways(r.rolls@) + r.zero_ways == r.total_ways
}

impl Precomputed {
    /// Every table holds what its name says: rolls have their score, holds and
    /// number of dice; other indices hold `ScoreType::MAX`, no holds and 0.
    #[verifier::type_invariant]
    spec fn tables_complete(self) -> bool {
        &&& self.cache_calc_score@.len() == MAX_VAL + 1
        &&& self.cache_get_valid_rolls@.len() == MAX_VAL + 1
        &&& self.cache_get_num_dice@.len() == MAX_VAL + 1
        &&& self.cache_get_rolls@.len() == 7
        &&& forall|d: nat|
            d <= MAX_VAL ==> #[trigger] self.cache_calc_score@[d as int] == if is_roll(d) {
                score(d)
            } else {
                ScoreType::MAX as int
            }
        &&& forall|d: nat| is_roll(d) ==> 0 <= #[trigger] score(d) <= 1000 * num_dice(d)
        &&& forall|d: nat|
            d <= MAX_VAL ==> match #[trigger] self.cache_get_valid_rolls@[d as int] {
                Some(v) => is_roll(d) && is_valid_holds(d, v@),
                None => !is_roll(d),
            }
        &&& forall|d: nat|
            d <= MAX_VAL ==> #[trigger] self.cache_get_num_dice@[d as int] == if is_roll(d) {
                num_dice(d)
            } else {
                0
            }
        &&& forall|k: int| 0 <= k <= 6 ==> lists_rolls(k as nat, #[trigger] self.cache_get_rolls@[k]@)
        &&& self.cache_get_ok_rolls@.len() == 7
        &&& self.cache_get_ok_rolls_grouped@.len() == 7
        &&& forall|k: int|
            0 <= k <= 6 ==> is_ok_rolls(k as nat, self.cache_get_rolls@[k]@, #[trigger] self.cache_get_ok_rolls@[k])
        &&& forall|k: int|
            0 <= k <= 6 ==> is_merged_ok_rolls(k as nat, self.cache_get_rolls@[k]@, #[trigger] self.cache_get_ok_rolls_grouped@[k])
    }

    /// The table of the rolls of `k` dice.
    pub closed spec fn rolls_table(self, k: nat) -> Seq<DiceSet> {
        self.cache_get_rolls@[k as int]@
    }

    /// The score of `roll`, between 0 and 1000 per die; `ScoreType::MAX` for a
    /// number that is no roll.
    pub fn calc_score(&self, roll: DiceSet) -> (r: ScoreType)
        requires
            roll <= MAX_VAL,
        ensures
            r == if is_roll(roll as nat) {
                score(roll as nat)
            } else {
                ScoreType::MAX as int
            },
            is_roll(roll as nat) ==> 0 <= r <= 1000 * num_dice(roll as nat),
    {
        proof {
            use_type_invariant(self);
        }
        self.cache_calc_score[roll as usize]
    }

    /// The holds of `roll` worth considering.
    pub fn get_valid_holds(&self, roll: DiceSet) -> (r: &Vec<DiceSet>)
        requires
            is_roll(roll as nat),
        ensures
            is_valid_holds(roll as nat, r@),
    {
        proof {
            use_type_invariant(self);
        }
        self.cache_get_valid_rolls[roll as usize].as_ref().unwrap()
    }

    /// Whether `d` is a roll of at most six dice.
    pub fn has_roll(&self, d: DiceSet) -> (r: bool)
        ensures
            r == (d <= MAX_VAL && is_roll(d as nat)),
    {
        proof {
            use_type_invariant(self);
        }
        d <= MAX_VAL && self.cache_get_valid_rolls[d as usize].is_some()
    }

    /// The number of dice of `dice`; 0 for a number that is no roll.
    pub fn get_num_dice(&self, dice: DiceSet) -> (r: usize)
        requires
            dice <= MAX_VAL,
        ensures
            r == if is_roll(dice as nat) {
                num_dice(dice as nat)
            } else {
                0
            },
    {
        proof {
            use_type_invariant(self);
        }
        self.cache_get_num_dice[dice as usize]
    }

    /// Every roll of `dice_left` dice.
    pub fn get_rolls(&self, dice_left: usize) -> (r: &Vec<DiceSet>)
        requires
            dice_left <= 6,
        ensures
            lists_rolls(dice_left as nat, r@),
            r@ == self.rolls_table(dice_left as nat),
    {
        proof {
            use_type_invariant(self);
        }
        &self.cache_get_rolls[dice_left]
    }

    /// The rolls of `dice_left` dice that score, each with the number of ways it
    /// can fall, with the number of ways to score nothing and of all ways (six
    /// to the power `dice_left`).
    pub fn get_ok_rolls(&self, dice_left: usize) -> (r: &OkRolls)
        requires
            dice_left <= 6,
        ensures
            lists_rolls(dice_left as nat, self.rolls_table(dice_left as nat)),
            is_ok_rolls(dice_left as nat, self.rolls_table(dice_left as nat), *r),
            r.total_ways == vstd::arithmetic::power::pow(6, dice_left as nat),
    {
        proof {
            use_type_invariant(self);
            lemma_roll_sequences_count(dice_left as nat);
        }
        &self.cache_get_ok_rolls[dice_left]
    }

    /// The scoring rolls of `dice_left` dice merged by the holds worth considering.
    pub fn get_ok_rolls_merged(&self, dice_left: usize) -> (r: &OkRolls)
        requires
            dice_left <= 6,
        ensures
            lists_rolls(dice_left as nat, self.rolls_table(dice_left as nat)),
            is_merged_ok_rolls(dice_left as nat, self.rolls_table(dice_left as nat), *r),
            r.total_ways == vstd::arithmetic::power::pow(6, dice_left as nat),
    {
        proof {
            use_type_invariant(self);
            lemma_roll_sequences_count(dice_left as nat);
        }
        &self.cache_get_ok_rolls_grouped[dice_left]
    }
}

/// A table of `MAX_VAL + 1` copies of `v`.
fn filled<T: Copy>(v: T) -> (r: Vec<T>)
    ensures
        r@.len() == MAX_VAL + 1,
        forall|i: int| 0 <= i < r@.len() ==> #[trigger] r@[i] == v,
{
    let mut r: Vec<T> = Vec::new();
    let mut i: u32 = 0;
    while i <= MAX_VAL
        invariant
            i <= MAX_VAL + 1,
            r@.len() == i,
            forall|j: int| 0 <= j < r@.len() ==> #[trigger] r@[j] == v,
        decreases MAX_VAL + 1 - i,
    {
        r.push(v);
        i = i + 1;
    }
    r
}

impl Default for Precomputed {
    /// Builds every table: first the rolls of each number of dice, then the
    /// score of each roll from the smallest rolls up, then the holds and the
    /// number of dice of each roll. The rolls table lists, for each number of
    /// dice up to six, every roll of that many dice once, in order; what the
    /// other tables hold the getters state for every argument.
    fn default() -> (p: Precomputed)
        ensures
            forall|k: nat| k <= 6 ==> lists_rolls(k, #[trigger] p.rolls_table(k)),
    {
        let mut cache_calc_score: Vec<ScoreType> = filled(ScoreType::MAX);
        let mut cache_get_num_dice: Vec<usize> = filled(0usize);
        let mut cache_get_valid_rolls: Vec<Option<Vec<DiceSet>>> = Vec::new();
        let mut i: u32 = 0;
        while i <= MAX_VAL
            invariant
                i <= MAX_VAL + 1,
                cache_get_valid_rolls@.len() == i,
                forall|j: int| 0 <= j < i ==> #[trigger] cache_get_valid_rolls@[j] is None,
            decreases MAX_VAL + 1 - i,
        {
            cache_get_valid_rolls.push(None);
            i = i + 1;
        }
        let mut cache_get_rolls: Vec<Vec<DiceSet>> = Vec::new();
        for k in 0..7
            invariant
                cache_get_rolls@.len() == k,
                forall|j: int| 0 <= j < k ==> lists_rolls(j as nat, #[trigger] cache_get_rolls@[j]@),
        {
            cache_get_rolls.push(get_rolls_mut(k));
        }
        // scores, smallest rolls first
        for k in 0..7
            invariant
                cache_get_rolls@.len() == 7,
                forall|j: int| 0 <= j < 7 ==> lists_rolls(j as nat, #[trigger] cache_get_rolls@[j]@),
                scores_known_below(cache_calc_score@, k as nat),
                forall|d: nat|
                    d <= MAX_VAL && !(is_roll(d) && num_dice(d) < k) ==> #[trigger] cache_calc_score@[d as int]
                        == ScoreType::MAX,
        {
            let rolls: &Vec<DiceSet> = &cache_get_rolls[k];
            let m = rolls.len();
            for j in 0..m
                invariant
                    m == rolls@.len(),
                    rolls@ == cache_get_rolls@[k as int]@,
                    lists_rolls(k as nat, rolls@),
                    k < 7,
                    scores_known_below(cache_calc_score@, k as nat),
                    forall|d: nat|
                        is_roll(d) && num_dice(d) == k && rolls@.take(j as int).contains(d as DiceSet) ==> #[trigger] cache_calc_score@[d as int]
                            == score(d) && 0 <= score(d) <= 1000 * num_dice(d),
                    forall|d: nat|
                        d <= MAX_VAL && !(is_roll(d) && num_dice(d) < k) && !(is_roll(d) && num_dice(d) == k && rolls@.take(j as int).contains(d as DiceSet)) ==> #[trigger] cache_calc_score@[d as int]
                            == ScoreType::MAX,
            {
                let dice = rolls[j];
                proof {
                    assert(is_roll(dice as nat) && num_dice(dice as nat) == k);
                    assert(!rolls@.take(j as int).contains(dice)) by {
                        if rolls@.take(j as int).contains(dice) {
                            let t = choose|t: int| 0 <= t < j && rolls@.take(j as int)[t] == dice;
                            assert(rolls@[t] == rolls@[j as int]);
                            lemma_lex_less_ne(
                                face_indices(sorted_string(rolls@[t] as nat)),
                                face_indices(sorted_string(rolls@[j as int] as nat)),
                            );
                        }
                    }
                    assert(cache_calc_score@[dice as int] == ScoreType::MAX);
                }
                let ghost before = cache_calc_score@;
                proof {
                    lemma_sub_scores_known(cache_calc_score@, dice as nat);
                }
                calc_score_mut(&mut cache_calc_score, dice);
                proof {
                    assert forall|d: nat|
                        is_roll(d) && num_dice(d) == k && rolls@.take(j + 1).contains(d as DiceSet) implies #[trigger] cache_calc_score@[d as int]
                            == score(d) && 0 <= score(d) <= 1000 * num_dice(d) by {
                        lemma_take_push_contains(rolls@, j as int, d as DiceSet);
                        if d != dice as nat {
                            assert(rolls@.take(j as int).contains(d as DiceSet));
                            assert(d < MAX_VAL);
                            assert(cache_calc_score@[d as int] == before[d as int]);
                            assert(before[d as int] == score(d) && 0 <= score(d) <= 1000 * num_dice(d));
                        } else {
                            assert(cache_calc_score@[dice as int] == score(dice as nat));
                        }
                    }
                    assert forall|d: nat|
                        d <= MAX_VAL && !(is_roll(d) && num_dice(d) < k) && !(is_roll(d) && num_dice(d) == k && rolls@.take(j + 1).contains(d as DiceSet)) implies #[trigger] cache_calc_score@[d as int]
                            == ScoreType::MAX by {
                        lemma_take_push_contains(rolls@, j as int, d as DiceSet);
                        if d != dice as nat {
                            assert(cache_calc_score@[d as int] == before[d as int]);
                        } else {
                            assert(rolls@.take(j + 1).contains(d as DiceSet));
                        }
                    }
                }
            }
            proof {
                assert(rolls@.take(m as int) =~= rolls@);
            }
        }
        // holds and numbers of dice
        for k in 0..7
            invariant
                cache_get_rolls@.len() == 7,
                forall|j: int| 0 <= j < 7 ==> lists_rolls(j as nat, #[trigger] cache_get_rolls@[j]@),
                scores_known_below(cache_calc_score@, 7),
                cache_get_valid_rolls@.len() == MAX_VAL + 1,
                cache_get_num_dice@.len() == MAX_VAL + 1,
                forall|d: nat|
                    d <= MAX_VAL ==> match #[trigger] cache_get_valid_rolls@[d as int] {
                        Some(v) => is_roll(d) && is_valid_holds(d, v@) && num_dice(d) < k,
                        None => !(is_roll(d) && num_dice(d) < k),
                    },
                forall|d: nat|
                    d <= MAX_VAL ==> #[trigger] cache_get_num_dice@[d as int] == if is_roll(d) && num_dice(d) < k {
                        num_dice(d)
                    } else {
                        0
                    },
        {
            let rolls: &Vec<DiceSet> = &cache_get_rolls[k];
            let m = rolls.len();
            for j in 0..m
                invariant
                    m == rolls@.len(),
                    rolls@ == cache_get_rolls@[k as int]@,
                    lists_rolls(k as nat, rolls@),
                    k < 7,
                    scores_known_below(cache_calc_score@, 7),
                    cache_get_valid_rolls@.len() == MAX_VAL + 1,
                    cache_get_num_dice@.len() == MAX_VAL + 1,
                    forall|d: nat|
                        d <= MAX_VAL ==> match #[trigger] cache_get_valid_rolls@[d as int] {
                            Some(v) => is_roll(d) && is_valid_holds(d, v@) && (num_dice(d) < k || (num_dice(d) == k && rolls@.take(j as int).contains(d as DiceSet))),
                            None => !(is_roll(d) && (num_dice(d) < k || (num_dice(d) == k && rolls@.take(j as int).contains(d as DiceSet)))),
                        },
                    forall|d: nat|
                        d <= MAX_VAL ==> #[trigger] cache_get_num_dice@[d as int] == if is_roll(d) && (num_dice(d) < k || (num_dice(d) == k && rolls@.take(j as int).contains(d as DiceSet))) {
                            num_dice(d)
                        } else {
                            0
                        },
            {
                let dice = rolls[j];
                proof {
                    assert(is_roll(dice as nat) && num_dice(dice as nat) == k);
                }
                proof {
                    lemma_part_scores_known(cache_calc_score@, dice as nat);
                }
                let vec = get_valid_holds_mut(&cache_calc_score, dice);
                cache_get_valid_rolls.set(dice as usize, Some(vec));
                let nd = to_sorted_string(dice).as_str().unicode_len();
                proof {
                    lemma_sorted_string_sorted(dice as nat);
                }
                cache_get_num_dice.set(dice as usize, nd);
                proof {
                    assert forall|d: nat| d <= MAX_VAL implies match #[trigger] cache_get_valid_rolls@[d as int] {
                            Some(v) => is_roll(d) && is_valid_holds(d, v@) && (num_dice(d) < k || (num_dice(d) == k && rolls@.take(j + 1).contains(d as DiceSet))),
                            None => !(is_roll(d) && (num_dice(d) < k || (num_dice(d) == k && rolls@.take(j + 1).contains(d as DiceSet)))),
                        } by {
                        lemma_take_push_contains(rolls@, j as int, d as DiceSet);
                        if d != dice as nat {
                            assert(rolls@.take(j + 1).contains(d as DiceSet) == rolls@.take(j as int).contains(d as DiceSet));
                        } else {
                            assert(rolls@.take(j + 1).contains(d as DiceSet));
                        }
                    }
                    assert forall|d: nat| d <= MAX_VAL implies #[trigger] cache_get_num_dice@[d as int] == if is_roll(d) && (num_dice(d) < k || (num_dice(d) == k && rolls@.take(j + 1).contains(d as DiceSet))) {
                            num_dice(d)
                        } else {
                            0
                        } by {
                        lemma_take_push_contains(rolls@, j as int, d as DiceSet);
                        if d != dice as nat {
                            assert(rolls@.take(j + 1).contains(d as DiceSet) == rolls@.take(j as int).contains(d as DiceSet));
                        } else {
                            assert(rolls@.take(j + 1).contains(d as DiceSet));
                        }
                    }
                }
            }
            proof {
                assert(rolls@.take(m as int) =~= rolls@);
            }
        }
        proof {
            assert forall|d: nat| is_roll(d) implies num_dice(d) < 7 by {}
            assert(holds_table(cache_get_valid_rolls@));
        }
        // the scoring rolls of each number of dice, alone and merged by holds
        let mut cache_get_ok_rolls: Vec<OkRolls> = Vec::new();
        let mut cache_get_ok_rolls_grouped: Vec<OkRolls> = Vec::new();
        for k in 0..7
            invariant
                cache_get_rolls@.len() == 7,
                forall|j: int| 0 <= j < 7 ==> lists_rolls(j as nat, #[trigger] cache_get_rolls@[j]@),
                scores_known_below(cache_calc_score@, 7),
                holds_table(cache_get_valid_rolls@),
                cache_get_ok_rolls@.len() == k,
                cache_get_ok_rolls_grouped@.len() == k,
                forall|j: int|
                    0 <= j < k ==> is_ok_rolls(j as nat, cache_get_rolls@[j]@, #[trigger] cache_get_ok_rolls@[j]),
                forall|j: int|
                    0 <= j < k ==> is_merged_ok_rolls(j as nat, cache_get_rolls@[j]@, #[trigger] cache_get_ok_rolls_grouped@[j]),
        {
            let ok = get_ok_rolls_mut(&cache_calc_score, &cache_get_rolls[k], k);
            proof {
                let rs = cache_get_rolls@[k as int]@;
                assert(lists_rolls(k as nat, rs));
                lemma_scoring_rolls_in(k as nat, rs);
                assert forall|i: int| 0 <= i < ok.rolls@.len() implies is_roll(#[trigger] ok.rolls@[i].0 as nat) by {
                    let x = ok.rolls@[i].0;
                    assert(rs.contains(x));
                    let u = choose|u: int| 0 <= u < rs.len() && rs[u] == x;
                    assert(is_roll(rs[u] as nat));
                }
            }
            let grouped = get_ok_rolls_grouped_mut(&cache_get_valid_rolls, &ok);
            cache_get_ok_rolls.push(ok);
            cache_get_ok_rolls_grouped.push(grouped);
        }
        let p = Precomputed {
            cache_calc_score,
            cache_get_valid_rolls,
            cache_get_num_dice,
            cache_get_rolls,
            cache_get_ok_rolls,
            cache_get_ok_rolls_grouped,
        };
        proof {
            use_type_invariant(&p);
            assert forall|k: nat| k <= 6 implies lists_rolls(k, #[trigger] p.rolls_table(k)) by {
                assert(lists_rolls(k, p.cache_get_rolls@[k as int]@));
            }
        }
        p
    }
}

} // verus!

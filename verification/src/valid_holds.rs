//! Which dice of a roll are worth holding: for each number of dice, the best
//! choice of that many rolled dice, kept only where it scores more than any
//! choice of fewer dice.
use vstd::prelude::*;
use crate::defs::ScoreType;
use crate::dice_set::{
    DiceSet, is_roll, num_dice, human_readable, encode, is_face_char, first_chars,
    to_human_readable, from_human_readable_str, lemma_encode_roll, lemma_human_readable_roundtrip,
    all_dice_chars, lemma_descending_len, count, index_char, occurrences, dice_counts,
    occurrence_counts, lemma_human_readable_occurrences,
};
use crate::iter_tools::{combinations_of, lists_picks, string_rows_of, pick, is_combination,
    lex_enumeration};
use crate::precompute::{score, larger, within, part_scores_known,
    lemma_score_nonneg,
    lemma_no_dice_no_score, lemma_more_dice_still_score};

verus! {

/// `m` is what holding `k` of the rolled dice of `roll` leaves in hand: the
/// dice at some choice of `k` positions of its human readable form.
pub open spec fn is_hold_of(roll: nat, k: nat, m: nat) -> bool {
    exists|idx: Seq<int>|
        #![trigger pick(human_readable(roll), idx)]
        is_combination(idx, human_readable(roll).len() as int, k as int) && m == encode(
            pick(human_readable(roll), idx),
        )
}

/// `m` is the best hold of `k` dice: no hold of `k` dice scores more, and none
/// that scores as much is a smaller dice set.
pub open spec fn is_best_hold(roll: nat, k: nat, m: nat) -> bool {
    &&& is_hold_of(roll, k, m)
    &&& forall|m2: nat|
        #[trigger] is_hold_of(roll, k, m2) ==> score(m2) < score(m) || (score(m2) == score(m) && m
            <= m2)
}

/// The best hold of `k` of the dice of `roll`.
pub open spec fn best_hold(roll: nat, k: nat) -> nat {
    choose|m: nat| is_best_hold(roll, k, m)
}

/// The score of the best hold of `k` dice.
pub open spec fn best_hold_score(roll: nat, k: nat) -> int {
    score(best_hold(roll, k))
}

/// The best score of a hold of fewer than `k` (but at least one) dice, 0 where there is none.
pub open spec fn best_below(roll: nat, k: nat) -> int
    decreases k,
{
    if k <= 1 {
        0
    } else {
        larger(best_below(roll, (k - 1) as nat), best_hold_score(roll, (k - 1) as nat))
    }
}

/// Holding `k` dice is worth considering: its best hold scores more than any hold of fewer dice.
pub open spec fn hold_kept(roll: nat, k: nat) -> bool {
    best_hold_score(roll, k) > best_below(roll, k)
}

/// The best holds of the sizes below `k` that are worth considering, smallest size first.
pub open spec fn kept_holds(roll: nat, k: nat) -> Seq<DiceSet>
    decreases k,
{
    if k <= 1 {
        Seq::empty()
    } else {
        let j = (k - 1) as nat;
        kept_holds(roll, j) + if hold_kept(roll, j) {
            seq![best_hold(roll, j) as DiceSet]
        } else {
            Seq::empty()
        }
    }
}

/// `hs` is in ascending order.
pub open spec fn ascending(hs: Seq<DiceSet>) -> bool {
    forall|i: int, j: int| 0 <= i < j < hs.len() ==> #[trigger] hs[i] <= #[trigger] hs[j]
}

/// `hs` are the holds of `roll` worth considering: if holding all the dice
/// beats every smaller hold, that alone; otherwise the best hold of each size
/// worth considering, in ascending order of dice set.
pub open spec fn is_valid_holds(roll: nat, hs: Seq<DiceSet>) -> bool {
    let n = num_dice(roll);
    &&& best_holds_exist(roll)
    &&& if n >= 1 && hold_kept(roll, n) {
        hs == seq![best_hold(roll, n) as DiceSet]
    } else {
        &&& ascending(hs)
        &&& hs.to_multiset() == kept_holds(roll, n).to_multiset()
    }
}

/// Every number of the rolled dice, from one to all, has a best hold.
pub open spec fn best_holds_exist(roll: nat) -> bool {
    forall|k: nat| 1 <= k <= num_dice(roll) ==> #[trigger] is_best_hold(roll, k, best_hold(roll, k))
}

/// The holds of `roll` worth considering.
pub open spec fn valid_holds_of(roll: nat) -> Seq<DiceSet> {
    choose|hs: Seq<DiceSet>| is_valid_holds(roll, hs)
}

/// There is one list of holds worth considering.
pub proof fn lemma_valid_holds_unique(roll: nat, a: Seq<DiceSet>, b: Seq<DiceSet>)
    requires
        is_valid_holds(roll, a),
        is_valid_holds(roll, b),
    ensures
        a == b,
{
    let n = num_dice(roll);
    if !(n >= 1 && hold_kept(roll, n)) {
        let leq = |x: DiceSet, y: DiceSet| x <= y;
        assert(vstd::relations::sorted_by(a, leq)) by {
            assert forall|i: int, j: int| 0 <= i < j < a.len() implies #[trigger] leq(a[i], a[j]) by {
                assert(a[i] <= a[j]);
            }
        }
        assert(vstd::relations::sorted_by(b, leq)) by {
            assert forall|i: int, j: int| 0 <= i < j < b.len() implies #[trigger] leq(b[i], b[j]) by {
                assert(b[i] <= b[j]);
            }
        }
        assert(vstd::relations::total_ordering(leq));
        vstd::seq_lib::lemma_sorted_unique(a, b, leq);
    }
}

/// Two best holds of the same size are the same.
pub proof fn lemma_best_hold_unique(roll: nat, k: nat, m: nat)
    requires
        is_best_hold(roll, k, m),
    ensures
        best_hold(roll, k) == m,
{
    let b = best_hold(roll, k);
    assert(is_best_hold(roll, k, b));
    assert(is_hold_of(roll, k, m) && is_hold_of(roll, k, b));
}

/// The human readable form of a roll is its dice, each a face character.
proof fn lemma_human_readable_faces(roll: nat)
    requires
        is_roll(roll),
    ensures
        human_readable(roll).len() == num_dice(roll),
        forall|i: int| 0 <= i < human_readable(roll).len() ==> is_face_char(#[trigger] human_readable(roll)[i]),
{
    lemma_descending_len(roll, 6);
    crate::dice_set::lemma_descending_faces(roll, 6);
}

/// The dice at a choice of positions of a roll make up a roll.
proof fn lemma_hold_is_roll(roll: nat, idx: Seq<int>, k: nat)
    requires
        is_roll(roll),
        is_combination(idx, human_readable(roll).len() as int, k as int),
    ensures
        is_roll(encode(pick(human_readable(roll), idx))),
        num_dice(encode(pick(human_readable(roll), idx))) == k,
        all_dice_chars(pick(human_readable(roll), idx)),
        k <= num_dice(roll),
{
    lemma_human_readable_faces(roll);
    let h = human_readable(roll);
    let s = pick(h, idx);
    assert forall|i: int| 0 <= i < s.len() implies is_face_char(#[trigger] s[i]) by {
        assert(0 <= idx[i] < h.len());
    }
    lemma_choice_len(idx, h.len() as int, k as int);
    lemma_encode_roll(s);
    assert(all_dice_chars(s)) by {
        assert forall|j: int| 0 <= j < s.len() implies crate::dice_set::is_dice_char(#[trigger] s[j]) by {
            assert(is_face_char(s[j]));
        }
    }
}

/// The dice at a choice of positions of a roll are part of the roll.
proof fn lemma_pick_within(roll: nat, idx: Seq<int>, k: nat)
    requires
        is_roll(roll),
        is_combination(idx, human_readable(roll).len() as int, k as int),
    ensures
        within(encode(pick(human_readable(roll), idx)), roll),
{
    lemma_hold_is_roll(roll, idx, k);
    let m = encode(pick(human_readable(roll), idx));
    assert(is_hold_of(roll, k, m));
    lemma_hold_within(roll, k, m);
}

/// A choice of `k` distinct positions below `n` has `k <= n`.
proof fn lemma_choice_len(idx: Seq<int>, n: int, k: int)
    requires
        is_combination(idx, n, k),
        n >= 0,
    ensures
        k <= n,
    decreases k,
{
    if k > 0 {
        let last = idx[k - 1];
        assert(0 <= last < n);
        assert forall|i: int| 0 <= i < k - 1 implies #[trigger] idx[i] < last by {}
        let t = idx.drop_last();
        assert(is_combination(t, last, k - 1)) by {
            assert forall|j: int| 0 <= j < t.len() implies 0 <= #[trigger] t[j] < last by {
                assert(t[j] == idx[j]);
            }
            assert forall|i: int, j: int| 0 <= i < j < t.len() implies #[trigger] t[i] < #[trigger] t[j] by {
                assert(t[i] == idx[i] && t[j] == idx[j]);
            }
        }
        lemma_choice_len(t, last, k - 1);
    }
}

/// The best hold of `k` of the dice of `roll`, read from the scores of the rolls made of its dice.
fn best_hold_of_size(scores: &Vec<ScoreType>, chars: &Vec<String>, roll: DiceSet, k: usize) -> (r: (
    DiceSet,
    ScoreType,
))
    requires
        part_scores_known(scores@, roll as nat),
        is_roll(roll as nat),
        1 <= k <= chars@.len(),
        chars@.len() == human_readable(roll as nat).len(),
        forall|j: int|
            0 <= j < chars@.len() ==> (#[trigger] chars@[j])@ == seq![human_readable(roll as nat)[j]],
    ensures
        is_best_hold(roll as nat, k as nat, r.0 as nat),
        r.1 == score(r.0 as nat),
        is_roll(r.0 as nat),
{
    let ghost h = human_readable(roll as nat);
    let ghost n = chars@.len() as int;
    let combs = combinations_of(chars, k);
    let ghost items = chars@.map_values(|s: String| s@);
    let ghost valid = |idx: Seq<int>| is_combination(idx, n, k as int);
    let ghost ids = choose|ids: Seq<Seq<int>>|
        {
            &&& lex_enumeration(ids, valid)
            &&& string_rows_of(combs@).len() == ids.len()
            &&& forall|i: int|
                0 <= i < ids.len() ==> #[trigger] string_rows_of(combs@)[i] == pick(items, ids[i])
        };
    proof {
        // the positions 0 .. k-1 are a choice, so there is at least one hold
        let first = Seq::new(k as nat, |j: int| j);
        assert(valid(first));
        assert(ids.contains(first));
    }
    let mut k_combinations: Vec<DiceSet> = Vec::new();
    let m = combs.len();
    for i in 0..m
        invariant
            m == combs@.len(),
            m == ids.len(),
            n == h.len(),
            h == human_readable(roll as nat),
            is_roll(roll as nat),
            items == chars@.map_values(|s: String| s@),
            chars@.len() == h.len(),
            forall|j: int| 0 <= j < chars@.len() ==> (#[trigger] chars@[j])@ == seq![h[j]],
            lex_enumeration(ids, valid),
            valid == (|idx: Seq<int>| is_combination(idx, n, k as int)),
            forall|j: int|
                0 <= j < ids.len() ==> #[trigger] string_rows_of(combs@)[j] == pick(items, ids[j]),
            k_combinations@.len() == i,
            forall|j: int|
                0 <= j < i ==> #[trigger] k_combinations@[j] == encode(pick(h, ids[j])),
    {
        let comb: &Vec<String> = &combs[i];
        let mut refs: Vec<&String> = Vec::new();
        let ghost row = pick(items, ids[i as int]);
        proof {
            assert(string_rows_of(combs@)[i as int] == comb@.map_values(|s: String| s@));
            assert(valid(ids[i as int]));
        }
        for t in 0..comb.len()
            invariant
                refs@.len() == t,
                forall|u: int| 0 <= u < t ==> #[trigger] refs@[u] == &comb@[u],
        {
            refs.push(&comb[t]);
        }
        proof {
            let id = ids[i as int];
            lemma_hold_is_roll(roll as nat, id, k as nat);
            assert forall|u: int| 0 <= u < refs@.len() implies (#[trigger] refs@[u])@ == seq![
                h[id[u]],
            ] by {
                assert(comb@.map_values(|s: String| s@)[u] == row[u]);
                assert(row[u] == items[id[u]]);
                assert(0 <= id[u] < n);
                assert(chars@[id[u]]@ == seq![h[id[u]]]);
            }
            assert(first_chars(refs@) =~= pick(h, id));
        }
        let dice = from_human_readable_str(&refs);
        k_combinations.push(dice);
    }
    proof {
        assert(m >= 1);
        assert(valid(ids[0]));
        lemma_hold_is_roll(roll as nat, ids[0], k as nat);
        lemma_pick_within(roll as nat, ids[0], k as nat);
    }
    let mut best = k_combinations[0];
    proof {
        assert(k_combinations@[0] == encode(pick(h, ids[0])));
        assert(within(best as nat, roll as nat));
    }
    let mut best_score = scores[best as usize];
    let mut j: usize = 1;
    while j < m
        invariant
            1 <= j <= m,
            m == k_combinations@.len(),
            m == ids.len(),
            part_scores_known(scores@, roll as nat),
            is_roll(roll as nat),
            h == human_readable(roll as nat),
            n == h.len(),
            lex_enumeration(ids, valid),
            valid == (|idx: Seq<int>| is_combination(idx, n, k as int)),
            forall|t: int| 0 <= t < m ==> #[trigger] k_combinations@[t] == encode(pick(h, ids[t])),
            exists|t: int| 0 <= t < j && k_combinations@[t] == best,
            is_roll(best as nat),
            best_score == score(best as nat),
            forall|t: int|
                0 <= t < j ==> score(#[trigger] k_combinations@[t] as nat) < best_score || (score(
                    k_combinations@[t] as nat,
                ) == best_score && best <= k_combinations@[t]),
        decreases m - j,
    {
        let d = k_combinations[j];
        proof {
            assert(valid(ids[j as int]));
            lemma_hold_is_roll(roll as nat, ids[j as int], k as nat);
            lemma_pick_within(roll as nat, ids[j as int], k as nat);
        }
        let sc = scores[d as usize];
        if sc > best_score || (sc == best_score && d < best) {
            best = d;
            best_score = sc;
        }
        j = j + 1;
    }
    proof {
        let t = choose|t: int| 0 <= t < j && k_combinations@[t] == best;
        assert(valid(ids[t]));
        assert(is_hold_of(roll as nat, k as nat, best as nat));
        assert forall|m2: nat| #[trigger] is_hold_of(roll as nat, k as nat, m2) implies score(m2)
            < score(best as nat) || (score(m2) == score(best as nat) && best <= m2) by {
            let idx = choose|idx: Seq<int>|
                #![trigger pick(human_readable(roll as nat), idx)]
                is_combination(idx, human_readable(roll as nat).len() as int, k as int) && m2
                    == encode(pick(human_readable(roll as nat), idx));
            assert(valid(idx));
            assert(ids.contains(idx));
            let u = choose|u: int| 0 <= u < ids.len() && ids[u] == idx;
            assert(k_combinations@[u] == m2);
        }
    }
    (best, best_score)
}

/// Inserts each dice set into place, giving them in ascending order.
fn sort_dice(v: Vec<DiceSet>) -> (r: Vec<DiceSet>)
    ensures
        ascending(r@),
        r@.to_multiset() == v@.to_multiset(),
{
    broadcast use vstd::seq_lib::group_to_multiset_ensures;

    let mut out: Vec<DiceSet> = Vec::new();
    let n = v.len();
    for i in 0..n
        invariant
            n == v@.len(),
            ascending(out@),
            out@.to_multiset() == v@.take(i as int).to_multiset(),
    {
        let x = v[i];
        let mut pos: usize = 0;
        while pos < out.len() && out[pos] <= x
            invariant
                pos <= out@.len(),
                forall|t: int| 0 <= t < pos ==> out@[t] <= x,
            decreases out@.len() - pos,
        {
            pos = pos + 1;
        }
        let ghost before = out@;
        assert(pos == before.len() || x < before[pos as int]);
        out.insert(pos, x);
        proof {
            assert forall|a: int, b: int| 0 <= a < b < out@.len() implies #[trigger] out@[a]
                <= #[trigger] out@[b] by {
                if b < pos {
                    assert(out@[a] == before[a] && out@[b] == before[b]);
                } else if b == pos {
                    assert(out@[a] == before[a]);
                } else if a < pos {
                    assert(out@[a] == before[a] && out@[b] == before[b - 1]);
                } else if a == pos {
                    assert(out@[b] == before[b - 1]);
                    if b - 1 > pos {
                        assert(before[pos as int] <= before[b - 1]);
                    }
                } else {
                    assert(out@[a] == before[a - 1] && out@[b] == before[b - 1]);
                }
            }
            vstd::seq_lib::to_multiset_insert(before, pos as int, x);
            assert(v@.take(i + 1) =~= v@.take(i as int).push(x));
            vstd::seq_lib::to_multiset_build(v@.take(i as int), x);
        }
    }
    proof {
        assert(v@.take(n as int) =~= v@);
    }
    out
}

/// The holds of `roll` worth considering, read from the scores of the rolls
/// made of part or all of its dice.
pub fn get_valid_holds_mut(scores: &Vec<ScoreType>, roll: DiceSet) -> (res: Vec<DiceSet>)
    requires
        part_scores_known(scores@, roll as nat),
        is_roll(roll as nat),
    ensures
        is_valid_holds(roll as nat, res@),
{
    let ghost r = roll as nat;
    let mut res: Vec<DiceSet> = Vec::new();
    let chars = to_human_readable(roll);
    proof {
        lemma_human_readable_faces(r);
    }
    let n = chars.len();
    let mut max_lt_k_score: ScoreType = 0;
    let mut k: usize = 1;
    while k <= n
        invariant
            1 <= k <= n + 1,
            n == num_dice(r),
            n <= 6,
            n == human_readable(r).len(),
            chars@.len() == n,
            forall|j: int| 0 <= j < chars@.len() ==> (#[trigger] chars@[j])@ == seq![human_readable(r)[j]],
            part_scores_known(scores@, r),
            is_roll(r),
            r == roll,
            max_lt_k_score == best_below(r, k as nat),
            res@ == kept_holds(r, k as nat),
            k == n + 1 ==> n == 0 || !hold_kept(r, n as nat),
            forall|j: nat| 1 <= j < k ==> #[trigger] is_best_hold(r, j, best_hold(r, j)),
        decreases n + 1 - k,
    {
        let (dice, max_k_score) = best_hold_of_size(scores, &chars, roll, k);
        proof {
            lemma_best_hold_unique(r, k as nat, dice as nat);
            assert(is_best_hold(r, k as nat, best_hold(r, k as nat)));
            assert(best_below(r, (k + 1) as nat) == larger(best_below(r, k as nat), max_k_score as int));
            assert(kept_holds(r, (k + 1) as nat) == kept_holds(r, k as nat) + if hold_kept(r, k as nat) {
                seq![best_hold(r, k as nat) as DiceSet]
            } else {
                Seq::empty()
            });
            lemma_best_below_nonneg(r, k as nat);
        }
        if max_k_score == 0 || max_k_score <= max_lt_k_score {
            proof {
                assert(!hold_kept(r, k as nat));
                assert(kept_holds(r, (k + 1) as nat) =~= kept_holds(r, k as nat));
            }
            k = k + 1;
            continue;
        }
        proof {
            assert(hold_kept(r, k as nat));
        }
        max_lt_k_score = if max_lt_k_score > max_k_score {
            max_lt_k_score
        } else {
            max_k_score
        };
        if k == n {
            let v = vec![dice];
            assert(v@ =~= seq![best_hold(r, n as nat) as DiceSet]);
            return v;
        }
        res.push(dice);
        k = k + 1;
    }
    proof {
        if n >= 1 {
            assert(kept_holds(r, (n + 1) as nat) =~= kept_holds(r, n as nat));
        }
    }
    sort_dice(res)
}

/// Each hold worth considering is a best hold of some number of the rolled
/// dice, holds no face more often than the roll, and scores.
pub proof fn lemma_valid_hold_facts(roll: nat, hs: Seq<DiceSet>, i: int)
    requires
        is_roll(roll),
        is_valid_holds(roll, hs),
        0 <= i < hs.len(),
    ensures
        is_roll(hs[i] as nat),
        1 <= num_dice(hs[i] as nat) <= num_dice(roll),
        score(hs[i] as nat) > 0,
        is_hold_of(roll, num_dice(hs[i] as nat), hs[i] as nat),
        forall|g: int| 1 <= g <= 6 ==> #[trigger] count(hs[i] as nat, g) <= count(roll, g),
{
    let n = num_dice(roll);
    let k: nat = if n >= 1 && hold_kept(roll, n) {
        n
    } else {
        lemma_kept_holds_facts(roll, n);
        assert(hs.to_multiset().count(hs[i]) > 0) by {
            broadcast use vstd::seq_lib::group_to_multiset_ensures;
        }
        assert(kept_holds(roll, n).to_multiset().count(hs[i]) > 0);
        assert(kept_holds(roll, n).contains(hs[i])) by {
            broadcast use vstd::seq_lib::group_to_multiset_ensures;
        }
        let t = choose|t: int| 0 <= t < kept_holds(roll, n).len() && kept_holds(roll, n)[t] == hs[i];
        assert(kept_holds(roll, n)[t] == hs[i]);
        kept_sizes(roll, n)[t]
    };
    assert(1 <= k <= n && hold_kept(roll, k) && hs[i] == best_hold(roll, k) as DiceSet);
    assert(is_best_hold(roll, k, best_hold(roll, k)));
    lemma_best_below_nonneg(roll, k);
    let m = best_hold(roll, k);
    let idx = choose|idx: Seq<int>|
        #![trigger pick(human_readable(roll), idx)]
        is_combination(idx, human_readable(roll).len() as int, k as int) && m == encode(
            pick(human_readable(roll), idx),
        );
    lemma_hold_is_roll(roll, idx, k);
    lemma_hold_within(roll, k, m);
}

/// The sizes below `k` worth considering, smallest first.
pub open spec fn kept_sizes(roll: nat, k: nat) -> Seq<nat>
    decreases k,
{
    if k <= 1 {
        Seq::empty()
    } else {
        let j = (k - 1) as nat;
        kept_sizes(roll, j) + if hold_kept(roll, j) {
            seq![j]
        } else {
            Seq::empty()
        }
    }
}

/// Each entry of the kept holds below `k` is the best hold of a kept size below `k`.
proof fn lemma_kept_holds_facts(roll: nat, k: nat)
    ensures
        kept_holds(roll, k).len() == kept_sizes(roll, k).len(),
        forall|t: int|
            0 <= t < kept_holds(roll, k).len() ==> 1 <= #[trigger] kept_sizes(roll, k)[t] < k
                && hold_kept(roll, kept_sizes(roll, k)[t]) && kept_holds(roll, k)[t] == best_hold(
                roll,
                kept_sizes(roll, k)[t],
            ) as DiceSet,
    decreases k,
{
    if k > 1 {
        let j0 = (k - 1) as nat;
        lemma_kept_holds_facts(roll, j0);
    }
}

/// The best score of a smaller hold is never negative.
proof fn lemma_best_below_nonneg(roll: nat, k: nat)
    ensures
        best_below(roll, k) >= 0,
    decreases k,
{
    if k > 1 {
        lemma_best_below_nonneg(roll, (k - 1) as nat);
    }
}


/// Picking positions of a sequence in increasing order picks each character
/// no more often than it occurs.
proof fn lemma_pick_occurrences(s: Seq<char>, idx: Seq<int>, c: char)
    requires
        is_combination(idx, s.len() as int, idx.len() as int),
    ensures
        occurrences(pick(s, idx), c) <= occurrences(s, c),
    decreases s.len(),
{
    if s.len() > 0 {
        let t = s.drop_last();
        let last = s.len() - 1;
        if idx.len() > 0 && idx.last() == last {
            let jdx = idx.drop_last();
            assert(is_combination(jdx, t.len() as int, jdx.len() as int)) by {
                assert forall|j: int| 0 <= j < jdx.len() implies 0 <= #[trigger] jdx[j] < t.len() by {
                    assert(idx[j] < idx[idx.len() - 1]);
                }
                assert forall|a: int, b: int| 0 <= a < b < jdx.len() implies #[trigger] jdx[a] < #[trigger] jdx[b] by {
                    assert(idx[a] < idx[b]);
                }
            }
            lemma_pick_occurrences(t, jdx, c);
            assert(pick(t, jdx) =~= pick(s, idx).drop_last()) by {
                assert forall|j: int| 0 <= j < jdx.len() implies #[trigger] pick(t, jdx)[j] == pick(s, idx)[j] by {
                    assert(idx[j] < idx[idx.len() - 1]);
                }
            }
        } else {
            assert(is_combination(idx, t.len() as int, idx.len() as int)) by {
                assert forall|j: int| 0 <= j < idx.len() implies 0 <= #[trigger] idx[j] < t.len() by {
                    if idx[j] == last {
                        assert(j < idx.len() - 1);
                        assert(idx[j] < idx[idx.len() - 1]);
                    }
                }
            }
            lemma_pick_occurrences(t, idx, c);
            assert(pick(t, idx) =~= pick(s, idx));
        }
    }
}

/// A hold of `k` of the dice of a roll holds each face no more often than the roll.
proof fn lemma_hold_within(roll: nat, k: nat, m: nat)
    requires
        is_roll(roll),
        is_hold_of(roll, k, m),
    ensures
        forall|g: int| 1 <= g <= 6 ==> #[trigger] count(m, g) <= count(roll, g),
{
    let h = human_readable(roll);
    let idx = choose|idx: Seq<int>|
        #![trigger pick(human_readable(roll), idx)]
        is_combination(idx, h.len() as int, k as int) && m == encode(pick(h, idx));
    lemma_hold_is_roll(roll, idx, k);
    lemma_human_readable_faces(roll);
    let s = pick(h, idx);
    assert forall|i: int| 0 <= i < s.len() implies is_face_char(#[trigger] s[i]) by {
        assert(0 <= idx[i] < h.len());
    }
    lemma_encode_roll(s);
    assert forall|g: int| 1 <= g <= 6 implies #[trigger] count(m, g) <= count(roll, g) by {
        lemma_pick_occurrences(h, idx, index_char(g));
        lemma_human_readable_occurrences(roll, g);
        assert(dice_counts(m)[g - 1] == occurrence_counts(s)[g - 1]);
    }
}

/// A roll is a hold of all of its own dice.
proof fn lemma_roll_holds_itself(roll: nat)
    requires
        is_roll(roll),
    ensures
        is_hold_of(roll, num_dice(roll), roll),
{
    lemma_human_readable_faces(roll);
    let h = human_readable(roll);
    let idx = Seq::new(h.len(), |j: int| j);
    assert(is_combination(idx, h.len() as int, num_dice(roll) as int));
    assert(pick(h, idx) =~= h);
    lemma_human_readable_roundtrip(roll);
    assert(roll == encode(pick(human_readable(roll), idx)));
}

/// Where some hold of fewer than `k` dice scores, a size below `k` is worth considering.
proof fn lemma_kept_below(roll: nat, k: nat)
    requires
        best_below(roll, k) > 0,
    ensures
        kept_holds(roll, k).len() > 0,
    decreases k,
{
    let j = (k - 1) as nat;
    if best_below(roll, j) > 0 {
        lemma_kept_below(roll, j);
    } else {
        lemma_best_below_nonneg(roll, j);
        assert(hold_kept(roll, j));
    }
}

/// A roll leaves no hold worth considering exactly when it scores nothing.
pub proof fn lemma_no_holds_iff_no_score(roll: nat, hs: Seq<DiceSet>)
    requires
        is_roll(roll),
        is_valid_holds(roll, hs),
    ensures
        hs.len() == 0 <==> score(roll) == 0,
{
    let n = num_dice(roll);
    if hs.len() > 0 {
        lemma_valid_hold_facts(roll, hs, 0);
        let m = hs[0] as nat;
        lemma_hold_within(roll, num_dice(m), m);
        lemma_more_dice_still_score(m, roll);
    } else {
        lemma_score_nonneg(roll);
        if score(roll) > 0 {
            if n == 0 {
                lemma_no_dice_no_score(roll);
            } else {
                lemma_roll_holds_itself(roll);
                assert(is_best_hold(roll, n, best_hold(roll, n)));
                assert(best_hold_score(roll, n) >= score(roll));
                if !hold_kept(roll, n) {
                    lemma_kept_below(roll, n);
                    broadcast use vstd::seq_lib::to_multiset_len;
                    assert(hs.to_multiset().len() == kept_holds(roll, n).to_multiset().len());
                }
            }
        }
    }
}

} // verus!

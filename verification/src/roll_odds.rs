//! How often each roll comes up: the ways `k` dice can fall, counted per roll,
//! and the rolls that score, each with its number of ways.
use vstd::prelude::*;
use std::collections::HashMap;
use crate::dice_set::{DiceSet, encode, is_roll, num_dice, get_chars, from_string, lemma_encode_roll};
use crate::iter_tools::{all_sequences_of, join_chars, lists_picks, rows_of, pick, indices_below,
    lex_enumeration, lex_less};
use crate::precompute::{faces, lemma_lex_less_ne, lists_rolls, score, size_scores_known, lemma_roll_is_pick};
use crate::dice_set::{sorted_string, lemma_sorted_string_roundtrip, face_indices};
use crate::defs::ScoreType;
use crate::valid_holds::{is_valid_holds, valid_holds_of, lemma_valid_holds_unique};

verus! {

/// The ways `k` dice can fall: each die's face, as an index into the six faces.
pub open spec fn roll_sequences(k: nat) -> Set<Seq<int>> {
    Set::new(|idx: Seq<int>| indices_below(idx, 6, k as int))
}

/// The dice set that a way of falling gives.
pub open spec fn dice_of(idx: Seq<int>) -> nat {
    encode(pick(faces(), idx))
}

/// The ways among `s` that give the dice set `d`.
pub open spec fn ways_among(s: Set<Seq<int>>, d: nat) -> Set<Seq<int>> {
    s.filter(|idx: Seq<int>| dice_of(idx) == d)
}

/// The ways `k` dice can fall that give the dice set `d`.
pub open spec fn ways_of(k: nat, d: nat) -> Set<Seq<int>> {
    ways_among(roll_sequences(k), d)
}

/// The number of ways `k` dice can fall that give the dice set `d`.
pub open spec fn roll_ways(k: nat, d: nat) -> nat {
    ways_of(k, d).len()
}

/// The ways `k + 1` dice can fall with the last die on a face index below `m`.
spec fn ways_last_below(k: nat, m: int) -> Set<Seq<int>> {
    roll_sequences(k + 1).filter(|idx: Seq<int>| idx.last() < m)
}

/// The ways `k + 1` dice can fall with the last die on face index `m` are as
/// many as the ways of `k` dice.
proof fn lemma_last_is(k: nat, m: int)
    requires
        0 <= m < 6,
        roll_sequences(k).finite(),
    ensures
        roll_sequences(k).map(|s: Seq<int>| s.push(m)).finite(),
        roll_sequences(k).map(|s: Seq<int>| s.push(m)).len() == roll_sequences(k).len(),
        roll_sequences(k).map(|s: Seq<int>| s.push(m)) =~= roll_sequences(k + 1).filter(
            |idx: Seq<int>| idx.last() == m,
        ),
{
    let f = |s: Seq<int>| s.push(m);
    let x = roll_sequences(k);
    assert(vstd::relations::injective_on(f, x)) by {
        assert forall|a: Seq<int>, b: Seq<int>| x.contains(a) && x.contains(b) && #[trigger] f(a)
            == #[trigger] f(b) implies a == b by {
            assert(a =~= f(a).drop_last());
            assert(b =~= f(b).drop_last());
        }
    }
    vstd::set_lib::lemma_map_size(x, x.map(f), f);
    let y = roll_sequences(k + 1).filter(|idx: Seq<int>| idx.last() == m);
    assert forall|t: Seq<int>| x.map(f).contains(t) <==> y.contains(t) by {
        if x.map(f).contains(t) {
            let s = choose|s: Seq<int>| x.contains(s) && f(s) == t;
            assert(indices_below(t, 6, (k + 1) as int)) by {
                assert forall|j: int| 0 <= j < t.len() implies 0 <= #[trigger] t[j] < 6 by {
                    if j < s.len() {
                        assert(t[j] == s[j]);
                    }
                }
            }
        }
        if y.contains(t) {
            let s = t.drop_last();
            assert(indices_below(s, 6, k as int)) by {
                assert forall|j: int| 0 <= j < s.len() implies 0 <= #[trigger] s[j] < 6 by {
                    assert(s[j] == t[j]);
                }
            }
            assert(f(s) =~= t);
            assert(x.contains(s));
        }
    }
}

/// The ways `k + 1` dice can fall with the last die below face index `m` are
/// `m` times the ways of `k` dice.
proof fn lemma_ways_last_below(k: nat, m: int)
    requires
        0 <= m <= 6,
        roll_sequences(k).finite(),
    ensures
        ways_last_below(k, m).finite(),
        ways_last_below(k, m).len() == m * roll_sequences(k).len(),
    decreases m,
{
    if m == 0 {
        assert(ways_last_below(k, 0) =~= Set::<Seq<int>>::empty());
    } else {
        lemma_ways_last_below(k, m - 1);
        lemma_last_is(k, m - 1);
        let a = ways_last_below(k, m - 1);
        let b = roll_sequences(k).map(|s: Seq<int>| s.push(m - 1));
        assert(a.disjoint(b));
        assert(ways_last_below(k, m) =~= a + b);
        vstd::set_lib::lemma_set_disjoint_lens(a, b);
        assert(m * roll_sequences(k).len() == (m - 1) * roll_sequences(k).len() + roll_sequences(
            k,
        ).len()) by (nonlinear_arith);
    }
}

/// `k` dice can fall in 6 to the power `k` ways.
pub proof fn lemma_roll_sequences_count(k: nat)
    ensures
        roll_sequences(k).finite(),
        roll_sequences(k).len() == vstd::arithmetic::power::pow(6, k),
    decreases k,
{
    reveal(vstd::arithmetic::power::pow);
    if k == 0 {
        broadcast use vstd::set::group_set_axioms;
        assert forall|t: Seq<int>| roll_sequences(0).contains(t) <==> t == Seq::<int>::empty() by {
            if roll_sequences(0).contains(t) {
                assert(t =~= Seq::<int>::empty());
            }
        }
        assert(roll_sequences(0) =~= Set::<Seq<int>>::empty().insert(Seq::<int>::empty()));
    } else {
        let j = (k - 1) as nat;
        lemma_roll_sequences_count(j);
        lemma_ways_last_below(j, 6);
        assert(ways_last_below(j, 6) =~= roll_sequences(k));
    }
}

/// A way of falling gives a roll of as many dice.
pub proof fn lemma_dice_of_roll(idx: Seq<int>, k: nat)
    requires
        indices_below(idx, 6, k as int),
        k <= 6,
    ensures
        is_roll(dice_of(idx)),
        num_dice(dice_of(idx)) == k,
{
    let s = pick(faces(), idx);
    assert forall|i: int| 0 <= i < s.len() implies crate::dice_set::is_face_char(#[trigger] s[i]) by {
        assert(0 <= idx[i] < 6);
    }
    lemma_encode_roll(s);
}

/// The ways of falling listed without repeats make up the whole set of ways.
proof fn lemma_enumerated_set(ids: Seq<Seq<int>>, k: nat)
    requires
        lex_enumeration(ids, |idx: Seq<int>| indices_below(idx, 6, k as int)),
    ensures
        ids.to_set() == roll_sequences(k),
        ids.no_duplicates(),
        roll_sequences(k).finite(),
        roll_sequences(k).len() == ids.len(),
{
    let valid = |idx: Seq<int>| indices_below(idx, 6, k as int);
    assert forall|x: Seq<int>| ids.to_set().contains(x) <==> roll_sequences(k).contains(x) by {
        if ids.to_set().contains(x) {
            let i = choose|i: int| 0 <= i < ids.len() && #[trigger] ids[i] == x;
            assert(valid(ids[i]));
        }
        if roll_sequences(k).contains(x) {
            assert(valid(x));
        }
    }
    assert(ids.to_set() =~= roll_sequences(k));
    assert forall|i: int, j: int| 0 <= i < ids.len() && 0 <= j < ids.len() && i != j implies ids[i]
        != ids[j] by {
        if i < j {
            lemma_lex_less_ne(ids[i], ids[j]);
        } else {
            lemma_lex_less_ne(ids[j], ids[i]);
        }
    }
    assert(ids.no_duplicates());
    ids.unique_seq_to_set();
    vstd::seq_lib::seq_to_set_is_finite(ids);
}

/// How many ways each roll of `dice_left` dice can fall, counted over every way
/// the dice can fall; the rolls that cannot come up are left out.
pub fn get_roll_distribution(dice_left: usize) -> (roll_freq: HashMap<DiceSet, usize>)
    requires
        dice_left <= 6,
    ensures
        forall|d: DiceSet| #[trigger] roll_freq@.contains_key(d) <==> roll_ways(dice_left as nat, d as nat) > 0,
        forall|d: DiceSet| #[trigger] roll_freq@.contains_key(d) ==> roll_freq@[d] == roll_ways(dice_left as nat, d as nat),
        roll_sequences(dice_left as nat).finite(),
        roll_sequences(dice_left as nat).len() <= usize::MAX,
{
    broadcast use vstd::std_specs::hash::group_hash_axioms;
    broadcast use vstd::set::group_set_axioms;

    let ghost k = dice_left as nat;
    let mut roll_freq: HashMap<DiceSet, usize> = HashMap::new();
    let chars = get_chars();
    let seqs = all_sequences_of(chars, dice_left);
    let ghost valid = |idx: Seq<int>| indices_below(idx, 6, dice_left as int);
    assert(chars@ == faces());
    let ghost ids = choose|ids: Seq<Seq<int>>|
        {
            &&& lex_enumeration(ids, valid)
            &&& rows_of(seqs@).len() == ids.len()
            &&& forall|i: int| 0 <= i < ids.len() ==> #[trigger] rows_of(seqs@)[i] == pick(faces(), ids[i])
        };
    proof {
        lemma_enumerated_set(ids, k);
    }
    let ghost mut seen: Set<Seq<int>> = Set::empty();
    proof {
        assert(ids.take(0).to_set() =~= seen);
        assert(seen.len() == 0);
        assert forall|d: DiceSet| #[trigger] ways_among(seen, d as nat).len() == 0 by {
            assert(ways_among(seen, d as nat) =~= Set::<Seq<int>>::empty());
        }
    }
    let n = seqs.len();
    for i in 0..n
        invariant
            n == seqs@.len(),
            n == ids.len(),
            k == dice_left,
            k <= 6,
            lex_enumeration(ids, valid),
            valid == (|idx: Seq<int>| indices_below(idx, 6, dice_left as int)),
            ids.no_duplicates(),
            forall|j: int| 0 <= j < ids.len() ==> #[trigger] rows_of(seqs@)[j] == pick(faces(), ids[j]),
            seen == ids.take(i as int).to_set(),
            seen.finite(),
            seen.len() == i,
            forall|d: DiceSet|
                #[trigger] roll_freq@.contains_key(d) ==> roll_freq@[d] >= 1,
            forall|d: DiceSet|
                (if #[trigger] roll_freq@.contains_key(d) {
                    roll_freq@[d] as nat
                } else {
                    0nat
                }) == ways_among(seen, d as nat).len(),
    {
        let comb: &Vec<char> = &seqs[i];
        proof {
            assert(rows_of(seqs@)[i as int] == comb@);
            assert(valid(ids[i as int]));
            lemma_dice_of_roll(ids[i as int], k);
        }
        let act_comb = join_chars(comb);
        let new_dice_set = from_string(act_comb.as_str());
        let ghost x = ids[i as int];
        let ghost before = seen;
        let ghost old_freq = roll_freq@;
        let current: usize = match roll_freq.get(&new_dice_set) {
            Some(c) => *c,
            None => 0,
        };
        proof {
            assert(!before.contains(x)) by {
                if before.contains(x) {
                    let t = choose|t: int| 0 <= t < i && #[trigger] ids.take(i as int)[t] == x;
                    assert(ids[t] == ids[i as int]);
                }
            }
            before.lemma_len_filter(|idx: Seq<int>| dice_of(idx) == new_dice_set as nat);
            assert(current == ways_among(before, new_dice_set as nat).len());
        }
        roll_freq.insert(new_dice_set, current + 1);
        proof {
            seen = before.insert(x);
            assert(ids.take(i + 1) =~= ids.take(i as int).push(x));
            assert(seen =~= ids.take(i + 1).to_set()) by {
                assert forall|y: Seq<int>| seen.contains(y) <==> ids.take(i + 1).to_set().contains(y) by {
                    if ids.take(i + 1).contains(y) {
                        let t = choose|t: int| 0 <= t < i + 1 && #[trigger] ids.take(i + 1)[t] == y;
                        if t < i {
                            assert(ids.take(i as int)[t] == y);
                        }
                    }
                    if ids.take(i as int).contains(y) {
                        let t = choose|t: int| 0 <= t < i && #[trigger] ids.take(i as int)[t] == y;
                        assert(ids.take(i + 1)[t] == y);
                    }
                    if y == x {
                        assert(ids.take(i + 1)[i as int] == y);
                    }
                }
            }
            assert forall|d: DiceSet|
                (if #[trigger] roll_freq@.contains_key(d) {
                    roll_freq@[d] as nat
                } else {
                    0nat
                }) == ways_among(seen, d as nat).len() by {
                if d == new_dice_set {
                    assert(ways_among(seen, d as nat) =~= ways_among(before, d as nat).insert(x));
                    before.lemma_len_filter(|idx: Seq<int>| dice_of(idx) == d as nat);
                } else {
                    assert(ways_among(seen, d as nat) =~= ways_among(before, d as nat));
                    assert(roll_freq@[d] == old_freq[d]);
                }
            }
        }
    }
    proof {
        assert(ids.take(n as int) =~= ids);
        assert forall|d: DiceSet| #[trigger] roll_freq@.contains_key(d) <==> roll_ways(k, d as nat) > 0 by {
            assert(ways_among(seen, d as nat) =~= ways_of(k, d as nat));
        }
        assert forall|d: DiceSet| #[trigger] roll_freq@.contains_key(d) implies roll_freq@[d] == roll_ways(k, d as nat) by {
            assert(ways_among(seen, d as nat) =~= ways_of(k, d as nat));
        }
    }
    roll_freq
}

/// The ways among all ways of `k` dice whose dice set is one of `rs`.
pub open spec fn ways_of_listed(k: nat, rs: Seq<DiceSet>) -> Set<Seq<int>> {
    roll_sequences(k).filter(|idx: Seq<int>| rs.contains(dice_of(idx) as DiceSet))
}

/// The ways among all ways of `k` dice whose dice set is one of `rs` and scores nothing.
pub open spec fn zero_ways_of_listed(k: nat, rs: Seq<DiceSet>) -> Set<Seq<int>> {
    roll_sequences(k).filter(|idx: Seq<int>| rs.contains(dice_of(idx) as DiceSet) && score(dice_of(idx)) == 0)
}

/// The ways `k` dice can fall and score nothing.
pub open spec fn farkle_ways(k: nat) -> Set<Seq<int>> {
    roll_sequences(k).filter(|idx: Seq<int>| score(dice_of(idx)) == 0)
}

/// The rolls of `rs` that score, in order, each with its number of ways.
pub open spec fn scoring_rolls(k: nat, rs: Seq<DiceSet>) -> Seq<(DiceSet, usize)>
    decreases rs.len(),
{
    if rs.len() == 0 {
        Seq::empty()
    } else {
        let d = rs.last();
        scoring_rolls(k, rs.drop_last()) + if score(d as nat) > 0 {
            seq![(d, roll_ways(k, d as nat) as usize)]
        } else {
            Seq::empty()
        }
    }
}

/// The number of ways of all the entries of `s`.
pub open spec fn sum_ways(s: Seq<(DiceSet, usize)>) -> nat
    decreases s.len(),
{
    if s.len() == 0 {
        0
    } else {
        sum_ways(s.drop_last()) + (s.last().1 as nat)
    }
}

/// Every entry of the scoring rolls of `rs` is a roll of `rs`, with the ways it can fall.
pub proof fn lemma_scoring_rolls_in(k: nat, rs: Seq<DiceSet>)
    ensures
        forall|i: int|
            0 <= i < scoring_rolls(k, rs).len() ==> rs.contains(#[trigger] scoring_rolls(k, rs)[i].0)
                && scoring_rolls(k, rs)[i].1 == roll_ways(k, scoring_rolls(k, rs)[i].0 as nat) as usize,
    decreases rs.len(),
{
    if rs.len() > 0 {
        let t = rs.drop_last();
        lemma_scoring_rolls_in(k, t);
        assert forall|i: int| 0 <= i < scoring_rolls(k, rs).len() implies rs.contains(
            #[trigger] scoring_rolls(k, rs)[i].0,
        ) && scoring_rolls(k, rs)[i].1 == roll_ways(k, scoring_rolls(k, rs)[i].0 as nat) as usize by {
            if i < scoring_rolls(k, t).len() {
                let x = scoring_rolls(k, t)[i].0;
                assert(scoring_rolls(k, rs)[i] == scoring_rolls(k, t)[i]);
                let u = choose|u: int| 0 <= u < t.len() && t[u] == x;
                assert(rs[u] == x);
            } else {
                assert(rs[rs.len() - 1] == rs.last());
            }
        }
    }
}

/// The rolls of some number of dice that score, each with the number of ways
/// it can fall, the number of ways to score nothing, and the number of all ways.
pub struct OkRolls {
    pub rolls: Vec<(DiceSet, usize)>,
    pub zero_ways: usize,
    pub total_ways: usize,
}

/// Every roll of `k` dice can fall in at least one way.
proof fn lemma_roll_has_ways(k: nat, d: nat)
    requires
        is_roll(d),
        num_dice(d) == k,
        roll_sequences(k).finite(),
    ensures
        roll_ways(k, d) > 0,
{
    broadcast use vstd::set::group_set_axioms;
    lemma_roll_is_pick(d, k);
    let idx = face_indices(sorted_string(d)).map_values(|t: int| t - 1);
    lemma_sorted_string_roundtrip(d);
    assert(dice_of(idx) == d);
    assert(roll_sequences(k).contains(idx));
    assert(ways_of(k, d).contains(idx));
    roll_sequences(k).lemma_len_filter(|x: Seq<int>| dice_of(x) == d);
    assert(ways_of(k, d).remove(idx).len() == ways_of(k, d).len() - 1);
}

/// The rolls of `dice_left` dice that score, with the ways each can fall, read
/// from the scores of the rolls of `dice_left` dice and the list of those rolls.
pub fn get_ok_rolls_mut(scores: &Vec<ScoreType>, rolls: &Vec<DiceSet>, dice_left: usize) -> (r: OkRolls)
    requires
        size_scores_known(scores@, dice_left as nat),
        dice_left <= 6,
        lists_rolls(dice_left as nat, rolls@),
    ensures
        r.rolls@ == scoring_rolls(dice_left as nat, rolls@),
        forall|i: int| 0 <= i < r.rolls@.len() ==> (#[trigger] r.rolls@[i]).1 > 0,
        r.zero_ways == farkle_ways(dice_left as nat).len(),
        r.total_ways == roll_sequences(dice_left as nat).len(),
        sum_ways(r.rolls@) + r.zero_ways == r.total_ways,
{
    broadcast use vstd::std_specs::hash::group_hash_axioms;
    broadcast use vstd::set::group_set_axioms;

    let ghost k = dice_left as nat;
    let roll_freq = get_roll_distribution(dice_left);
    let mut zero_tot: usize = 0;
    let mut total_ct: usize = 0;
    let mut ok_rolls: Vec<(DiceSet, usize)> = Vec::new();
    let n = rolls.len();
    proof {
        assert(rolls@.take(0) =~= Seq::<DiceSet>::empty());
        assert(ways_of_listed(k, rolls@.take(0)) =~= Set::<Seq<int>>::empty());
        assert(zero_ways_of_listed(k, rolls@.take(0)) =~= Set::<Seq<int>>::empty());
        assert(scoring_rolls(k, rolls@.take(0)) =~= Seq::<(DiceSet, usize)>::empty());
    }
    for j in 0..n
        invariant
            n == rolls@.len(),
            k == dice_left,
            k <= 6,
            lists_rolls(k, rolls@),
            size_scores_known(scores@, dice_left as nat),
            roll_sequences(k).finite(),
            roll_sequences(k).len() <= usize::MAX,
            forall|d: DiceSet| #[trigger] roll_freq@.contains_key(d) <==> roll_ways(k, d as nat) > 0,
            forall|d: DiceSet| #[trigger] roll_freq@.contains_key(d) ==> roll_freq@[d] == roll_ways(k, d as nat),
            total_ct == ways_of_listed(k, rolls@.take(j as int)).len(),
            zero_tot == zero_ways_of_listed(k, rolls@.take(j as int)).len(),
            ok_rolls@ == scoring_rolls(k, rolls@.take(j as int)),
            forall|i: int| 0 <= i < ok_rolls@.len() ==> (#[trigger] ok_rolls@[i]).1 > 0,
            sum_ways(ok_rolls@) + zero_tot == total_ct,
    {
        let d = rolls[j];
        let ghost before = rolls@.take(j as int);
        let ghost after = rolls@.take(j + 1);
        proof {
            assert(is_roll(d as nat) && num_dice(d as nat) == k);
            lemma_roll_has_ways(k, d as nat);
            assert(after.drop_last() =~= before);
            assert(after.last() == d);
            assert(!before.contains(d)) by {
                if before.contains(d) {
                    let t = choose|t: int| 0 <= t < j && #[trigger] before[t] == d;
                    assert(rolls@[t] == rolls@[j as int]);
                    lemma_lex_less_ne(
                        face_indices(sorted_string(rolls@[t] as nat)),
                        face_indices(sorted_string(rolls@[j as int] as nat)),
                    );
                }
            }
            assert forall|x: DiceSet| after.contains(x) <==> before.contains(x) || x == d by {
                if after.contains(x) {
                    let t = choose|t: int| 0 <= t < j + 1 && #[trigger] after[t] == x;
                    if t < j {
                        assert(before[t] == x);
                    }
                }
                if before.contains(x) {
                    let t = choose|t: int| 0 <= t < j && #[trigger] before[t] == x;
                    assert(after[t] == x);
                }
                if x == d {
                    assert(after[j as int] == x);
                }
            }
            let wl = ways_of_listed(k, before);
            let wd = ways_of(k, d as nat);
            roll_sequences(k).lemma_len_filter(|idx: Seq<int>| before.contains(dice_of(idx) as DiceSet));
            roll_sequences(k).lemma_len_filter(|idx: Seq<int>| dice_of(idx) == d as nat);
            assert forall|idx: Seq<int>| roll_sequences(k).contains(idx) implies dice_of(idx) < crate::dice_set::MAX_VAL by {
                lemma_dice_of_roll(idx, k);
            }
            assert(wl.disjoint(wd));
            assert(ways_of_listed(k, after) =~= wl + wd);
            vstd::set_lib::lemma_set_disjoint_lens(wl, wd);
            vstd::set_lib::lemma_len_subset(wl + wd, roll_sequences(k));
            let zl = zero_ways_of_listed(k, before);
            roll_sequences(k).lemma_len_filter(|idx: Seq<int>| before.contains(dice_of(idx) as DiceSet) && score(dice_of(idx)) == 0);
            if score(d as nat) == 0 {
                assert(zl.disjoint(wd));
                assert(zero_ways_of_listed(k, after) =~= zl + wd);
                vstd::set_lib::lemma_set_disjoint_lens(zl, wd);
                vstd::set_lib::lemma_len_subset(zl + wd, roll_sequences(k));
            } else {
                assert(zero_ways_of_listed(k, after) =~= zl);
            }
        }
        let ct: usize = *roll_freq.get(&d).unwrap();
        total_ct = total_ct + ct;
        if scores[d as usize] == 0 {
            zero_tot = zero_tot + ct;
            proof {
                assert(scoring_rolls(k, after) =~= scoring_rolls(k, before));
            }
        } else {
            ok_rolls.push((d, ct));
            proof {
                assert(ok_rolls@.drop_last() =~= scoring_rolls(k, before));
                assert(scoring_rolls(k, after) =~= scoring_rolls(k, before).push((d, ct)));
            }
        }
    }
    proof {
        assert(rolls@.take(n as int) =~= rolls@);
        assert forall|idx: Seq<int>| roll_sequences(k).contains(idx) implies rolls@.contains(dice_of(idx) as DiceSet) by {
            lemma_dice_of_roll(idx, k);
        }
        assert(ways_of_listed(k, rolls@) =~= roll_sequences(k));
        assert(zero_ways_of_listed(k, rolls@) =~= farkle_ways(k));
    }
    OkRolls { rolls: ok_rolls, zero_ways: zero_tot, total_ways: total_ct }
}

/// The first group of `groups` whose representative roll has the holds `h`, -1 where none has.
pub open spec fn find_group(groups: Seq<(DiceSet, usize)>, h: Seq<DiceSet>) -> int
    decreases groups.len(),
{
    if groups.len() == 0 {
        -1
    } else {
        let j = find_group(groups.drop_last(), h);
        if j >= 0 {
            j
        } else if valid_holds_of(groups.last().0 as nat) == h {
            groups.len() - 1
        } else {
            -1
        }
    }
}

/// The scoring rolls merged by their holds worth considering: one entry per
/// list of holds, in order of first appearance, with the first roll that has
/// them and the ways of all the rolls that have them.
pub open spec fn merge_by_holds(ok: Seq<(DiceSet, usize)>) -> Seq<(DiceSet, usize)>
    decreases ok.len(),
{
    if ok.len() == 0 {
        Seq::empty()
    } else {
        let g = merge_by_holds(ok.drop_last());
        let x = ok.last();
        let j = find_group(g, valid_holds_of(x.0 as nat));
        if j >= 0 {
            g.update(j, (g[j].0, (g[j].1 + x.1) as usize))
        } else {
            g.push(x)
        }
    }
}

/// The search finds a group with the holds where there is one, and none otherwise.
proof fn lemma_find_group_result(groups: Seq<(DiceSet, usize)>, h: Seq<DiceSet>)
    ensures
        find_group(groups, h) >= 0 ==> find_group(groups, h) < groups.len()
            && valid_holds_of(groups[find_group(groups, h)].0 as nat) == h,
        find_group(groups, h) < 0 ==> forall|t: int|
            0 <= t < groups.len() ==> valid_holds_of(#[trigger] groups[t].0 as nat) != h,
    decreases groups.len(),
{
    if groups.len() > 0 {
        let t = groups.drop_last();
        lemma_find_group_result(t, h);
        if find_group(groups, h) < 0 {
            assert forall|u: int| 0 <= u < groups.len() implies valid_holds_of(
                #[trigger] groups[u].0 as nat,
            ) != h by {
                if u < t.len() {
                    assert(t[u] == groups[u]);
                }
            }
        } else if find_group(t, h) >= 0 {
            assert(t[find_group(t, h)] == groups[find_group(t, h)]);
        }
    }
}

/// Merging keeps the rolls of the groups it had, and adds at most one group.
proof fn lemma_merge_step(ok: Seq<(DiceSet, usize)>)
    requires
        ok.len() > 0,
    ensures
        ({
            let g = merge_by_holds(ok.drop_last());
            let m = merge_by_holds(ok);
            let h = valid_holds_of(ok.last().0 as nat);
            &&& forall|u: int| 0 <= u < g.len() ==> #[trigger] m[u].0 == g[u].0
            &&& find_group(g, h) >= 0 ==> m.len() == g.len() && find_group(g, h) < g.len()
                && valid_holds_of(m[find_group(g, h)].0 as nat) == h
            &&& find_group(g, h) < 0 ==> m.len() == g.len() + 1 && m[g.len() as int] == ok.last()
                && forall|u: int| 0 <= u < g.len() ==> valid_holds_of(#[trigger] g[u].0 as nat) != h
        }),
{
    let g = merge_by_holds(ok.drop_last());
    let h = valid_holds_of(ok.last().0 as nat);
    lemma_find_group_result(g, h);
}

/// No two groups of a merge share their holds.
pub proof fn lemma_merge_by_holds_distinct(ok: Seq<(DiceSet, usize)>)
    ensures
        forall|i: int, j: int|
            0 <= i < j < merge_by_holds(ok).len() ==> valid_holds_of(
                #[trigger] merge_by_holds(ok)[i].0 as nat,
            ) != valid_holds_of(#[trigger] merge_by_holds(ok)[j].0 as nat),
    decreases ok.len(),
{
    if ok.len() > 0 {
        let t = ok.drop_last();
        lemma_merge_by_holds_distinct(t);
        lemma_merge_step(ok);
        let g = merge_by_holds(t);
        let m = merge_by_holds(ok);
        assert forall|i: int, j: int| 0 <= i < j < m.len() implies valid_holds_of(
            #[trigger] m[i].0 as nat,
        ) != valid_holds_of(#[trigger] m[j].0 as nat) by {
            if j < g.len() {
                assert(m[i].0 == g[i].0 && m[j].0 == g[j].0);
            } else {
                assert(m[i].0 == g[i].0);
            }
        }
    }
}

/// Every scoring roll's holds have a group in the merge.
pub proof fn lemma_merge_by_holds_covers(ok: Seq<(DiceSet, usize)>)
    ensures
        forall|i: int|
            0 <= i < ok.len() ==> exists|j: int|
                0 <= j < merge_by_holds(ok).len() && valid_holds_of(
                    #[trigger] merge_by_holds(ok)[j].0 as nat,
                ) == valid_holds_of(#[trigger] ok[i].0 as nat),
    decreases ok.len(),
{
    if ok.len() > 0 {
        let t = ok.drop_last();
        lemma_merge_by_holds_covers(t);
        lemma_merge_step(ok);
        let g = merge_by_holds(t);
        let m = merge_by_holds(ok);
        let h = valid_holds_of(ok.last().0 as nat);
        assert forall|i: int| 0 <= i < ok.len() implies exists|j: int|
            0 <= j < m.len() && valid_holds_of(#[trigger] m[j].0 as nat) == valid_holds_of(
                #[trigger] ok[i].0 as nat,
            ) by {
            if i < t.len() {
                assert(ok[i] == t[i]);
                let j = choose|j: int|
                    0 <= j < g.len() && valid_holds_of(#[trigger] g[j].0 as nat) == valid_holds_of(
                        #[trigger] t[i].0 as nat,
                    );
                assert(m[j].0 == g[j].0);
            } else if find_group(g, h) >= 0 {
                let k = find_group(g, h);
                assert(ok[i] == ok.last());
                assert(valid_holds_of(m[k].0 as nat) == h);
            } else {
                assert(ok[i] == ok.last());
                assert(m[g.len() as int] == ok.last());
                assert(valid_holds_of(m[g.len() as int].0 as nat) == h);
            }
        }
    }
}

/// Each group of a merge stands for one of the scoring rolls.
pub proof fn lemma_merge_by_holds_from(ok: Seq<(DiceSet, usize)>)
    ensures
        forall|j: int|
            0 <= j < merge_by_holds(ok).len() ==> exists|i: int|
                0 <= i < ok.len() && #[trigger] ok[i].0 == #[trigger] merge_by_holds(ok)[j].0,
    decreases ok.len(),
{
    if ok.len() > 0 {
        let t = ok.drop_last();
        lemma_merge_by_holds_from(t);
        lemma_merge_step(ok);
        let g = merge_by_holds(t);
        let m = merge_by_holds(ok);
        assert forall|j: int| 0 <= j < m.len() implies exists|i: int|
            0 <= i < ok.len() && #[trigger] ok[i].0 == #[trigger] m[j].0 by {
            if j < g.len() {
                let i = choose|i: int| 0 <= i < t.len() && #[trigger] t[i].0 == #[trigger] g[j].0;
                assert(ok[i] == t[i]);
                assert(m[j].0 == g[j].0);
            } else {
                assert(ok[ok.len() - 1] == ok.last());
            }
        }
    }
}

/// The ways of the entries of `ok` whose roll has the holds `h`.
pub open spec fn ways_with_holds(ok: Seq<(DiceSet, usize)>, h: Seq<DiceSet>) -> nat
    decreases ok.len(),
{
    if ok.len() == 0 {
        0
    } else {
        ways_with_holds(ok.drop_last(), h) + if valid_holds_of(ok.last().0 as nat) == h {
            ok.last().1 as nat
        } else {
            0
        }
    }
}

/// The ways of the entries with some holds are no more than all the ways, and
/// none where no entry has those holds.
proof fn lemma_ways_with_holds_bounds(ok: Seq<(DiceSet, usize)>, h: Seq<DiceSet>)
    ensures
        ways_with_holds(ok, h) <= sum_ways(ok),
        (forall|i: int| 0 <= i < ok.len() ==> valid_holds_of(#[trigger] ok[i].0 as nat) != h)
            ==> ways_with_holds(ok, h) == 0,
    decreases ok.len(),
{
    if ok.len() > 0 {
        let t = ok.drop_last();
        lemma_ways_with_holds_bounds(t, h);
        if forall|i: int| 0 <= i < ok.len() ==> valid_holds_of(#[trigger] ok[i].0 as nat) != h {
            assert forall|i: int| 0 <= i < t.len() implies valid_holds_of(#[trigger] t[i].0 as nat)
                != h by {
                assert(t[i] == ok[i]);
            }
            assert(ok[ok.len() - 1] == ok.last());
        }
    }
}

/// Each group of a merge carries the ways of all the scoring rolls with its
/// holds, as long as all the ways together fit in a `usize`.
pub proof fn lemma_merge_by_holds_ways(ok: Seq<(DiceSet, usize)>)
    requires
        sum_ways(ok) <= usize::MAX,
    ensures
        forall|j: int|
            0 <= j < merge_by_holds(ok).len() ==> #[trigger] merge_by_holds(ok)[j].1 == ways_with_holds(
                ok,
                valid_holds_of(merge_by_holds(ok)[j].0 as nat),
            ),
    decreases ok.len(),
{
    if ok.len() > 0 {
        let t = ok.drop_last();
        let x = ok.last();
        lemma_merge_by_holds_ways(t);
        lemma_merge_step(ok);
        lemma_merge_by_holds_covers(t);
        lemma_merge_by_holds_distinct(t);
        let g = merge_by_holds(t);
        let m = merge_by_holds(ok);
        let h = valid_holds_of(x.0 as nat);
        let k = find_group(g, h);
        assert forall|j: int| 0 <= j < m.len() implies #[trigger] m[j].1 == ways_with_holds(
            ok,
            valid_holds_of(m[j].0 as nat),
        ) by {
            let hj = valid_holds_of(m[j].0 as nat);
            if j < g.len() {
                assert(m[j].0 == g[j].0);
                if k >= 0 && j == k {
                    lemma_ways_with_holds_bounds(ok, h);
                    assert(m[j].1 == (g[j].1 + x.1) as usize);
                } else if k >= 0 {
                    assert(m[j] == g[j]);
                    if j < k {
                        assert(valid_holds_of(g[j].0 as nat) != valid_holds_of(g[k].0 as nat));
                    } else {
                        assert(valid_holds_of(g[k].0 as nat) != valid_holds_of(g[j].0 as nat));
                    }
                } else {
                    assert(m[j] == g[j]);
                }
            } else {
                assert(m[j] == x);
                assert forall|i: int| 0 <= i < t.len() implies valid_holds_of(#[trigger] t[i].0 as nat)
                    != h by {
                    let u = choose|u: int|
                        0 <= u < g.len() && valid_holds_of(#[trigger] g[u].0 as nat) == valid_holds_of(
                            #[trigger] t[i].0 as nat,
                        );
                }
                lemma_ways_with_holds_bounds(t, h);
            }
        }
    }
}

/// The search from the front finds the first group with the holds.
proof fn lemma_find_group(groups: Seq<(DiceSet, usize)>, h: Seq<DiceSet>, j: int)
    requires
        0 <= j <= groups.len(),
        forall|t: int| 0 <= t < j ==> valid_holds_of(#[trigger] groups[t].0 as nat) != h,
        j < groups.len() ==> valid_holds_of(groups[j].0 as nat) == h,
    ensures
        find_group(groups, h) == if j < groups.len() { j } else { -1 },
    decreases groups.len(),
{
    if groups.len() > 0 {
        let t = groups.drop_last();
        if j < groups.len() - 1 {
            lemma_find_group(t, h, j);
        } else {
            assert forall|u: int| 0 <= u < t.len() implies valid_holds_of(#[trigger] t[u].0 as nat) != h by {
                assert(t[u] == groups[u]);
            }
            lemma_find_group(t, h, t.len() as int);
        }
    }
}

/// The ways of a prefix are no more than the ways of the whole.
proof fn lemma_sum_ways_prefix(s: Seq<(DiceSet, usize)>, i: int)
    requires
        0 <= i <= s.len(),
    ensures
        sum_ways(s.take(i)) <= sum_ways(s),
    decreases s.len(),
{
    if i < s.len() {
        lemma_sum_ways_prefix(s.drop_last(), i);
        assert(s.drop_last().take(i) =~= s.take(i));
    } else {
        assert(s.take(i) =~= s);
    }
}

/// One entry's ways are no more than the ways of all entries.
proof fn lemma_sum_ways_entry(s: Seq<(DiceSet, usize)>, j: int)
    requires
        0 <= j < s.len(),
    ensures
        s[j].1 <= sum_ways(s),
    decreases s.len(),
{
    if j < s.len() - 1 {
        lemma_sum_ways_entry(s.drop_last(), j);
    }
}

/// Adding ways to one entry adds them to the total.
proof fn lemma_sum_ways_update(s: Seq<(DiceSet, usize)>, j: int, v: usize)
    requires
        0 <= j < s.len(),
        v >= s[j].1,
    ensures
        sum_ways(s.update(j, (s[j].0, v))) == sum_ways(s) + (v - s[j].1),
    decreases s.len(),
{
    let u = s.update(j, (s[j].0, v));
    if j < s.len() - 1 {
        lemma_sum_ways_update(s.drop_last(), j, v);
        assert(u.drop_last() =~= s.drop_last().update(j, (s[j].0, v)));
    } else {
        assert(u.drop_last() =~= s.drop_last());
    }
}

/// `a` and `b` hold the same dice sets in the same order.
fn same_holds(a: &Vec<DiceSet>, b: &Vec<DiceSet>) -> (r: bool)
    ensures
        r == (a@ == b@),
{
    if a.len() != b.len() {
        return false;
    }
    let n = a.len();
    for i in 0..n
        invariant
            n == a@.len(),
            n == b@.len(),
            forall|t: int| 0 <= t < i ==> a@[t] == b@[t],
    {
        if a[i] != b[i] {
            return false;
        }
    }
    assert(a@ =~= b@);
    true
}

/// The holds table has, for each index, the holds of the roll there, or none.
pub open spec fn holds_table(holds: Seq<Option<Vec<DiceSet>>>) -> bool {
    &&& holds.len() == crate::dice_set::MAX_VAL + 1
    &&& forall|d: nat|
        d <= crate::dice_set::MAX_VAL ==> match #[trigger] holds[d as int] {
            Some(v) => is_roll(d) && is_valid_holds(d, v@),
            None => !is_roll(d),
        }
}

/// The scoring rolls merged by their holds worth considering, their ways added up.
pub fn get_ok_rolls_grouped_mut(holds: &Vec<Option<Vec<DiceSet>>>, ok: &OkRolls) -> (r: OkRolls)
    requires
        holds_table(holds@),
        forall|i: int| 0 <= i < ok.rolls@.len() ==> is_roll(#[trigger] ok.rolls@[i].0 as nat),
        sum_ways(ok.rolls@) + ok.zero_ways == ok.total_ways,
    ensures
        r.rolls@ == merge_by_holds(ok.rolls@),
        r.zero_ways == ok.zero_ways,
        r.total_ways == ok.total_ways,
        sum_ways(r.rolls@) == sum_ways(ok.rolls@),
{
    let mut groups: Vec<(DiceSet, usize)> = Vec::new();
    let mut group_holds: Vec<Vec<DiceSet>> = Vec::new();
    let n = ok.rolls.len();
    proof {
        assert(ok.rolls@.take(0) =~= Seq::<(DiceSet, usize)>::empty());
        lemma_sum_ways_prefix(ok.rolls@, n as int);
    }
    for i in 0..n
        invariant
            n == ok.rolls@.len(),
            holds_table(holds@),
            forall|t: int| 0 <= t < ok.rolls@.len() ==> is_roll(#[trigger] ok.rolls@[t].0 as nat),
            sum_ways(ok.rolls@) + ok.zero_ways == ok.total_ways,
            groups@ == merge_by_holds(ok.rolls@.take(i as int)),
            group_holds@.len() == groups@.len(),
            forall|t: int| 0 <= t < groups@.len() ==> (#[trigger] group_holds@[t])@ == valid_holds_of(groups@[t].0 as nat),
            sum_ways(groups@) == sum_ways(ok.rolls@.take(i as int)),
    {
        let (roll, ct) = ok.rolls[i];
        proof {
            assert(is_roll(ok.rolls@[i as int].0 as nat));
        }
        let h: &Vec<DiceSet> = holds[roll as usize].as_ref().unwrap();
        proof {
            assert(is_valid_holds(roll as nat, valid_holds_of(roll as nat)));
            lemma_valid_holds_unique(roll as nat, h@, valid_holds_of(roll as nat));
            assert(ok.rolls@.take(i + 1).drop_last() =~= ok.rolls@.take(i as int));
            assert(ok.rolls@.take(i + 1).last() == (roll, ct));
            lemma_sum_ways_prefix(ok.rolls@, i + 1);
        }
        let mut g: usize = 0;
        let mut found = false;
        while g < groups.len()
            invariant
                g <= groups@.len(),
                group_holds@.len() == groups@.len(),
                forall|t: int| 0 <= t < groups@.len() ==> (#[trigger] group_holds@[t])@ == valid_holds_of(groups@[t].0 as nat),
                forall|t: int| 0 <= t < g ==> valid_holds_of(#[trigger] groups@[t].0 as nat) != h@,
                found ==> g < groups@.len() && valid_holds_of(groups@[g as int].0 as nat) == h@,
            ensures
                g <= groups@.len(),
                forall|t: int| 0 <= t < g ==> valid_holds_of(#[trigger] groups@[t].0 as nat) != h@,
                found ==> g < groups@.len() && valid_holds_of(groups@[g as int].0 as nat) == h@,
                !found ==> g == groups@.len(),
            decreases groups@.len() - g + (if found { 0int } else { 1int }),
        {
            if same_holds(&group_holds[g], h) {
                found = true;
                break;
            }
            g = g + 1;
        }
        proof {
            lemma_find_group(groups@, h@, g as int);
        }
        if found {
            let (rep, cur) = groups[g];
            proof {
                lemma_sum_ways_entry(groups@, g as int);
            }
            let ghost before = groups@;
            groups.set(g, (rep, cur + ct));
            proof {
                lemma_sum_ways_update(before, g as int, (cur + ct) as usize);
            }
        } else {
            groups.push((roll, ct));
            group_holds.push(h.clone());
            proof {
                assert(groups@.drop_last() == merge_by_holds(ok.rolls@.take(i as int)));
            }
        }
    }
    proof {
        assert(ok.rolls@.take(n as int) =~= ok.rolls@);
    }
    OkRolls { rolls: groups, zero_ways: ok.zero_ways, total_ways: ok.total_ways }
}

} // verus!

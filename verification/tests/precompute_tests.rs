use farkle::precompute::calc_score_mut;
use farkle::dice_set::{self, from_string, to_sorted_string};
use farkle::precompute::Precomputed;

#[test]
pub fn test_calc_score() {
    let precomputed = Precomputed::default();
    assert_eq!(100, precomputed.calc_score(dice_set::from_string("1")));
    assert_eq!(50, precomputed.calc_score(dice_set::from_string("5")));
    assert_eq!(1000, precomputed.calc_score(dice_set::from_string("111")));
    assert_eq!(200, precomputed.calc_score(dice_set::from_string("222")));
    assert_eq!(300, precomputed.calc_score(dice_set::from_string("333")));
    assert_eq!(400, precomputed.calc_score(dice_set::from_string("444")));
    assert_eq!(500, precomputed.calc_score(dice_set::from_string("555")));
    assert_eq!(600, precomputed.calc_score(dice_set::from_string("666")));
    assert_eq!(1000, precomputed.calc_score(dice_set::from_string("2222")));
    assert_eq!(2000, precomputed.calc_score(dice_set::from_string("22222")));
    assert_eq!(
        3000,
        precomputed.calc_score(dice_set::from_string("222222"))
    );
    assert_eq!(
        1500,
        precomputed.calc_score(dice_set::from_string("112233"))
    );
    assert_eq!(
        2500,
        precomputed.calc_score(dice_set::from_string("123456"))
    );
    assert_eq!(
        2500,
        precomputed.calc_score(dice_set::from_string("654321"))
    );
    assert_eq!(
        1500,
        precomputed.calc_score(dice_set::from_string("336666"))
    );
    assert_eq!(1100, precomputed.calc_score(dice_set::from_string("1111")));
}

#[test]
pub fn test_get_valid_holds() {
    let precomputed = Precomputed::default();
    let holds = precomputed.get_valid_holds(dice_set::from_string("14"));
    assert!(holds.len() == 1);
}

#[test]
fn scores_of_mixed_rolls() {
    let p = Precomputed::default();
    assert_eq!(p.calc_score(from_string("")), 0);
    assert_eq!(p.calc_score(from_string("2346")), 0);
    assert_eq!(p.calc_score(from_string("15")), 150);
    assert_eq!(p.calc_score(from_string("115")), 250);
    assert_eq!(p.calc_score(from_string("11111")), 2000);
    assert_eq!(p.calc_score(from_string("111111")), 3000);
    assert_eq!(p.calc_score(from_string("555")), 500);
    assert_eq!(p.calc_score(from_string("5555")), 1000);
    assert_eq!(p.calc_score(from_string("222255")), 1500);
    assert_eq!(p.calc_score(from_string("111555")), 1500);
    assert_eq!(p.calc_score(from_string("1115")), 1050);
    // seven 1s carry into the digit of the 2s
    assert_eq!(from_string("1111111"), from_string("2"));
    assert_eq!(p.calc_score(from_string("1111111")), 0);
    // numbers that are no roll of at most six dice
    assert_eq!(p.calc_score(from_string("6666666")), i32::MAX);
    assert_eq!(p.calc_score(117649), i32::MAX);
}

#[test]
fn numbers_of_dice() {
    let p = Precomputed::default();
    assert_eq!(p.get_num_dice(from_string("")), 0);
    assert_eq!(p.get_num_dice(from_string("256")), 3);
    assert_eq!(p.get_num_dice(from_string("666666")), 6);
    assert_eq!(p.get_num_dice(from_string("1111111")), 1);
    assert_eq!(p.get_num_dice(from_string("6666666")), 0);
}

#[test]
fn rolls_of_each_size() {
    let p = Precomputed::default();
    let sizes: Vec<usize> = (0..=6).map(|k| p.get_rolls(k).len()).collect();
    assert_eq!(sizes, vec![1, 6, 21, 56, 126, 252, 462]);
    let two: Vec<String> = p.get_rolls(2).iter().map(|d| to_sorted_string(*d)).collect();
    assert_eq!(two[0], "11");
    assert_eq!(two[1], "12");
    assert_eq!(two[6], "22");
    assert_eq!(two[20], "66");
    assert_eq!(p.get_rolls(0), &vec![0]);
}

#[test]
fn holds_worth_considering() {
    let p = Precomputed::default();
    let hr = |v: &Vec<u32>| v.iter().map(|d| to_sorted_string(*d)).collect::<Vec<_>>();
    // holding the one beats holding both dice
    assert_eq!(hr(p.get_valid_holds(from_string("14"))), vec!["1"]);
    // both dice score more together: only the whole roll
    assert_eq!(hr(p.get_valid_holds(from_string("15"))), vec!["15"]);
    // no score: nothing to hold
    assert!(p.get_valid_holds(from_string("2346")).is_empty());
    // every size beats the one before, up to all five dice: only the whole roll
    assert_eq!(hr(p.get_valid_holds(from_string("15222"))), vec!["12225"]);
    let h = hr(p.get_valid_holds(from_string("12223")));
    assert_eq!(h, vec!["1", "222", "1222"]);
    assert!(p.get_valid_holds(from_string("")).is_empty());
}

#[test]
fn ways_of_rolling() {
    let p = Precomputed::default();
    let one = p.get_ok_rolls(1);
    assert_eq!(one.total_ways, 6);
    assert_eq!(one.zero_ways, 4);
    let mut scoring: Vec<(String, usize)> =
        one.rolls.iter().map(|(d, w)| (to_sorted_string(*d), *w)).collect();
    scoring.sort();
    assert_eq!(scoring, vec![("1".to_string(), 1), ("5".to_string(), 1)]);
    let two = p.get_ok_rolls(2);
    assert_eq!(two.total_ways, 36);
    assert_eq!(two.zero_ways, 16);
    let w15 = two.rolls.iter().find(|(d, _)| *d == from_string("15")).unwrap().1;
    assert_eq!(w15, 2);
    let w11 = two.rolls.iter().find(|(d, _)| *d == from_string("11")).unwrap().1;
    assert_eq!(w11, 1);
    for k in 0..=6 {
        let ok = p.get_ok_rolls(k);
        let sum: usize = ok.rolls.iter().map(|x| x.1).sum();
        assert_eq!(sum + ok.zero_ways, ok.total_ways);
        assert_eq!(ok.total_ways, 6usize.pow(k as u32));
        let merged = p.get_ok_rolls_merged(k);
        let msum: usize = merged.rolls.iter().map(|x| x.1).sum();
        assert_eq!(msum, sum);
        assert!(merged.rolls.len() <= ok.rolls.len());
    }
    // the farkle odds of six dice: 1080 of 46656
    assert_eq!(p.get_ok_rolls(6).zero_ways, 1080);
    // no dice: the single empty roll scores nothing
    assert_eq!(p.get_ok_rolls(0).zero_ways, 1);
    assert!(p.get_ok_rolls(0).rolls.is_empty());
}

#[test]
fn merged_rolls_share_holds() {
    let p = Precomputed::default();
    let merged = p.get_ok_rolls_merged(2);
    let holds: Vec<Vec<u32>> = merged.rolls.iter().map(|(d, _)| p.get_valid_holds(*d).clone()).collect();
    for i in 0..holds.len() {
        for j in 0..i {
            assert_ne!(holds[i], holds[j]);
        }
    }
    // "12", "13", "14", "16" all have the single hold "1": one group of weight 8
    let one = from_string("1");
    let g = merged.rolls.iter().find(|(d, _)| p.get_valid_holds(*d) == &vec![one]).unwrap();
    assert_eq!(to_sorted_string(g.0), "12");
    assert_eq!(g.1, 2 * 4);
}

#[test]
fn holds_exactly_for_scoring_rolls() {
    let p = Precomputed::default();
    for k in 0..=6 {
        for d in p.get_rolls(k) {
            let score = p.calc_score(*d);
            assert!(0 <= score && score <= 1000 * (k as i32));
            assert_eq!(p.get_valid_holds(*d).is_empty(), score == 0);
        }
    }
}

#[test]
fn adding_dice_keeps_a_score() {
    let p = Precomputed::default();
    assert!(p.calc_score(from_string("1")) > 0);
    assert!(p.calc_score(from_string("12346")) > 0);
    assert!(p.calc_score(from_string("223344")) > 0);
    assert!(p.calc_score(from_string("2233")) == 0);
}

#[test]
fn merged_groups_carry_their_ways() {
    let p = Precomputed::default();
    for k in 1..=6 {
        let ok = p.get_ok_rolls(k);
        let merged = p.get_ok_rolls_merged(k);
        for (roll, ways) in &merged.rolls {
            let holds = p.get_valid_holds(*roll);
            let expected: usize = ok
                .rolls
                .iter()
                .filter(|(d, _)| p.get_valid_holds(*d) == holds)
                .map(|(_, w)| *w)
                .sum();
            assert_eq!(*ways, expected);
            assert!(ok.rolls.iter().any(|(d, _)| d == roll));
        }
        for (d, _) in &ok.rolls {
            let holds = p.get_valid_holds(*d);
            assert!(merged.rolls.iter().any(|(r, _)| p.get_valid_holds(*r) == holds));
        }
    }
}

#[test]
fn holds_come_from_the_roll() {
    let p = Precomputed::default();
    for k in 1..=6 {
        for d in p.get_rolls(k) {
            let roll = to_sorted_string(*d);
            for h in p.get_valid_holds(*d) {
                let hold = to_sorted_string(*h);
                for c in ['1', '2', '3', '4', '5', '6'] {
                    let in_hold = hold.chars().filter(|x| *x == c).count();
                    let in_roll = roll.chars().filter(|x| *x == c).count();
                    assert!(in_hold <= in_roll);
                }
                assert!(p.calc_score(*h) > 0);
                assert!(1 <= p.get_num_dice(*h) && p.get_num_dice(*h) <= k);
            }
        }
    }
}

#[test]
fn adding_dice_never_lowers_the_score() {
    let p = Precomputed::default();
    assert!(p.calc_score(from_string("5")) <= p.calc_score(from_string("55")));
    assert!(p.calc_score(from_string("2233")) <= p.calc_score(from_string("223344")));
    for k in 0..6 {
        for a in p.get_rolls(k) {
            for f in 1..=6 {
                let b = farkle::dice_set::combine_diceset(*a, farkle::dice_set::from_ind(f));
                assert!(p.calc_score(*a) <= p.calc_score(b));
            }
        }
    }
}

#[test]
pub fn test_ok_rolls() {
    let precomputed = Precomputed::default();
    let ok = precomputed.get_ok_rolls(2);
    let sum_ok: usize = ok.rolls.iter().map(|x| x.1).sum();
    assert_eq!(ok.rolls.len(), 11);
    assert_eq!(ok.zero_ways, 16);
    assert_eq!(ok.total_ways, 36);
    assert_eq!(sum_ok + ok.zero_ways, ok.total_ways);
}

#[test]
fn scores_from_a_partly_filled_table() {
    let mut cache: Vec<i32> = vec![i32::MAX; 117650];
    cache[0] = 0;
    assert_eq!(calc_score_mut(&mut cache, from_string("1")), 100);
    assert_eq!(cache[from_string("1") as usize], 100);
    cache[from_string("5") as usize] = 50;
    assert_eq!(calc_score_mut(&mut cache, from_string("15")), 150);
    assert!(calc_score_mut(&mut cache, from_string("1")) <= calc_score_mut(&mut cache, from_string("15")));
}

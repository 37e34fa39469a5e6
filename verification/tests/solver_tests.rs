use farkle::defs::{Action, NUM_DICE, SCORE_WIN};
use farkle::dice_set::from_string;
use farkle::farkle_solver::{
    approx_farkle_scores, byte_to_score, get_cache_key, highest_score, hold_step,
    is_turn_start, rotate_scores, score_to_byte, standing, stay_scores, unpack_cache_key,
    Standing,
};
use farkle::precompute::Precomputed;
use farkle::turn::{after_decision, game_goes_on, is_farkle, roll_of_faces, TurnOutcome};

#[test]
fn score_bytes() {
    assert_eq!(score_to_byte(0), 0);
    assert_eq!(score_to_byte(49), 0);
    assert_eq!(score_to_byte(50), 1);
    assert_eq!(score_to_byte(10000), 200);
    assert_eq!(score_to_byte(12750), 255);
    assert_eq!(score_to_byte(12800), 0);
    assert_eq!(byte_to_score(0), 0);
    assert_eq!(byte_to_score(3), 150);
    assert_eq!(byte_to_score(255), 12750);
}

#[test]
fn cache_key_layout() {
    let key = get_cache_key(150, 4, &[1000, 9950]);
    assert_eq!(key, 3 | (4 << 8) | (20 << 16) | (199 << 24));
    assert_eq!(get_cache_key(0, 6, &[]), 6 << 8);
    assert_eq!(get_cache_key(0, 6, &[100]), (6 << 8) | (2 << 16));
}

#[test]
fn cache_key_roundtrip() {
    let key = get_cache_key(350, 2, &[4000, 50]);
    let (held, left, scores) = unpack_cache_key(key);
    assert_eq!(held, 350);
    assert_eq!(left, 2);
    assert_eq!(scores, vec![4000, 50]);
    let key = get_cache_key(120, 6, &[10020, 0]);
    assert_eq!(unpack_cache_key(key), (100, 6, vec![10000, 0]));
}

#[test]
fn turn_starts() {
    assert!(is_turn_start(get_cache_key(0, 6, &[500, 700])));
    assert!(is_turn_start(get_cache_key(40, 6, &[500, 700])));
    assert!(!is_turn_start(get_cache_key(50, 3, &[500, 700])));
}

#[test]
fn standings() {
    assert_eq!(standing(500, &[9500, 0]), Standing::Won);
    assert_eq!(standing(0, &[SCORE_WIN, 0]), Standing::Won);
    assert_eq!(standing(400, &[9500, 0]), Standing::Open);
    assert_eq!(standing(0, &[0, 10000]), Standing::Lost);
    assert_eq!(standing(0, &[100, 200, 10050]), Standing::Lost);
    assert_eq!(highest_score(&[3, 9, 2]), 9);
    assert_eq!(highest_score(&[-5]), -5);
}

#[test]
fn score_rotations() {
    assert_eq!(rotate_scores(&[1, 2, 3]), vec![2, 3, 1]);
    assert_eq!(rotate_scores(&[7]), vec![7]);
    assert_eq!(stay_scores(300, &[1000, 2000]), vec![2000, 1300]);
    assert_eq!(approx_farkle_scores(&[1000, 2000]), vec![2000, 1050]);
}

#[test]
fn holding_dice() {
    let p = Precomputed::default();
    assert_eq!(hold_step(&p, 0, from_string("1234"), from_string("1")), (100, 3));
    assert_eq!(hold_step(&p, 200, from_string("115"), from_string("115")), (450, NUM_DICE));
    assert_eq!(hold_step(&p, 50, from_string("222346"), from_string("222")), (250, 3));
}

#[test]
fn throws() {
    assert_eq!(roll_of_faces(&[]), from_string(""));
    assert_eq!(roll_of_faces(&[6, 1, 3]), from_string("136"));
    assert_eq!(roll_of_faces(&[5, 5, 5, 5, 5, 5]), from_string("555555"));
    let p = Precomputed::default();
    assert!(is_farkle(&p, roll_of_faces(&[2, 3, 4, 6])));
    assert!(!is_farkle(&p, roll_of_faces(&[2, 3, 4, 5])));
    assert!(is_farkle(&p, from_string("")));
}

#[test]
fn games_going_on() {
    assert!(game_goes_on(&[0, 0]));
    assert!(game_goes_on(&[10000, 20]));
    assert!(!game_goes_on(&[10050, 20]));
}

#[test]
fn decisions_on_throws() {
    let p = Precomputed::default();
    let hold = from_string("15");
    assert_eq!(
        after_decision(&p, 1000, 100, 4, hold, Action::Roll),
        TurnOutcome::Rolling { held_score: 250, dice_left: 2 }
    );
    assert_eq!(
        after_decision(&p, 1000, 100, 2, hold, Action::Roll),
        TurnOutcome::Rolling { held_score: 250, dice_left: 6 }
    );
    assert_eq!(
        after_decision(&p, 1000, 100, 4, hold, Action::Stay),
        TurnOutcome::Banked { score: 1250, won: false }
    );
    assert_eq!(
        after_decision(&p, 9800, 100, 4, hold, Action::Roll),
        TurnOutcome::Banked { score: 10050, won: true }
    );
}

#[test]
fn action_names() {
    assert_eq!(Action::Roll.to_string(), "Roll");
    assert_eq!(Action::Stay.to_string(), "Stay");
    assert_eq!(Action::default(), Action::Stay);
}

use farkle::dice_set::try_from_string;
use farkle::dice_set::{
    combine_diceset, empty, from_char, from_human_readable, from_human_readable_str, from_ind,
    from_string, get_chars, subtract_dice, to_human_readable, to_sorted_string, get_freqdist,
};

#[test]
fn test_to_human_readable() {
    let my_dice = from_string("123456");
    let my_dice_after = to_sorted_string(my_dice);
    assert_eq!("123456", my_dice_after);
}

#[test]
fn test_to_human_readable_blank() {
    let my_dice = from_string("");
    let my_dice_after = to_sorted_string(my_dice);
    assert_eq!("", my_dice_after);
}

#[test]
fn packs_in_base_seven() {
    assert_eq!(from_string("1"), 1);
    assert_eq!(from_string("2"), 7);
    assert_eq!(from_string("6"), 16807);
    assert_eq!(from_string("_"), 0);
    assert_eq!(from_string("123456"), 1 + 7 + 49 + 343 + 2401 + 16807);
    assert_eq!(from_string("6543_21"), 19608);
    assert_eq!(from_char('5'), 2401);
    assert_eq!(from_ind(0), 0);
    assert_eq!(from_ind(4), 343);
    assert_eq!(empty(), 0);
    assert_eq!(get_chars(), &['1', '2', '3', '4', '5', '6']);
}

#[test]
fn human_readable_is_highest_face_first() {
    let d = from_string("151");
    let hr = to_human_readable(d);
    assert_eq!(hr, vec!["5".to_string(), "1".to_string(), "1".to_string()]);
    assert_eq!(to_sorted_string(d), "115");
    assert!(to_human_readable(0).is_empty());
}

#[test]
fn sorted_string_roundtrip() {
    for d in [0u32, 1, 6, 7, 48, 117648, 117649, 200000] {
        assert_eq!(from_string(&to_sorted_string(d)), d);
    }
    // The top face takes whatever lies above the lower digits.
    assert_eq!(to_sorted_string(117649), "6666666");
    assert_eq!(to_sorted_string(from_string("66554433")), "33445566");
}

#[test]
fn combine_and_subtract() {
    let a = from_string("11");
    let b = from_string("56");
    let c = combine_diceset(a, b);
    assert_eq!(to_sorted_string(c), "1156");
    assert_eq!(subtract_dice(c, "5"), from_string("116"));
    assert_eq!(to_sorted_string(subtract_dice(c, "16")), "15");
}

#[test]
fn human_readable_strings() {
    let a = "4".to_string();
    let b = "4x".to_string();
    let c = "1".to_string();
    let v = vec![&a, &b, &c];
    assert_eq!(from_human_readable_str(&v), 343 + 343 + 1);
    assert_eq!(from_human_readable(vec!['3', '3', '_']), 98);
}

#[test]
fn frequency_of_faces() {
    let fd = get_freqdist(from_string("336666"));
    assert_eq!(fd.get(&'3'), 2);
    assert_eq!(fd.get(&'6'), 4);
    assert_eq!(fd.get(&'1'), 0);
}

#[test]
fn order_of_dice_does_not_matter() {
    assert_eq!(from_string("654321"), from_string("123456"));
    assert_eq!(from_string("5_1"), from_string("15_"));
    assert_eq!(from_human_readable(vec!['6', '1', '6']), from_string("166"));
}

#[test]
fn strings_that_may_not_be_dice() {
    assert_eq!(try_from_string("123456"), Some(from_string("123456")));
    assert_eq!(try_from_string(""), Some(0));
    assert_eq!(try_from_string("_6"), Some(16807));
    assert_eq!(try_from_string("12x"), None);
    assert_eq!(try_from_string("7"), None);
    // 255547 sixes pack to more than u32::MAX
    assert_eq!(try_from_string(&"6".repeat(255547)), None);
    assert_eq!(try_from_string(&"6".repeat(255546)), Some(255546 * 16807));
}

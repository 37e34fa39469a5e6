//! A dice set is a multiset of die faces packed into one number: face `f`
//! (1 to 6) weighs `7^(f-1)`, so a set of at most six dice is a number with
//! one base-7 digit per face. The string forms write one character per die.
use vstd::prelude::*;
use vstd::multiset::Multiset;
use freqdist::FrequencyDistribution;
use crate::freq::{freq_contents, freq_total, freqdist_new, freqdist_insert};
use vstd::arithmetic::div_mod::{lemma_fundamental_div_mod, lemma_mod_mod, lemma_fundamental_div_mod_converse};

verus! {

/// A multiset of dice faces, packed as a number in base 7: face `f` weighs `7^(f-1)`.
pub type DiceSet = u32;

/// The base of the packing.
pub const BASE: u32 = 7;

/// The weight of each character index; index 0 (`'_'`) weighs nothing.
pub const POWS: [u32; 7] = [0, 1, 7, 49, 343, 2401, 16807];

/// The characters of the human readable form; index 0 stands for "no die".
pub const CHARS: [char; 7] = ['_', '1', '2', '3', '4', '5', '6'];

/// The six die faces as characters.
pub const FACE_CHARS: [char; 6] = ['1', '2', '3', '4', '5', '6'];

/// `BASE` to the power of the number of dice: one more than the largest packed set of six dice.
pub const MAX_VAL: u32 = 117649;

// ---------------------------------------------------------------------------
// The model
// ---------------------------------------------------------------------------

/// The weight of character index `i` in the packed form.
pub open spec fn face_value(i: int) -> nat {
    if i == 1 {
        1
    } else if i == 2 {
        7
    } else if i == 3 {
        49
    } else if i == 4 {
        343
    } else if i == 5 {
        2401
    } else if i == 6 {
        16807
    } else {
        0
    }
}

/// The index of a character of the human readable form, -1 for any other character.
pub open spec fn char_index(c: char) -> int {
    if c == '_' {
        0
    } else if c == '1' {
        1
    } else if c == '2' {
        2
    } else if c == '3' {
        3
    } else if c == '4' {
        4
    } else if c == '5' {
        5
    } else if c == '6' {
        6
    } else {
        -1
    }
}

/// The character with index `i`.
pub open spec fn index_char(i: int) -> char {
    if i == 1 {
        '1'
    } else if i == 2 {
        '2'
    } else if i == 3 {
        '3'
    } else if i == 4 {
        '4'
    } else if i == 5 {
        '5'
    } else if i == 6 {
        '6'
    } else {
        '_'
    }
}

/// A character that the human readable form may hold.
pub open spec fn is_dice_char(c: char) -> bool {
    char_index(c) >= 0
}

/// A character that names a die face.
pub open spec fn is_face_char(c: char) -> bool {
    1 <= char_index(c) <= 6
}

/// Every character of `s` may stand in the human readable form.
pub open spec fn all_dice_chars(s: Seq<char>) -> bool {
    forall|j: int| 0 <= j < s.len() ==> is_dice_char(#[trigger] s[j])
}

/// The packed value of a sequence of characters: the sum of their weights.
pub open spec fn encode(s: Seq<char>) -> nat
    decreases s.len(),
{
    if s.len() == 0 {
        0
    } else {
        encode(s.drop_last()) + face_value(char_index(s.last()))
    }
}

/// The part of `d` that the faces up to `f` make up: `d mod 7^f` for `f < 6`, all of `d` from 6 on.
#[verifier::opaque]
pub open spec fn below(d: nat, f: int) -> nat {
    if f >= 6 {
        d
    } else {
        d % face_value(f + 1)
    }
}

/// How many dice of face `f` (1 to 6) the packed value `d` holds, reading its
/// base-7 digits; the top face takes all that is left above the lower digits.
#[verifier::opaque]
pub open spec fn count(d: nat, f: int) -> nat
    recommends
        1 <= f <= 6,
{
    below(d, f) / face_value(f)
}

/// The number of dice that `d` holds.
pub open spec fn num_dice(d: nat) -> nat {
    count(d, 1) + count(d, 2) + count(d, 3) + count(d, 4) + count(d, 5) + count(d, 6)
}

/// `n` copies of `c`.
pub open spec fn repeat_char(c: char, n: nat) -> Seq<char> {
    Seq::new(n, |_i: int| c)
}

/// The dice of faces `f` down to 1, highest face first.
pub open spec fn descending_from(d: nat, f: int) -> Seq<char>
    decreases f,
{
    if f < 1 {
        Seq::empty()
    } else {
        repeat_char(index_char(f), count(d, f)) + descending_from(d, f - 1)
    }
}

/// The dice of faces 1 up to `f`, lowest face first.
pub open spec fn ascending_to(d: nat, f: int) -> Seq<char>
    decreases f,
{
    if f < 1 {
        Seq::empty()
    } else {
        ascending_to(d, f - 1) + repeat_char(index_char(f), count(d, f))
    }
}

/// The human readable form of `d`: one character per die, highest face first.
pub open spec fn human_readable(d: nat) -> Seq<char> {
    descending_from(d, 6)
}

/// The sorted string of `d`: one character per die, lowest face first.
pub open spec fn sorted_string(d: nat) -> Seq<char> {
    ascending_to(d, 6)
}

/// How often `c` occurs in `s`.
pub open spec fn occurrences(s: Seq<char>, c: char) -> nat
    decreases s.len(),
{
    if s.len() == 0 {
        0
    } else {
        occurrences(s.drop_last(), c) + if s.last() == c { 1nat } else { 0nat }
    }
}

/// The characters of `s` with faces 1 up to `f`, sorted by face.
pub open spec fn faces_up_to(s: Seq<char>, f: int) -> Seq<char>
    decreases f,
{
    if f < 1 {
        Seq::empty()
    } else {
        faces_up_to(s, f - 1) + repeat_char(index_char(f), occurrences(s, index_char(f)))
    }
}

/// The characters of `s` sorted by face, the `'_'` placeholders left out.
pub open spec fn sorted_faces(s: Seq<char>) -> Seq<char> {
    faces_up_to(s, 6)
}

/// The face indices of a sequence of characters.
pub open spec fn face_indices(s: Seq<char>) -> Seq<int> {
    s.map_values(|c: char| char_index(c))
}

/// `s` holds only face characters, in nondecreasing order of face.
pub open spec fn is_sorted_faces(s: Seq<char>) -> bool {
    &&& forall|i: int| 0 <= i < s.len() ==> is_face_char(#[trigger] s[i])
    &&& forall|i: int, j: int|
        0 <= i <= j < s.len() ==> char_index(#[trigger] s[i]) <= char_index(#[trigger] s[j])
}

/// No face below 6 occurs more than six times in `s`, so that each face keeps its own base-7 digit.
pub open spec fn digits_fit(s: Seq<char>) -> bool {
    forall|f: int| 1 <= f <= 5 ==> occurrences(s, #[trigger] index_char(f)) <= 6
}

// ---------------------------------------------------------------------------
// Lemmas
// ---------------------------------------------------------------------------

/// Taking out the dice of face `i` leaves the value of the faces below it.
pub proof fn lemma_below_step(d: nat, i: int)
    requires
        1 <= i <= 6,
    ensures
        below(d, i) == count(d, i) * face_value(i) + below(d, i - 1),
        below(d, i - 1) < face_value(i),
{
    reveal(below);
    reveal(count);
    let x = below(d, i) as int;
    let b = face_value(i) as int;
    lemma_fundamental_div_mod(x, b);
    assert(x == b * (x / b) + x % b);
    assert(count(d, i) == x / b);
    if i == 1 {
        lemma_below_ends(d);
        assert(x % 1 == 0);
        assert(d as int % 1 == 0);
    } else if i == 6 {
        assert(below(d, 5) == d % 16807);
    } else {
        assert(face_value(i + 1) == b * 7);
        lemma_mod_mod(d as int, b, 7);
        assert(below(d, i - 1) == d % face_value(i));
    }
    assert(x % b < b) by {
        vstd::arithmetic::div_mod::lemma_mod_bound(x, b);
    }
    assert((x / b) * b == b * (x / b)) by (nonlinear_arith);
}

/// Nothing lies below face 1, and everything lies below face 6 and up.
pub proof fn lemma_below_ends(d: nat)
    ensures
        below(d, 0) == 0,
        below(d, 6) == d,
{
    reveal(below);
    assert(d % 1 == 0);
}

/// A face's count is the part below it divided by its weight.
pub proof fn lemma_count_def(d: nat, f: int)
    ensures
        count(d, f) == below(d, f) / face_value(f),
{
    reveal(count);
}

/// The packed value of two sequences one after the other is the sum of their packed values.
pub proof fn lemma_encode_concat(a: Seq<char>, b: Seq<char>)
    ensures
        encode(a + b) == encode(a) + encode(b),
    decreases b.len(),
{
    if b.len() == 0 {
        assert(a + b =~= a);
    } else {
        lemma_encode_concat(a, b.drop_last());
        assert((a + b).drop_last() =~= a + b.drop_last());
        assert((a + b).last() == b.last());
    }
}

/// `n` copies of a character pack to `n` times its weight.
pub proof fn lemma_encode_repeat(c: char, n: nat)
    ensures
        encode(repeat_char(c, n)) == n * face_value(char_index(c)),
    decreases n,
{
    if n > 0 {
        lemma_encode_repeat(c, (n - 1) as nat);
        assert(repeat_char(c, n).drop_last() =~= repeat_char(c, (n - 1) as nat));
        assert(n * face_value(char_index(c)) == (n - 1) * face_value(char_index(c)) + face_value(
            char_index(c),
        )) by (nonlinear_arith);
    }
}

/// The faces up to `f`, lowest first, pack back to the part of `d` they came from.
pub proof fn lemma_encode_ascending(d: nat, f: int)
    requires
        0 <= f <= 6,
    ensures
        encode(ascending_to(d, f)) == below(d, f),
    decreases f,
{
    if f == 0 {
        lemma_below_ends(d);
    } else {
        lemma_encode_ascending(d, f - 1);
        lemma_encode_concat(ascending_to(d, f - 1), repeat_char(index_char(f), count(d, f)));
        lemma_encode_repeat(index_char(f), count(d, f));
        lemma_below_step(d, f);
        assert(char_index(index_char(f)) == f);
    }
}

/// The sorted string is the human readable form read backwards.
pub proof fn lemma_ascending_is_reverse(d: nat, f: int)
    requires
        0 <= f <= 6,
    ensures
        ascending_to(d, f) =~= descending_from(d, f).reverse(),
    decreases f,
{
    if f > 0 {
        lemma_ascending_is_reverse(d, f - 1);
        let r = repeat_char(index_char(f), count(d, f));
        let rest = descending_from(d, f - 1);
        let whole = r + rest;
        assert(descending_from(d, f) == whole);
        let asc = ascending_to(d, f - 1) + r;
        assert forall|k: int| 0 <= k < asc.len() implies asc[k] == whole.reverse()[k] by {
            if k < rest.len() {
                assert(asc[k] == rest.reverse()[k]);
            } else {
            }
        }
        assert(asc.len() == whole.reverse().len());
    }
}

/// The length of the human readable form is the number of dice.
pub proof fn lemma_descending_len(d: nat, f: int)
    requires
        0 <= f <= 6,
    ensures
        descending_from(d, f).len() == (if f >= 1 { count(d, 1) } else { 0 }) + (if f >= 2 {
            count(d, 2)
        } else {
            0
        }) + (if f >= 3 { count(d, 3) } else { 0 }) + (if f >= 4 { count(d, 4) } else { 0 }) + (
        if f >= 5 {
            count(d, 5)
        } else {
            0
        }) + (if f >= 6 { count(d, 6) } else { 0 }),
    decreases f,
{
    if f > 0 {
        lemma_descending_len(d, f - 1);
    }
}

/// Packing the sorted string of any dice set gives the dice set back.
pub proof fn lemma_sorted_string_roundtrip(d: nat)
    ensures
        encode(sorted_string(d)) == d,
{
    lemma_encode_ascending(d, 6);
    lemma_below_ends(d);
}

/// Packing the human readable form of any dice set gives the dice set back.
pub proof fn lemma_human_readable_roundtrip(d: nat)
    ensures
        encode(human_readable(d)) == d,
{
    lemma_sorted_string_roundtrip(d);
    lemma_ascending_is_reverse(d, 6);
    lemma_encode_reverse(human_readable(d));
}

/// Reversing a sequence does not change its packed value.
pub proof fn lemma_encode_reverse(s: Seq<char>)
    ensures
        encode(s.reverse()) == encode(s),
    decreases s.len(),
{
    if s.len() > 0 {
        let t = s.drop_last();
        lemma_encode_reverse(t);
        assert(s.reverse() =~= seq![s.last()] + t.reverse());
        lemma_encode_concat(seq![s.last()], t.reverse());
        assert(seq![s.last()].drop_last() =~= Seq::<char>::empty());
        let one = seq![s.last()];
        assert(one.len() == 1 && one.last() == s.last());
        assert(encode(one.drop_last()) == 0);
        assert(encode(one) == face_value(char_index(s.last())));
        assert(encode(s) == encode(t) + face_value(char_index(s.last())));
    } else {
        assert(s.reverse() =~= s);
    }
}

/// Packing a prefix never gives more than packing the whole sequence.
pub proof fn lemma_encode_prefix(s: Seq<char>, i: int)
    requires
        0 <= i <= s.len(),
    ensures
        encode(s.take(i)) <= encode(s),
    decreases s.len(),
{
    if i < s.len() {
        lemma_encode_prefix(s.drop_last(), i);
        assert(s.drop_last().take(i) =~= s.take(i));
    } else {
        assert(s.take(i) =~= s);
    }
}

/// The packed value of six face counts, face 1 first.
pub open spec fn from_counts(c: Seq<nat>) -> nat {
    c[0] + 7 * c[1] + 49 * c[2] + 343 * c[3] + 2401 * c[4] + 16807 * c[5]
}

/// The six face counts of a packed value, face 1 first.
pub open spec fn dice_counts(d: nat) -> Seq<nat> {
    seq![count(d, 1), count(d, 2), count(d, 3), count(d, 4), count(d, 5), count(d, 6)]
}

/// Six counts that fit the packing: each face below 6 keeps to its own base-7 digit.
pub open spec fn counts_fit(c: Seq<nat>) -> bool {
    c.len() == 6 && c[0] <= 6 && c[1] <= 6 && c[2] <= 6 && c[3] <= 6 && c[4] <= 6
}

/// How often each face occurs in `s`, face 1 first.
pub open spec fn occurrence_counts(s: Seq<char>) -> Seq<nat> {
    seq![
        occurrences(s, '1'),
        occurrences(s, '2'),
        occurrences(s, '3'),
        occurrences(s, '4'),
        occurrences(s, '5'),
        occurrences(s, '6'),
    ]
}

/// Division by `b` has one answer.
proof fn lemma_div_unique(x: int, b: int, q: int, r: int)
    requires
        b > 0,
        0 <= r < b,
        x == q * b + r,
    ensures
        x / b == q,
        x % b == r,
{
    lemma_fundamental_div_mod_converse(x, b, q, r);
}

/// Reading the digits of a packed value and packing them again gives the value back.
pub proof fn lemma_from_dice_counts(d: nat)
    ensures
        from_counts(dice_counts(d)) == d,
        counts_fit(dice_counts(d)),
{
    lemma_below_step(d, 1);
    lemma_below_step(d, 2);
    lemma_below_step(d, 3);
    lemma_below_step(d, 4);
    lemma_below_step(d, 5);
    lemma_below_step(d, 6);
    lemma_below_ends(d);
    assert(count(d, 1) * 1 < 7);
    assert(count(d, 2) * 7 < 49);
    assert(count(d, 3) * 49 < 343);
    assert(count(d, 4) * 343 < 2401);
    assert(count(d, 5) * 2401 < 16807);
}

/// Packing counts that fit and reading the digits back gives the counts.
pub proof fn lemma_dice_counts_of(c: Seq<nat>)
    requires
        counts_fit(c),
    ensures
        dice_counts(from_counts(c)) == c,
{
    let d = from_counts(c);
    lemma_below_ends(d);
    let r5 = c[0] + 7 * c[1] + 49 * c[2] + 343 * c[3] + 2401 * c[4];
    let r4 = c[0] + 7 * c[1] + 49 * c[2] + 343 * c[3];
    let r3 = c[0] + 7 * c[1] + 49 * c[2];
    let r2 = c[0] + 7 * c[1];
    let r1 = c[0];
    lemma_below_step(d, 6);
    lemma_below_step(d, 5);
    lemma_below_step(d, 4);
    lemma_below_step(d, 3);
    lemma_below_step(d, 2);
    lemma_below_step(d, 1);
    // face 6
    lemma_div_unique(d as int, 16807, count(d, 6) as int, below(d, 5) as int);
    lemma_div_unique(d as int, 16807, c[5] as int, r5 as int);
    // face 5
    lemma_div_unique(r5 as int, 2401, count(d, 5) as int, below(d, 4) as int);
    lemma_div_unique(r5 as int, 2401, c[4] as int, r4 as int);
    // face 4
    lemma_div_unique(r4 as int, 343, count(d, 4) as int, below(d, 3) as int);
    lemma_div_unique(r4 as int, 343, c[3] as int, r3 as int);
    // face 3
    lemma_div_unique(r3 as int, 49, count(d, 3) as int, below(d, 2) as int);
    lemma_div_unique(r3 as int, 49, c[2] as int, r2 as int);
    // face 2
    lemma_div_unique(r2 as int, 7, count(d, 2) as int, below(d, 1) as int);
    lemma_div_unique(r2 as int, 7, c[1] as int, r1 as int);
    lemma_below_ends(d);
    assert(count(d, 6) == c[5]);
    assert(below(d, 5) == r5);
    assert(count(d, 5) == c[4]);
    assert(below(d, 4) == r4);
    assert(count(d, 4) == c[3]);
    assert(below(d, 3) == r3);
    assert(count(d, 3) == c[2]);
    assert(below(d, 2) == r2);
    assert(count(d, 2) == c[1]);
    assert(below(d, 1) == r1);
    assert(count(d, 1) == c[0]);
    assert(dice_counts(d) =~= c);
}

/// A sequence of dice characters packs to the packed value of its face counts.
pub proof fn lemma_encode_is_from_counts(s: Seq<char>)
    requires
        all_dice_chars(s),
    ensures
        encode(s) == from_counts(occurrence_counts(s)),
    decreases s.len(),
{
    if s.len() > 0 {
        let t = s.drop_last();
        assert(all_dice_chars(t)) by {
            assert forall|j: int| 0 <= j < t.len() implies is_dice_char(#[trigger] t[j]) by {
                assert(t[j] == s[j]);
            }
        }
        lemma_encode_is_from_counts(t);
        assert(is_dice_char(s[s.len() - 1]));
    }
}

/// The order in which dice are written does not matter: two strings of dice
/// characters that hold the same characters pack to the same dice set.
pub proof fn lemma_encode_any_order(s: Seq<char>, t: Seq<char>)
    requires
        all_dice_chars(s),
        s.to_multiset() == t.to_multiset(),
    ensures
        all_dice_chars(t),
        encode(s) == encode(t),
{
    broadcast use vstd::seq_lib::group_to_multiset_ensures;
    assert forall|j: int| 0 <= j < t.len() implies is_dice_char(#[trigger] t[j]) by {
        assert(t.to_multiset().count(t[j]) > 0);
        assert(s.contains(t[j]));
    }
    lemma_encode_is_from_counts(s);
    lemma_encode_is_from_counts(t);
    assert forall|c: char| occurrences(s, c) == occurrences(t, c) by {
        lemma_multiset_occurrences(s, c);
        lemma_multiset_occurrences(t, c);
    }
    assert(occurrence_counts(s) == occurrence_counts(t)) by {
        assert(occurrences(s, '1') == occurrences(t, '1'));
        assert(occurrences(s, '2') == occurrences(t, '2'));
        assert(occurrences(s, '3') == occurrences(t, '3'));
        assert(occurrences(s, '4') == occurrences(t, '4'));
        assert(occurrences(s, '5') == occurrences(t, '5'));
        assert(occurrences(s, '6') == occurrences(t, '6'));
    }
}

/// Packing dice characters whose faces keep to their digits and reading
/// the digits back gives how often each face occurs.
pub proof fn lemma_counts_of_encode(s: Seq<char>)
    requires
        all_dice_chars(s),
        digits_fit(s),
    ensures
        dice_counts(encode(s)) == occurrence_counts(s),
{
    lemma_encode_is_from_counts(s);
    assert(occurrences(s, index_char(1)) <= 6);
    assert(occurrences(s, index_char(2)) <= 6);
    assert(occurrences(s, index_char(3)) <= 6);
    assert(occurrences(s, index_char(4)) <= 6);
    assert(occurrences(s, index_char(5)) <= 6);
    lemma_dice_counts_of(occurrence_counts(s));
}

/// The sorted string of a packed string is its dice sorted by face, as long
/// as each face below 6 keeps to its digit.
pub proof fn lemma_sorted_string_of_encode(s: Seq<char>)
    requires
        all_dice_chars(s),
        digits_fit(s),
    ensures
        sorted_string(encode(s)) == sorted_faces(s),
{
    lemma_counts_of_encode(s);
    let d = encode(s);
    assert(dice_counts(d)[0] == count(d, 1));
    assert(forall|f: int| 1 <= f <= 6 ==> #[trigger] count(d, f) == occurrences(s, index_char(f)))
        by {
        assert(dice_counts(d)[1] == count(d, 2));
        assert(dice_counts(d)[2] == count(d, 3));
        assert(dice_counts(d)[3] == count(d, 4));
        assert(dice_counts(d)[4] == count(d, 5));
        assert(dice_counts(d)[5] == count(d, 6));
    }
    lemma_ascending_faces(d, s, 6);
}

/// Sorting the dice of a packed value and sorting characters with the same
/// face counts give the same sequence.
proof fn lemma_ascending_faces(d: nat, s: Seq<char>, f: int)
    requires
        0 <= f <= 6,
        forall|g: int| 1 <= g <= 6 ==> #[trigger] count(d, g) == occurrences(s, index_char(g)),
    ensures
        ascending_to(d, f) == faces_up_to(s, f),
    decreases f,
{
    if f >= 1 {
        lemma_ascending_faces(d, s, f - 1);
        assert(count(d, f) == occurrences(s, index_char(f)));
    }
}

/// The union of two dice sets whose counts fit together counts the dice of both.
pub proof fn lemma_combine_counts(d1: nat, d2: nat)
    requires
        forall|i: int| 0 <= i < 5 ==> dice_counts(d1)[i] + dice_counts(d2)[i] <= 6,
    ensures
        forall|i: int| 0 <= i < 6 ==> #[trigger] dice_counts(d1 + d2)[i] == dice_counts(d1)[i] + dice_counts(d2)[i],
{
    lemma_from_dice_counts(d1);
    lemma_from_dice_counts(d2);
    let c = Seq::new(6, |i: int| dice_counts(d1)[i] + dice_counts(d2)[i]);
    assert(counts_fit(c)) by {
        assert(c[0] <= 6 && c[1] <= 6 && c[2] <= 6 && c[3] <= 6 && c[4] <= 6);
    }
    assert(from_counts(c) == d1 + d2);
    lemma_dice_counts_of(c);
}

/// Taking from a dice set a dice set that it holds counts the dice that are left.
pub proof fn lemma_subtract_counts(d: nat, m: nat)
    requires
        forall|i: int| 0 <= i < 6 ==> dice_counts(m)[i] <= dice_counts(d)[i],
    ensures
        m <= d,
        forall|i: int| 0 <= i < 6 ==> #[trigger] dice_counts((d - m) as nat)[i] == dice_counts(d)[i] - dice_counts(m)[i],
{
    lemma_from_dice_counts(d);
    lemma_from_dice_counts(m);
    let c = Seq::new(6, |i: int| (dice_counts(d)[i] - dice_counts(m)[i]) as nat);
    assert(counts_fit(c));
    assert(from_counts(c) + m == d);
    lemma_dice_counts_of(c);
}

/// How often `c` occurs in two sequences one after the other.
pub proof fn lemma_occurrences_concat(a: Seq<char>, b: Seq<char>, c: char)
    ensures
        occurrences(a + b, c) == occurrences(a, c) + occurrences(b, c),
    decreases b.len(),
{
    if b.len() == 0 {
        assert(a + b =~= a);
    } else {
        lemma_occurrences_concat(a, b.drop_last(), c);
        assert((a + b).drop_last() =~= a + b.drop_last());
    }
}

/// How often `c` occurs in `n` copies of `x`.
pub proof fn lemma_occurrences_repeat(x: char, n: nat, c: char)
    ensures
        occurrences(repeat_char(x, n), c) == if x == c { n } else { 0 },
    decreases n,
{
    if n > 0 {
        lemma_occurrences_repeat(x, (n - 1) as nat, c);
        assert(repeat_char(x, n).drop_last() =~= repeat_char(x, (n - 1) as nat));
    }
}

/// The faces up to `f`, highest first, hold each face as often as its digit says.
pub proof fn lemma_descending_occurrences(d: nat, f: int, g: int)
    requires
        0 <= f <= 6,
        1 <= g <= 6,
    ensures
        occurrences(descending_from(d, f), index_char(g)) == if g <= f { count(d, g) } else { 0 },
    decreases f,
{
    if f > 0 {
        lemma_descending_occurrences(d, f - 1, g);
        lemma_occurrences_concat(
            repeat_char(index_char(f), count(d, f)),
            descending_from(d, f - 1),
            index_char(g),
        );
        lemma_occurrences_repeat(index_char(f), count(d, f), index_char(g));
    }
}

/// The human readable form holds each face as often as the dice set counts it.
pub proof fn lemma_human_readable_occurrences(d: nat, g: int)
    requires
        1 <= g <= 6,
    ensures
        occurrences(human_readable(d), index_char(g)) == count(d, g),
{
    lemma_descending_occurrences(d, 6, g);
}

/// A multiset of a sequence counts each character as often as it occurs.
pub proof fn lemma_multiset_occurrences(s: Seq<char>, c: char)
    ensures
        s.to_multiset().count(c) == occurrences(s, c),
    decreases s.len(),
{
    broadcast use vstd::seq_lib::to_multiset_build, vstd::multiset::group_multiset_axioms;
    if s.len() == 0 {
        assert(s.to_multiset() =~= Multiset::<char>::empty()) by {
            broadcast use vstd::seq_lib::group_seq_properties;
        }
    } else {
        let t = s.drop_last();
        lemma_multiset_occurrences(t, c);
        assert(t.push(s.last()) =~= s);
    }
}

/// A roll: a packed set of at most six dice.
pub open spec fn is_roll(d: nat) -> bool {
    d < MAX_VAL && num_dice(d) <= 6
}

/// The counts of `n` dice of face `f` and none of the others.
pub open spec fn unit_counts(f: int, n: nat) -> Seq<nat> {
    Seq::new(6, |i: int| if i == f - 1 { n } else { 0nat })
}

/// `n` dice of face `f` weigh `n` times the face's weight, and no more than a set that holds them.
pub proof fn lemma_meld_le(d: nat, f: int, n: nat)
    requires
        1 <= f <= 6,
        n <= count(d, f),
    ensures
        n * face_value(f) <= d,
        n >= 1 ==> n * face_value(f) >= 1,
{
    lemma_from_dice_counts(d);
    assert(dice_counts(d)[f - 1] == count(d, f));
    assert(face_value(f) >= 1);
    assert(n >= 1 ==> n * face_value(f) >= 1) by (nonlinear_arith)
        requires
            face_value(f) >= 1,
    ;
}

/// The counts of `n` dice of face `f` pack to `n` times the face's weight.
proof fn lemma_unit_counts(f: int, n: nat)
    requires
        1 <= f <= 6,
        n <= 6,
    ensures
        counts_fit(unit_counts(f, n)),
        from_counts(unit_counts(f, n)) == n * face_value(f),
        dice_counts(n * face_value(f)) == unit_counts(f, n),
{
    let e = unit_counts(f, n);
    if f == 1 {
        assert(e[0] == (if f == 1 { n } else { 0 }));
        assert(from_counts(e) == n);
        assert(f == 1);
        assert(face_value(f) == 1);
        assert(n * face_value(f) == n) by (nonlinear_arith)
            requires
                face_value(f) == 1,
        ;
    } else if f == 2 {
        assert(e[0] == (if f == 1 { n } else { 0 }));
        assert(from_counts(e) == 7 * n);
        assert(f == 2);
        assert(face_value(f) == 7);
        assert(n * face_value(f) == 7 * n) by (nonlinear_arith)
            requires
                face_value(f) == 7,
        ;
    } else if f == 3 {
        assert(e[0] == (if f == 1 { n } else { 0 }));
        assert(from_counts(e) == 49 * n);
        assert(f == 3);
        assert(face_value(f) == 49);
        assert(n * face_value(f) == 49 * n) by (nonlinear_arith)
            requires
                face_value(f) == 49,
        ;
    } else if f == 4 {
        assert(e[0] == (if f == 1 { n } else { 0 }));
        assert(from_counts(e) == 343 * n);
        assert(f == 4);
        assert(face_value(f) == 343);
        assert(n * face_value(f) == 343 * n) by (nonlinear_arith)
            requires
                face_value(f) == 343,
        ;
    } else if f == 5 {
        assert(e[0] == (if f == 1 { n } else { 0 }));
        assert(from_counts(e) == 2401 * n);
        assert(f == 5);
        assert(face_value(f) == 2401);
        assert(n * face_value(f) == 2401 * n) by (nonlinear_arith)
            requires
                face_value(f) == 2401,
        ;
    } else {
        assert(e[0] == (if f == 1 { n } else { 0 }));
        assert(from_counts(e) == 16807 * n);
        assert(f == 6);
        assert(face_value(f) == 16807);
        assert(n * face_value(f) == 16807 * n) by (nonlinear_arith)
            requires
                face_value(f) == 16807,
        ;
    }
    lemma_dice_counts_of(e);
}

/// Taking `n` dice of face `f` out of a roll that holds them leaves a roll with
/// `n` dice fewer, the other faces untouched.
pub proof fn lemma_take_kind(d: nat, f: int, n: nat)
    requires
        is_roll(d),
        1 <= f <= 6,
        1 <= n <= count(d, f),
    ensures
        n * face_value(f) <= d,
        is_roll((d - n * face_value(f)) as nat),
        num_dice((d - n * face_value(f)) as nat) == num_dice(d) - n,
        forall|g: int|
            1 <= g <= 6 ==> #[trigger] count((d - n * face_value(f)) as nat, g) == count(d, g) - (
            if g == f {
                n
            } else {
                0
            }),
{
    lemma_meld_le(d, f, n);
    let m = n * face_value(f);
    assert(n <= 6) by {
        assert(num_dice(d) <= 6);
    }
    lemma_unit_counts(f, n);
    let e = unit_counts(f, n);
    assert forall|i: int| 0 <= i < 6 implies dice_counts(m)[i] <= dice_counts(d)[i] by {
        assert(dice_counts(d)[f - 1] == count(d, f));
    }
    lemma_subtract_counts(d, m);
    let r = (d - m) as nat;
    assert forall|g: int| 1 <= g <= 6 implies #[trigger] count(r, g) == count(d, g) - (if g == f {
        n
    } else {
        0
    }) by {
        assert(dice_counts(r)[g - 1] == count(r, g));
        assert(dice_counts(d)[g - 1] == count(d, g));
        assert(dice_counts(m)[g - 1] == e[g - 1]);
    }
    assert(count(r, 1) == dice_counts(r)[0]);
}

/// Six dice, one of each face, pack to this value.
pub open spec fn straight_value() -> nat {
    19608
}

/// Taking one die of each face out of a roll that holds them leaves a roll six dice smaller.
pub proof fn lemma_take_straight(d: nat)
    requires
        is_roll(d),
        forall|g: int| 1 <= g <= 6 ==> count(d, g) >= 1,
    ensures
        straight_value() <= d,
        is_roll((d - straight_value()) as nat),
        num_dice((d - straight_value()) as nat) == num_dice(d) - 6,
        forall|g: int|
            1 <= g <= 6 ==> #[trigger] count((d - straight_value()) as nat, g) == count(d, g) - 1,
{
    lemma_from_dice_counts(d);
    let e = Seq::new(6, |i: int| 1nat);
    assert(counts_fit(e));
    assert(from_counts(e) == straight_value());
    lemma_dice_counts_of(e);
    let m = straight_value();
    assert(count(d, 1) >= 1 && count(d, 2) >= 1 && count(d, 3) >= 1 && count(d, 4) >= 1 && count(
        d,
        5,
    ) >= 1 && count(d, 6) >= 1);
    assert forall|i: int| 0 <= i < 6 implies dice_counts(m)[i] <= dice_counts(d)[i] by {
        assert(dice_counts(m)[i] == 1);
    }
    lemma_subtract_counts(d, m);
    let r = (d - m) as nat;
    assert forall|g: int| 1 <= g <= 6 implies #[trigger] count(r, g) == count(d, g) - 1 by {
        assert(dice_counts(r)[g - 1] == count(r, g));
        assert(dice_counts(d)[g - 1] == count(d, g));
        assert(dice_counts(m)[g - 1] == 1);
    }
    assert(count(r, 1) == dice_counts(r)[0]);
}

/// A character that occurs nowhere in `s` has no occurrences.
proof fn lemma_occurrences_absent(s: Seq<char>, c: char)
    requires
        forall|i: int| 0 <= i < s.len() ==> s[i] != c,
    ensures
        occurrences(s, c) == 0,
    decreases s.len(),
{
    if s.len() > 0 {
        lemma_occurrences_absent(s.drop_last(), c);
    }
}

/// Appending a face no lower than any face of `t` puts it last among the sorted faces.
proof fn lemma_faces_up_to_push(t: Seq<char>, x: char, f: int)
    requires
        is_face_char(x),
        0 <= f <= 6,
        forall|i: int| 0 <= i < t.len() ==> char_index(#[trigger] t[i]) <= char_index(x),
        forall|i: int| 0 <= i < t.len() ==> is_face_char(#[trigger] t[i]),
    ensures
        faces_up_to(t.push(x), f) == if f >= char_index(x) {
            faces_up_to(t, f).push(x)
        } else {
            faces_up_to(t, f)
        },
    decreases f,
{
    let s = t.push(x);
    if f >= 1 {
        lemma_faces_up_to_push(t, x, f - 1);
        let c = index_char(f);
        assert(s.drop_last() =~= t);
        assert(occurrences(s, c) == occurrences(t, c) + if x == c { 1nat } else { 0nat });
        if f > char_index(x) {
            assert forall|i: int| 0 <= i < t.len() implies t[i] != c by {
                assert(char_index(t[i]) <= char_index(x));
            }
            lemma_occurrences_absent(t, c);
            assert(x != c);
            assert(repeat_char(c, 0) =~= Seq::<char>::empty());
            assert(faces_up_to(s, f) =~= faces_up_to(s, f - 1));
            assert(faces_up_to(t, f) =~= faces_up_to(t, f - 1));
        } else if f == char_index(x) {
            assert(x == c);
            assert(repeat_char(c, occurrences(t, c) + 1) =~= repeat_char(c, occurrences(t, c)).push(
                c,
            ));
            assert(faces_up_to(s, f) =~= faces_up_to(t, f).push(x));
        } else {
            assert(x != c);
        }
    }
}

/// Face characters in nondecreasing order are already sorted.
pub proof fn lemma_sorted_faces_of_sorted(s: Seq<char>)
    requires
        is_sorted_faces(s),
    ensures
        sorted_faces(s) == s,
    decreases s.len(),
{
    if s.len() == 0 {
        reveal_with_fuel(faces_up_to, 7);
        assert(sorted_faces(s) =~= s);
    } else {
        let t = s.drop_last();
        let x = s.last();
        assert(is_sorted_faces(t)) by {
            assert forall|i: int, j: int| 0 <= i <= j < t.len() implies char_index(
                #[trigger] t[i],
            ) <= char_index(#[trigger] t[j]) by {
                assert(t[i] == s[i] && t[j] == s[j]);
            }
        }
        lemma_sorted_faces_of_sorted(t);
        assert forall|i: int| 0 <= i < t.len() implies char_index(#[trigger] t[i]) <= char_index(x)
            by {
            assert(t[i] == s[i]);
        }
        assert(t.push(x) =~= s);
        assert(is_face_char(s[s.len() - 1]));
        lemma_faces_up_to_push(t, x, 6);
    }
}

/// The sorted string of a dice set lists faces 1 up to `f` in nondecreasing order.
proof fn lemma_ascending_sorted(d: nat, f: int)
    requires
        0 <= f <= 6,
    ensures
        is_sorted_faces(ascending_to(d, f)),
        forall|i: int|
            0 <= i < ascending_to(d, f).len() ==> char_index(#[trigger] ascending_to(d, f)[i]) <= f,
    decreases f,
{
    if f >= 1 {
        lemma_ascending_sorted(d, f - 1);
        let a = ascending_to(d, f - 1);
        let r = repeat_char(index_char(f), count(d, f));
        let s = a + r;
        assert forall|i: int, j: int| 0 <= i <= j < s.len() implies char_index(#[trigger] s[i])
            <= char_index(#[trigger] s[j]) by {
            if i < a.len() && j >= a.len() {
                assert(char_index(a[i]) <= f - 1);
            }
        }
    }
}

/// The sorted string of a dice set is its dice in nondecreasing order, one per die.
pub proof fn lemma_sorted_string_sorted(d: nat)
    ensures
        is_sorted_faces(sorted_string(d)),
        sorted_string(d).len() == num_dice(d),
{
    lemma_ascending_sorted(d, 6);
    lemma_ascending_is_reverse(d, 6);
    lemma_descending_len(d, 6);
}

/// Face characters hold as many faces in all as they are long.
proof fn lemma_face_occurrences_sum(s: Seq<char>)
    requires
        forall|i: int| 0 <= i < s.len() ==> is_face_char(#[trigger] s[i]),
    ensures
        occurrences(s, '1') + occurrences(s, '2') + occurrences(s, '3') + occurrences(s, '4')
            + occurrences(s, '5') + occurrences(s, '6') == s.len(),
    decreases s.len(),
{
    if s.len() > 0 {
        let t = s.drop_last();
        assert forall|i: int| 0 <= i < t.len() implies is_face_char(#[trigger] t[i]) by {
            assert(t[i] == s[i]);
        }
        lemma_face_occurrences_sum(t);
        assert(is_face_char(s[s.len() - 1]));
    }
}

/// At most six face characters pack to a roll with one die per character,
/// holding each face as often as it occurs.
pub proof fn lemma_encode_roll(s: Seq<char>)
    requires
        forall|i: int| 0 <= i < s.len() ==> is_face_char(#[trigger] s[i]),
        s.len() <= 6,
    ensures
        is_roll(encode(s)),
        num_dice(encode(s)) == s.len(),
        dice_counts(encode(s)) == occurrence_counts(s),
{
    lemma_face_occurrences_sum(s);
    assert(all_dice_chars(s)) by {
        assert forall|j: int| 0 <= j < s.len() implies is_dice_char(#[trigger] s[j]) by {
            assert(is_face_char(s[j]));
        }
    }
    assert(digits_fit(s)) by {
        assert forall|f: int| 1 <= f <= 5 implies occurrences(s, #[trigger] index_char(f)) <= 6 by {
        }
    }
    lemma_counts_of_encode(s);
    lemma_encode_is_from_counts(s);
    let d = encode(s);
    assert(count(d, 1) == dice_counts(d)[0]);
    assert(count(d, 2) == dice_counts(d)[1]);
    assert(count(d, 3) == dice_counts(d)[2]);
    assert(count(d, 4) == dice_counts(d)[3]);
    assert(count(d, 5) == dice_counts(d)[4]);
    assert(count(d, 6) == dice_counts(d)[5]);
}

/// The human readable form holds only face characters.
pub proof fn lemma_descending_faces(d: nat, f: int)
    requires
        0 <= f <= 6,
    ensures
        forall|i: int| 0 <= i < descending_from(d, f).len() ==> is_face_char(#[trigger] descending_from(d, f)[i]),
    decreases f,
{
    if f >= 1 {
        lemma_descending_faces(d, f - 1);
        let r = repeat_char(index_char(f), count(d, f));
        let rest = descending_from(d, f - 1);
        assert forall|i: int| 0 <= i < (r + rest).len() implies is_face_char(#[trigger] (r + rest)[i]) by {
            if i >= r.len() {
                assert((r + rest)[i] == rest[i - r.len()]);
            }
        }
    }
}

// ---------------------------------------------------------------------------
// Executable functions
// ---------------------------------------------------------------------------

/// The six face characters, `'1'` to `'6'`.
pub fn get_chars() -> (r: &'static [char])
    ensures
        r@ == seq!['1', '2', '3', '4', '5', '6'],
{
    let r: &'static [char] = &FACE_CHARS;
    assert(r@ =~= seq!['1', '2', '3', '4', '5', '6']);
    r
}

/// The empty dice set.
pub fn empty() -> (d: DiceSet)
    ensures
        d == 0,
        encode(Seq::empty()) == d,
{
    0
}

/// The union of two dice sets.
pub fn combine_diceset(d1: DiceSet, d2: DiceSet) -> (d: DiceSet)
    requires
        d1 + d2 <= u32::MAX,
    ensures
        d == d1 + d2,
{
    d1 + d2
}

/// The one-character string of face `i`.
fn face_str(i: usize) -> (s: &'static str)
    requires
        1 <= i <= 6,
    ensures
        s@ == seq![index_char(i as int)],
{
    proof {
        reveal_strlit("1");
        reveal_strlit("2");
        reveal_strlit("3");
        reveal_strlit("4");
        reveal_strlit("5");
        reveal_strlit("6");
    }
    if i == 1 {
        "1"
    } else if i == 2 {
        "2"
    } else if i == 3 {
        "3"
    } else if i == 4 {
        "4"
    } else if i == 5 {
        "5"
    } else {
        "6"
    }
}

/// The dice of `d`, one single-character string per die, highest face first.
pub fn to_human_readable(d: DiceSet) -> (res: Vec<String>)
    ensures
        res@.len() == human_readable(d as nat).len(),
        forall|j: int|
            0 <= j < res@.len() ==> (#[trigger] res@[j])@ == seq![human_readable(d as nat)[j]],
{
    let ghost d0 = d as nat;
    let mut res: Vec<String> = Vec::new();
    let mut d = d;
    let mut i: usize = 6;
    proof {
        lemma_below_ends(d0);
    }
    while i >= 1
        invariant
            0 <= i <= 6,
            d == below(d0, i as int),
            ({
                let done = res@.map_values(|s: String| s@[0]);
                done + descending_from(d0, i as int) == human_readable(d0)
            }),
            forall|j: int| 0 <= j < res@.len() ==> (#[trigger] res@[j])@.len() == 1,
        decreases i,
    {
        let m = d / POWS[i];
        let ghost before = res@;
        proof {
            lemma_count_def(d0, i as int);
        }
        assert(m == count(d0, i as int));
        let mut t: u32 = 0;
        while t < m
            invariant
                0 <= t <= m,
                1 <= i <= 6,
                res@.len() == before.len() + t,
                forall|j: int| 0 <= j < before.len() ==> res@[j] == before[j],
                forall|j: int| 0 <= j < before.len() ==> (#[trigger] before[j])@.len() == 1,
                forall|j: int|
                    before.len() <= j < res@.len() ==> (#[trigger] res@[j])@ == seq![
                        index_char(i as int),
                    ],
            decreases m - t,
        {
            res.push(String::from_str(face_str(i)));
            t = t + 1;
        }
        assert forall|j: int| 0 <= j < res@.len() implies (#[trigger] res@[j])@.len() == 1 by {
            if j < before.len() {
                assert(res@[j] == before[j]);
            }
        }
        proof {
            lemma_below_step(d0, i as int);
            let done_before = before.map_values(|s: String| s@[0]);
            let done = res@.map_values(|s: String| s@[0]);
            let r = repeat_char(index_char(i as int), count(d0, i as int));
            assert(done =~= done_before + r) by {
                assert forall|j: int| 0 <= j < done.len() implies done[j] == (done_before + r)[j] by {
                    if j < before.len() {
                    } else {
                        assert(res@[j]@ == seq![index_char(i as int)]);
                    }
                }
            }
            assert(descending_from(d0, i as int) == r + descending_from(d0, i - 1));
            assert(done + descending_from(d0, i - 1) =~= done_before + descending_from(
                d0,
                i as int,
            ));
            assert((m * POWS[i as int]) as int == count(d0, i as int) * face_value(i as int));
        }
        d = d - m * POWS[i];
        i = i - 1;
    }
    proof {
        let done = res@.map_values(|s: String| s@[0]);
        assert(descending_from(d0, 0) =~= Seq::<char>::empty());
        assert(done + descending_from(d0, 0) =~= done);
        assert forall|j: int| 0 <= j < res@.len() implies (#[trigger] res@[j])@ == seq![
            human_readable(d0)[j],
        ] by {
            assert(done[j] == res@[j]@[0]);
            assert(res@[j]@ =~= seq![res@[j]@[0]]);
        }
    }
    res
}

/// The dice of `d` as one string, lowest face first.
pub fn to_sorted_string(d: DiceSet) -> (s: String)
    ensures
        s@ == sorted_string(d as nat),
{
    let hr = to_human_readable(d);
    let ghost h = human_readable(d as nat);
    let mut s = String::new();
    let mut j = hr.len();
    while j > 0
        invariant
            0 <= j <= hr@.len(),
            hr@.len() == h.len(),
            forall|k: int| 0 <= k < hr@.len() ==> (#[trigger] hr@[k])@ == seq![h[k]],
            s@ =~= h.subrange(j as int, h.len() as int).reverse(),
        decreases j,
    {
        j = j - 1;
        let ghost before = s@;
        s.append(hr[j].as_str());
        proof {
            assert(hr@[j as int]@ == seq![h[j as int]]);
            assert(h.subrange(j as int, h.len() as int).reverse() =~= before + seq![h[j as int]]);
        }
    }
    proof {
        lemma_ascending_is_reverse(d as nat, 6);
        assert(h.subrange(0, h.len() as int) =~= h);
    }
    s
}

/// The packed value of character index `ind` (0 to 6).
pub fn from_ind(ind: usize) -> (d: DiceSet)
    requires
        ind < 7,
    ensures
        d == face_value(ind as int),
{
    POWS[ind]
}

/// The packed value of one character of the human readable form.
pub fn from_char(c: char) -> (d: DiceSet)
    requires
        is_dice_char(c),
    ensures
        d == face_value(char_index(c)),
{
    let mut pos: usize = 0;
    while pos < 7
        invariant
            0 <= pos <= 7,
            pos <= char_index(c),
        decreases 7 - pos,
    {
        if CHARS[pos] == c {
            return from_ind(pos);
        }
        pos = pos + 1;
    }
    proof {
        assert(false);
    }
    0
}

/// The packed value of a sequence of characters.
pub fn from_human_readable(readable: Vec<char>) -> (d: DiceSet)
    requires
        all_dice_chars(readable@),
        encode(readable@) <= u32::MAX,
    ensures
        d == encode(readable@),
{
    let mut res: DiceSet = empty();
    let n = readable.len();
    for i in 0..n
        invariant
            n == readable@.len(),
            all_dice_chars(readable@),
            encode(readable@) <= u32::MAX,
            res == encode(readable@.take(i as int)),
    {
        proof {
            assert(readable@.take(i + 1).drop_last() =~= readable@.take(i as int));
            lemma_encode_prefix(readable@, i + 1);
            assert(is_dice_char(readable@[i as int]));
        }
        res = combine_diceset(res, from_char(readable[i]));
    }
    proof {
        assert(readable@.take(n as int) =~= readable@);
    }
    res
}

/// The packed value of a string of dice characters.
pub fn from_string(readable: &str) -> (d: DiceSet)
    requires
        all_dice_chars(readable@),
        encode(readable@) <= u32::MAX,
    ensures
        d == encode(readable@),
{
    let n = readable.unicode_len();
    let mut chars: Vec<char> = Vec::new();
    for i in 0..n
        invariant
            n == readable@.len(),
            chars@ == readable@.take(i as int),
    {
        chars.push(readable.get_char(i));
        proof {
            assert(chars@ =~= readable@.take(i + 1));
        }
    }
    proof {
        assert(readable@.take(n as int) =~= readable@);
    }
    from_human_readable(chars)
}

/// Whether `c` is a character of the human readable form.
fn is_dice_char_exec(c: char) -> (r: bool)
    ensures
        r == is_dice_char(c),
{
    c == '_' || c == '1' || c == '2' || c == '3' || c == '4' || c == '5' || c == '6'
}

/// The packed value of a string of dice characters, or `None` where the string
/// holds another character or its value does not fit in a `DiceSet`.
pub fn try_from_string(readable: &str) -> (r: Option<DiceSet>)
    ensures
        r == (if all_dice_chars(readable@) && encode(readable@) <= u32::MAX {
            Some(encode(readable@) as DiceSet)
        } else {
            None
        }),
{
    let ghost s = readable@;
    let n = readable.unicode_len();
    let mut res: DiceSet = empty();
    for i in 0..n
        invariant
            n == s.len(),
            s == readable@,
            all_dice_chars(s.take(i as int)),
            res == encode(s.take(i as int)),
    {
        let c = readable.get_char(i);
        proof {
            assert(s.take(i + 1).drop_last() =~= s.take(i as int));
            assert(s.take(i + 1).last() == c);
        }
        if !is_dice_char_exec(c) {
            proof {
                assert(!is_dice_char(s[i as int]));
            }
            return None;
        }
        let v = from_char(c);
        if res > u32::MAX - v {
            proof {
                lemma_encode_prefix(s, i + 1);
            }
            return None;
        }
        res = res + v;
        proof {
            assert forall|j: int| 0 <= j < i + 1 implies is_dice_char(#[trigger] s.take(i + 1)[j]) by {
                if j < i {
                    assert(s.take(i + 1)[j] == s.take(i as int)[j]);
                }
            }
        }
    }
    proof {
        assert(s.take(n as int) =~= s);
    }
    Some(res)
}

/// The first characters of the strings of `v`.
pub open spec fn first_chars(v: Seq<&String>) -> Seq<char> {
    v.map_values(|s: &String| s@[0])
}

/// The packed value of a list of dice strings, each read by its first character.
pub fn from_human_readable_str(readable: &Vec<&String>) -> (d: DiceSet)
    requires
        forall|j: int| 0 <= j < readable@.len() ==> (#[trigger] readable@[j])@.len() > 0,
        all_dice_chars(first_chars(readable@)),
        encode(first_chars(readable@)) <= u32::MAX,
    ensures
        d == encode(first_chars(readable@)),
{
    let mut res: Vec<char> = Vec::new();
    let n = readable.len();
    for i in 0..n
        invariant
            n == readable@.len(),
            forall|j: int| 0 <= j < readable@.len() ==> (#[trigger] readable@[j])@.len() > 0,
            res@ == first_chars(readable@).take(i as int),
    {
        let s: &String = readable[i];
        let c = s.as_str().get_char(0);
        res.push(c);
        proof {
            assert(res@ =~= first_chars(readable@).take(i + 1));
        }
    }
    proof {
        assert(first_chars(readable@).take(n as int) =~= first_chars(readable@));
    }
    from_human_readable(res)
}

/// The dice of `d1` without the dice written in `s`.
pub fn subtract_dice(d1: DiceSet, s: &str) -> (d: DiceSet)
    requires
        all_dice_chars(s@),
        encode(s@) <= d1,
    ensures
        d == d1 - encode(s@),
{
    d1 - from_string(s)
}

} // verus!

verus! {

/// The frequency of each face character among the dice of `d`.
pub fn get_freqdist(d: DiceSet) -> (fd: FrequencyDistribution<char>)
    ensures
        freq_contents(fd) == human_readable(d as nat).to_multiset(),
        freq_total(fd) == human_readable(d as nat).len(),
{
    broadcast use vstd::seq_lib::to_multiset_build;
    let mut freqdist = freqdist_new();
    let hr = to_human_readable(d);
    let ghost h = human_readable(d as nat);
    let n = hr.len();
    proof {
        assert(h.take(0).to_multiset() =~= Multiset::<char>::empty()) by {
            broadcast use vstd::seq_lib::group_seq_properties;
        }
    }
    for i in 0..n
        invariant
            n == hr@.len(),
            hr@.len() == h.len(),
            forall|j: int| 0 <= j < hr@.len() ==> (#[trigger] hr@[j])@ == seq![h[j]],
            freq_contents(freqdist) == h.take(i as int).to_multiset(),
            freq_total(freqdist) == i,
    {
        let s: &String = &hr[i];
        proof {
            assert(hr@[i as int]@ == seq![h[i as int]]);
        }
        let c = s.as_str().get_char(0);
        freqdist_insert(&mut freqdist, c);
        proof {
            assert(c == h[i as int]);
            assert(h.take(i + 1) =~= h.take(i as int).push(c));
            vstd::seq_lib::to_multiset_build(h.take(i as int), c);
        }
    }
    proof {
        assert(h.take(n as int) =~= h);
    }
    freqdist
}

} // verus!

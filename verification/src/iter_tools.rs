//! The enumerations of the `itertools` crate that the tables are built from,
//! and the language in which their results are stated: a result lists the
//! items picked by each sequence of indices, the index sequences taken in
//! strictly increasing lexicographic order, none missing.
use vstd::prelude::*;
use itertools::Itertools;

verus! {

/// `idx` is `k` indices below `n`.
pub open spec fn indices_below(idx: Seq<int>, n: int, k: int) -> bool {
    &&& idx.len() == k
    &&& forall|j: int| 0 <= j < idx.len() ==> 0 <= #[trigger] idx[j] < n
}

/// `idx` is `k` strictly increasing indices below `n`: a choice of `k` positions.
pub open spec fn is_combination(idx: Seq<int>, n: int, k: int) -> bool {
    &&& indices_below(idx, n, k)
    &&& forall|i: int, j: int| 0 <= i < j < idx.len() ==> #[trigger] idx[i] < #[trigger] idx[j]
}

/// `idx` is `k` nondecreasing indices below `n`: a choice of `k` positions, each usable again.
pub open spec fn is_combination_with_replacement(idx: Seq<int>, n: int, k: int) -> bool {
    &&& indices_below(idx, n, k)
    &&& forall|i: int, j: int| 0 <= i <= j < idx.len() ==> #[trigger] idx[i] <= #[trigger] idx[j]
}

/// `a` comes before `b` in lexicographic order.
pub open spec fn lex_less(a: Seq<int>, b: Seq<int>) -> bool {
    exists|p: int|
        0 <= p < a.len() && p < b.len() && a[p] < b[p] && (forall|q: int|
            0 <= q < p ==> #[trigger] a[q] == b[q])
}

/// `ids` lists exactly the index sequences that satisfy `valid`, in strictly
/// increasing lexicographic order.
pub open spec fn lex_enumeration(ids: Seq<Seq<int>>, valid: spec_fn(Seq<int>) -> bool) -> bool {
    &&& forall|i: int| 0 <= i < ids.len() ==> valid(#[trigger] ids[i])
    &&& forall|idx: Seq<int>| #[trigger] valid(idx) ==> ids.contains(idx)
    &&& forall|i: int, j: int| 0 <= i < j < ids.len() ==> lex_less(#[trigger] ids[i], #[trigger] ids[j])
}

/// The items that the indices `idx` pick out of `items`.
pub open spec fn pick<A>(items: Seq<A>, idx: Seq<int>) -> Seq<A> {
    idx.map_values(|j: int| items[j])
}

/// `rows` lists, for each index sequence that satisfies `valid` in strictly
/// increasing lexicographic order, the items of `items` that it picks.
pub open spec fn lists_picks<A>(
    rows: Seq<Seq<A>>,
    items: Seq<A>,
    valid: spec_fn(Seq<int>) -> bool,
) -> bool {
    exists|ids: Seq<Seq<int>>|
        {
            &&& lex_enumeration(ids, valid)
            &&& rows.len() == ids.len()
            &&& forall|i: int| 0 <= i < ids.len() ==> #[trigger] rows[i] == pick(items, ids[i])
        }
}

/// The rows of a vector of vectors, as sequences.
pub open spec fn rows_of<A>(r: Seq<Vec<A>>) -> Seq<Seq<A>> {
    r.map_values(|v: Vec<A>| v@)
}

/// The rows of a vector of vectors of strings, as sequences of character sequences.
pub open spec fn string_rows_of(r: Seq<Vec<String>>) -> Seq<Seq<Seq<char>>> {
    r.map_values(|v: Vec<String>| v@.map_values(|s: String| s@))
}

/// `Itertools::combinations_with_replacement`: the source keeps `k` nondecreasing
/// indices into the items, starts from all zeros and advances them to the next
/// nondecreasing sequence in lexicographic order until none is left; each step
/// yields the items at the indices. So the result lists, for every nondecreasing
/// sequence of `k` indices in lexicographic order, the items it picks.
#[verifier::external_body]
pub fn combinations_with_replacement_of(items: &[char], k: usize) -> (r: Vec<Vec<char>>)
    ensures
        lists_picks(
            rows_of(r@),
            items@,
            |idx: Seq<int>| is_combination_with_replacement(idx, items@.len() as int, k as int),
        ),
{
    items.iter().copied().combinations_with_replacement(k).collect()
}

/// `Itertools::combinations`: the source keeps `k` strictly increasing indices
/// into the items, starts from `0, 1, .., k-1` and advances them to the next
/// increasing sequence in lexicographic order until none is left; each step
/// yields clones of the items at the indices. So the result lists, for every
/// choice of `k` positions in lexicographic order, the items at those positions.
#[verifier::external_body]
pub fn combinations_of(items: &Vec<String>, k: usize) -> (r: Vec<Vec<String>>)
    ensures
        lists_picks(
            string_rows_of(r@),
            items@.map_values(|s: String| s@),
            |idx: Seq<int>| is_combination(idx, items@.len() as int, k as int),
        ),
{
    items.iter().cloned().combinations(k).collect()
}

/// `itertools::repeat_n` of the items' iterator, then
/// `Itertools::multi_cartesian_product`: the product of `k` copies of the items
/// runs like an odometer, the last position fastest, and yields the items at
/// the current positions; for `k == 0` it yields one empty sequence. So the
/// result lists every sequence of `k` indices below the number of items, in
/// lexicographic order, as the items it picks.
#[verifier::external_body]
pub fn all_sequences_of(items: &[char], k: usize) -> (r: Vec<Vec<char>>)
    ensures
        lists_picks(
            rows_of(r@),
            items@,
            |idx: Seq<int>| indices_below(idx, items@.len() as int, k as int),
        ),
{
    itertools::repeat_n(items.iter().copied(), k).multi_cartesian_product().collect()
}

/// `Itertools::join` with an empty separator on characters: the source writes
/// each item with its `Display`, which for a character is the character itself,
/// so the result is the characters in order.
#[verifier::external_body]
pub fn join_chars(chars: &Vec<char>) -> (s: String)
    ensures
        s@ == chars@,
{
    chars.iter().join("")
}

} // verus!

//! The frequency distribution of the `freqdist` crate, as the library uses it:
//! a count per character, kept in a hash map.
use vstd::prelude::*;
use vstd::multiset::Multiset;
use freqdist::FrequencyDistribution;

verus! {

/// The frequency distribution type of the `freqdist` crate.
#[verifier::external_type_specification]
#[verifier::external_body]
#[verifier::reject_recursive_types(K)]
#[verifier::reject_recursive_types(S)]
pub struct ExFrequencyDistribution<K, S>(FrequencyDistribution<K, S>);

/// The characters a frequency distribution has counted, each as often as it was inserted.
pub uninterp spec fn freq_contents(fd: FrequencyDistribution<char>) -> Multiset<char>;

/// The running total that a frequency distribution keeps beside its counts:
/// the source adds to it on each insertion, and it need not agree with the
/// counts (clearing the counts leaves it as it was).
pub uninterp spec fn freq_total(fd: FrequencyDistribution<char>) -> nat;

/// `FrequencyDistribution::new`: the source builds an empty hash map and a zero
/// total, so nothing has been counted yet.
#[verifier::external_body]
pub fn freqdist_new() -> (fd: FrequencyDistribution<char>)
    ensures
        freq_contents(fd) == Multiset::<char>::empty(),
        freq_total(fd) == 0,
{
    FrequencyDistribution::new()
}

/// `FrequencyDistribution::insert`: the source adds one to the count of `c`
/// (starting it at one) and one to the running total, which must not overflow.
#[verifier::external_body]
pub fn freqdist_insert(fd: &mut FrequencyDistribution<char>, c: char)
    requires
        freq_total(*old(fd)) < usize::MAX,
    ensures
        freq_contents(*final(fd)) == freq_contents(*old(fd)).insert(c),
        freq_total(*final(fd)) == freq_total(*old(fd)) + 1,
{
    fd.insert(c)
}

/// Indexing a `FrequencyDistribution`: the source looks the character up in its
/// hash map and answers zero where it is absent, so the answer is how often `c` was inserted.
#[verifier::external_body]
pub fn freqdist_index(fd: &FrequencyDistribution<char>, c: char) -> (n: usize)
    ensures
        n == freq_contents(*fd).count(c),
{
    fd[&c]
}

} // verus!

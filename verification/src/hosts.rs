//! Host-count requirements: a subnetwork's demanded number of usable
//! addresses, and the minimum prefix length that accommodates it.

use crate::bits::lemma_bit_len_le;
use crate::bits::lemma_min_bits_for;
use crate::bits::min_bits_for;
use crate::bits::minimum_bits_needed;
use vstd::arithmetic::power2::lemma2_to64;
use vstd::arithmetic::power2::pow2;
use vstd::multiset::Multiset;
use vstd::prelude::*;
use vstd::seq_lib::*;

verus! {

broadcast use vstd::multiset::group_multiset_axioms;

/// A subnetwork requirement: the number of usable host addresses it must
/// offer. The network and broadcast addresses are reserved and excluded
/// from this count. Totally ordered by the count, so collections of
/// requirements can be sorted.
#[derive(Debug, Copy, Clone, PartialEq, Eq, Ord, PartialOrd)]
pub struct NetworkHosts(u32);

/// The prefix length derived for a requirement of `hosts` usable hosts:
/// leave enough host bits for `hosts + 2` addresses (the network and
/// broadcast addresses are carried along), and give the rest to the
/// network prefix.
pub open spec fn spec_required_mask(hosts: u32) -> int {
    32 - min_bits_for((hosts + 2) as nat)
}

impl NetworkHosts {
    /// The required number of usable hosts.
    pub closed spec fn spec_hosts(self) -> u32 {
        self.0
    }

    pub fn new(hosts: u32) -> (r: Self)
        ensures
            r.spec_hosts() == hosts,
    {
        NetworkHosts(hosts)
    }

    pub fn hosts(&self) -> (r: u32)
        ensures
            r == self.spec_hosts(),
    {
        self.0
    }

    /// Minimum prefix length whose usable-host capacity covers this
    /// requirement.
    pub fn required_mask(&self) -> (r: u8)
        requires
            self.spec_hosts() <= u32::MAX - 1,
        ensures
            r == spec_required_mask(self.spec_hosts()),
    {
        proof {
            lemma2_to64();
            lemma_bit_len_le((self.0 + 1) as nat, 32);
        }
        let bits = minimum_bits_needed(self.0 as u64 + 2);
        32 - bits
    }
}

/// Sum of the usable-host requirements in a sequence.
pub open spec fn hosts_sum(s: Seq<NetworkHosts>) -> int
    decreases s.len(),
{
    if s.len() == 0 {
        0
    } else {
        hosts_sum(s.drop_last()) + s.last().spec_hosts()
    }
}

/// Requirements ordered by descending host count.
pub open spec fn sorted_desc(s: Seq<NetworkHosts>) -> bool {
    forall|i: int, j: int|
        0 <= i < j < s.len() ==> (#[trigger] s[i]).spec_hosts() >= (#[trigger] s[j]).spec_hosts()
}

/// A sum of requirements is never negative.
pub proof fn lemma_hosts_sum_nonneg(s: Seq<NetworkHosts>)
    ensures
        hosts_sum(s) >= 0,
    decreases s.len(),
{
    if s.len() > 0 {
        lemma_hosts_sum_nonneg(s.drop_last());
    }
}

/// Each requirement in a sequence is bounded by the sequence's sum.
pub proof fn lemma_hosts_sum_element(s: Seq<NetworkHosts>, i: int)
    requires
        0 <= i < s.len(),
    ensures
        s[i].spec_hosts() <= hosts_sum(s),
    decreases s.len(),
{
    if i == s.len() - 1 {
        lemma_hosts_sum_nonneg(s.drop_last());
    } else {
        lemma_hosts_sum_element(s.drop_last(), i);
    }
}

/// A prefix never sums to more than the whole sequence.
pub proof fn lemma_hosts_sum_prefix(s: Seq<NetworkHosts>, j: int)
    requires
        0 <= j <= s.len(),
    ensures
        hosts_sum(s.take(j)) <= hosts_sum(s),
    decreases s.len(),
{
    if j == s.len() {
        assert(s.take(j) =~= s);
    } else {
        lemma_hosts_sum_prefix(s.drop_last(), j);
        assert(s.drop_last().take(j) =~= s.take(j));
    }
}

/// Sort requirements by descending host count: repeatedly move a largest
/// remaining requirement over to the result.
pub(crate) fn sort_hosts_desc(v: Vec<NetworkHosts>) -> (r: Vec<NetworkHosts>)
    ensures
        sorted_desc(r@),
        r@.to_multiset() == v@.to_multiset(),
        r@.len() == v@.len(),
{
    let mut rest = v;
    let ghost all = rest@;
    let mut out: Vec<NetworkHosts> = Vec::new();
    proof {
        out@.to_multiset_ensures();
        assert(out@.to_multiset() =~= Multiset::empty());
    }
    while rest.len() > 0
        invariant
            out@.to_multiset().add(rest@.to_multiset()) =~= all.to_multiset(),
            out@.len() + rest@.len() == all.len(),
            sorted_desc(out@),
            forall|a: int, b: int|
                0 <= a < out@.len() && 0 <= b < rest@.len() ==> (#[trigger] out@[a]).spec_hosts()
                    >= (#[trigger] rest@[b]).spec_hosts(),
        decreases rest@.len(),
    {
        let mut best: usize = 0;
        let mut j: usize = 1;
        while j < rest.len()
            invariant
                best < j <= rest@.len(),
                rest@.len() > 0,
                forall|k: int|
                    0 <= k < j ==> rest@[best as int].spec_hosts() >= (#[trigger] rest@[k]).spec_hosts(),
            decreases rest@.len() - j,
        {
            if rest[j].hosts() > rest[best].hosts() {
                best = j;
            }
            j = j + 1;
        }
        let ghost old_out = out@;
        let ghost old_rest = rest@;
        let x = rest.remove(best);
        out.push(x);
        proof {
            old_out.to_multiset_ensures();
            old_rest.to_multiset_ensures();
            assert(out@.to_multiset() =~= old_out.to_multiset().insert(x));
            assert(rest@.to_multiset() =~= old_rest.to_multiset().remove(x));
            assert(old_rest.to_multiset().count(x) >= 1) by {
                assert(old_rest.contains(x));
            }
            assert(out@.to_multiset().add(rest@.to_multiset()) =~= old_out.to_multiset().add(
                old_rest.to_multiset(),
            ));
        }
    }
    proof {
        rest@.to_multiset_ensures();
        assert(rest@.to_multiset() =~= Multiset::empty());
        assert(out@.to_multiset() =~= out@.to_multiset().add(rest@.to_multiset()));
    }
    out
}

/// A descending-sorted arrangement of requirements is unique: two sorted
/// sequences holding the same requirements are the same sequence, so the
/// allocation order the sort produces is fully determined by its input,
/// with tied requirements indistinguishable from one another.
pub proof fn lemma_sorted_desc_unique(x: Seq<NetworkHosts>, y: Seq<NetworkHosts>)
    requires
        sorted_desc(x),
        sorted_desc(y),
        x.to_multiset() == y.to_multiset(),
    ensures
        x == y,
{
    let leq = |a: NetworkHosts, b: NetworkHosts| a.spec_hosts() >= b.spec_hosts();
    assert forall|a: NetworkHosts, b: NetworkHosts| #[trigger] leq(a, b) && #[trigger] leq(b, a) implies a == b by {
        assert(a.0 == b.0);
    }
    assert(vstd::relations::total_ordering(leq));
    assert(vstd::relations::sorted_by(x, leq));
    assert(vstd::relations::sorted_by(y, leq));
    vstd::seq_lib::lemma_sorted_unique(x, y, leq);
    assert(x =~= y);
}

/// The derived prefix length lies in `0..=31`, its usable-host capacity
/// `2^(32 - mask) - 2` covers the requirement, and one bit fewer of host
/// space would not: the mask is the largest sufficient prefix length.
pub proof fn lemma_required_mask_bounds(hosts: u32)
    requires
        hosts <= u32::MAX - 1,
    ensures
        0 <= spec_required_mask(hosts) <= 31,
        pow2((32 - spec_required_mask(hosts)) as nat) - 2 >= hosts,
        spec_required_mask(hosts) < 31 ==> pow2((32 - spec_required_mask(hosts) - 1) as nat) - 2
            < hosts,
{
    lemma2_to64();
    lemma_min_bits_for((hosts + 2) as nat);
    lemma_bit_len_le((hosts + 1) as nat, 32);
    crate::bits::lemma_bit_len_lower((hosts + 1) as nat);
}

} // verus!

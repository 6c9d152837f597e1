//! IPv4 address blocks and the two partitioning strategies, built on exact
//! integer models of the four-octet address value.

use crate::bits::lemma_bit_len_upper;
use crate::bits::min_bits_for;
use crate::bits::minimum_bits_needed;
use crate::bits::pow2_u64;
use crate::hosts::NetworkHosts;
use crate::hosts::hosts_sum;
use crate::hosts::lemma_hosts_sum_element;
use crate::hosts::lemma_hosts_sum_prefix;
use crate::hosts::lemma_required_mask_bounds;
use crate::hosts::sorted_desc;
use crate::hosts::spec_required_mask;
use vstd::arithmetic::div_mod::lemma_div_nonincreasing;
use vstd::arithmetic::div_mod::lemma_fundamental_div_mod;
use vstd::arithmetic::div_mod::lemma_fundamental_div_mod_converse;
use vstd::arithmetic::power2::lemma2_to64;
use vstd::arithmetic::power2::lemma_pow2_adds;
use vstd::arithmetic::power2::lemma_pow2_pos;
use vstd::arithmetic::power2::lemma_pow2_strictly_increases;
use vstd::arithmetic::power2::pow2;
use vstd::prelude::*;

verus! {

/// An IPv4 address block: four octets, most significant first, and a
/// prefix length (`mask`) of at most 32 bits.
#[derive(Debug, PartialEq, Eq)]
pub struct IpAddressBlock {
    pub address: [u8; 4],
    pub mask: u8,
}

/// The 32-bit value of four octets, most significant byte first.
pub open spec fn octets_int(s: Seq<u8>) -> int
    recommends
        s.len() == 4,
{
    0x100_0000 * s[0] + 0x1_0000 * s[1] + 0x100 * s[2] + s[3]
}

/// The four octets of a 32-bit value, most significant byte first.
pub open spec fn int_octets(v: int) -> Seq<u8>
    recommends
        0 <= v < 0x1_0000_0000,
{
    seq![
        (v / 0x100_0000 % 0x100) as u8,
        (v / 0x1_0000 % 0x100) as u8,
        (v / 0x100 % 0x100) as u8,
        (v % 0x100) as u8,
    ]
}

/// Four octets always encode a value within 32 bits.
pub proof fn lemma_octets_int_bounds(s: Seq<u8>)
    requires
        s.len() == 4,
    ensures
        0 <= octets_int(s) < 0x1_0000_0000,
{
}

/// Splitting the encoded 32-bit value back into octets recovers each
/// octet exactly.
pub proof fn lemma_octets_round_trip(s: Seq<u8>)
    requires
        s.len() == 4,
    ensures
        int_octets(octets_int(s)) =~= s,
{
    let a0 = s[0] as int;
    let a1 = s[1] as int;
    let a2 = s[2] as int;
    let a3 = s[3] as int;
    let v = octets_int(s);
    let q2 = (a0 * 0x100 + a1) * 0x100 + a2;
    let q1 = a0 * 0x100 + a1;
    assert(v == q2 * 0x100 + a3);
    lemma_fundamental_div_mod_converse(v, 0x100, q2, a3);
    lemma_fundamental_div_mod_converse(q2, 0x100, q1, a2);
    lemma_fundamental_div_mod_converse(q1, 0x100, a0, a1);
    vstd::arithmetic::div_mod::lemma_div_denominator(v, 0x100, 0x100);
    assert(v / 0x1_0000 == q1);
    vstd::arithmetic::div_mod::lemma_div_denominator(v, 0x1_0000, 0x100);
    assert(v / 0x100_0000 == a0);
    vstd::arithmetic::div_mod::lemma_small_mod(a0 as nat, 0x100);
}

/// Re-encoding the four octets of a 32-bit value gives the value back.
pub proof fn lemma_int_round_trip(v: int)
    requires
        0 <= v < 0x1_0000_0000,
    ensures
        octets_int(int_octets(v)) == v,
{
    lemma_fundamental_div_mod(v, 0x100);
    lemma_fundamental_div_mod(v / 0x100, 0x100);
    lemma_fundamental_div_mod(v / 0x100 / 0x100, 0x100);
    vstd::arithmetic::div_mod::lemma_div_denominator(v, 0x100, 0x100);
    vstd::arithmetic::div_mod::lemma_div_denominator(v, 0x1_0000, 0x100);
    assert(v / 0x100_0000 < 0x100) by {
        vstd::arithmetic::div_mod::lemma_div_is_ordered(v, 0xFFFF_FFFF, 0x100_0000);
        lemma_fundamental_div_mod_converse(0xFFFF_FFFF, 0x100_0000, 0xFF, 0xFF_FFFF);
    }
    vstd::arithmetic::div_mod::lemma_small_mod((v / 0x100_0000) as nat, 0x100);
}

/// Address of the `i`-th equally sized subnetwork: the base network index
/// advanced by `i` and shifted back into address position, truncated to
/// 32 bits.
pub open spec fn flsm_addr(base: int, rem: nat, i: int) -> int {
    ((base + i) * pow2(rem) as int) % (pow2(32) as int)
}

/// Reducing a value modulo `2^m` before scaling by `2^r` is the same as
/// scaling first and keeping `m + r` bits.
pub proof fn lemma_mod_mul_pow(x: int, m: nat, r: nat)
    requires
        x >= 0,
    ensures
        (x % (pow2(m) as int)) * pow2(r) == (x * pow2(r)) % (pow2(m + r) as int),
{
    let pm = pow2(m) as int;
    let pr = pow2(r) as int;
    lemma_pow2_pos(m);
    lemma_pow2_pos(r);
    lemma_pow2_adds(m, r);
    lemma_fundamental_div_mod(x, pm);
    let q = x / pm;
    let s = x % pm;
    assert(x * pr == q * (pm * pr) + s * pr) by (nonlinear_arith)
        requires
            x == pm * q + s,
    ;
    assert(s * pr < pm * pr) by (nonlinear_arith)
        requires
            0 <= s < pm,
            pr > 0,
    ;
    assert(s * pr >= 0) by (nonlinear_arith)
        requires
            s >= 0,
            pr > 0,
    ;
    lemma_fundamental_div_mod_converse(x * pr, pm * pr, q, s * pr);
}

/// Round trip: a block rebuilt from its own 32-bit integer value and its
/// own mask is the same block again.
pub proof fn lemma_block_round_trip(b: IpAddressBlock)
    requires
        b.wf(),
    ensures
        int_octets(b.addr_int()) =~= b.address@,
        0 <= b.addr_int() < 0x1_0000_0000,
{
    lemma_octets_int_bounds(b.address@);
    lemma_octets_round_trip(b.address@);
}

/// Contiguity of an equal split: as long as the whole produced range
/// stays within the 32-bit address space, each subnetwork starts exactly
/// one subnetwork size after the one before it, so the addresses are
/// strictly increasing.
pub proof fn lemma_flsm_contiguous(base: int, rem: nat, n: int, i: int)
    requires
        0 <= base,
        0 <= i,
        i + 1 < n,
        (base + n) * pow2(rem) <= pow2(32),
    ensures
        flsm_addr(base, rem, i + 1) == flsm_addr(base, rem, i) + pow2(rem),
        flsm_addr(base, rem, i) < flsm_addr(base, rem, i + 1),
{
    let pr = pow2(rem) as int;
    lemma_pow2_pos(rem);
    vstd::arithmetic::mul::lemma_mul_strict_inequality(base + i + 1, base + n, pr);
    vstd::arithmetic::mul::lemma_mul_is_distributive_add_other_way(pr, base + i, 1);
    vstd::arithmetic::mul::lemma_mul_is_distributive_add_other_way(pr, base + i + 1, 0);
    assert((base + i) * pr >= 0) by (nonlinear_arith)
        requires
            base + i >= 0,
            pr > 0,
    ;
    vstd::arithmetic::div_mod::lemma_small_mod(((base + i) * pr) as nat, pow2(32));
    vstd::arithmetic::div_mod::lemma_small_mod(((base + i + 1) * pr) as nat, pow2(32));
}

/// Sufficiency of an allocation: a subnetwork whose prefix length was
/// derived from its paired requirement offers at least that many usable
/// hosts.
pub proof fn lemma_vlsm_sufficiency(pairs: Seq<(NetworkHosts, IpAddressBlock)>, k: int)
    requires
        0 <= k < pairs.len(),
        pairs[k].0.spec_hosts() <= u32::MAX - 1,
        pairs[k].1.mask as int == spec_required_mask(pairs[k].0.spec_hosts()),
    ensures
        pow2((32 - pairs[k].1.mask) as nat) - 2 >= pairs[k].0.spec_hosts(),
{
    lemma_required_mask_bounds(pairs[k].0.spec_hosts());
}

/// The next aligned boundary above a 32-bit address stays within `2^32`.
proof fn lemma_next_boundary(cur: int, rem: nat)
    requires
        0 <= cur < pow2(32),
        rem <= 32,
    ensures
        0 <= cur / (pow2(rem) as int) + 1 <= pow2((32 - rem) as nat),
        (cur / (pow2(rem) as int) + 1) * (pow2(rem) as int) <= pow2(32),
{
    let p = pow2(rem) as int;
    let q = pow2((32 - rem) as nat) as int;
    lemma_pow2_pos(rem);
    lemma_pow2_pos((32 - rem) as nat);
    lemma_pow2_adds(rem, (32 - rem) as nat);
    assert(p * q == pow2(32));
    vstd::arithmetic::div_mod::lemma_multiply_divide_lt(cur, p, q);
    vstd::arithmetic::div_mod::lemma_div_pos_is_pos(cur, p);
    vstd::arithmetic::mul::lemma_mul_inequality(cur / p + 1, q, p);
    vstd::arithmetic::mul::lemma_mul_is_commutative(q, p);
}

/// The next allocation address after placing a subnetwork of prefix
/// length `m` at `addr`: the following boundary of a subnetwork of that
/// same size, truncated to 32 bits.
pub open spec fn vlsm_step(addr: int, m: int) -> int
    recommends
        0 <= addr,
        0 <= m <= 32,
{
    ((addr / pow2((32 - m) as nat) as int + 1) * pow2((32 - m) as nat) as int) % (pow2(32) as int)
}

/// Address at which the `k`-th requirement of `reqs`, taken in order, is
/// placed when allocation starts from `start`.
pub open spec fn vlsm_addr(start: int, reqs: Seq<NetworkHosts>, k: int) -> int
    decreases k,
{
    if k <= 0 {
        start
    } else {
        vlsm_step(vlsm_addr(start, reqs, k - 1), spec_required_mask(reqs[k - 1].spec_hosts()))
    }
}

impl IpAddressBlock {
    /// A well-formed block: the prefix length does not exceed the 32 bits
    /// of an IPv4 address.
    pub open spec fn wf(self) -> bool {
        self.mask <= 32
    }

    /// The block's address as a mathematical 32-bit value.
    pub open spec fn addr_int(self) -> int {
        octets_int(self.address@)
    }

    /// Whether the block can be split into `n` equally sized subnetworks:
    /// at least one is asked for, and the widened prefix still fits in 32
    /// bits.
    pub open spec fn flsm_feasible(self, n: nat) -> bool {
        n >= 1 && self.mask + min_bits_for(n) <= 32
    }

    pub fn new(address: [u8; 4], mask: u8) -> (r: Self)
        requires
            mask <= 32,
        ensures
            r.address == address,
            r.mask == mask,
            r.wf(),
    {
        IpAddressBlock { address, mask }
    }

    /// Decompose a 32-bit value into the four octets of a block.
    pub fn from_u32_address(u32_addr: u32, mask: u8) -> (r: Self)
        requires
            mask <= 32,
        ensures
            r.mask == mask,
            r.address@ =~= int_octets(u32_addr as int),
            r.addr_int() == u32_addr,
            r.wf(),
    {
        let address = [
            ((u32_addr / 0x100_0000) % 0x100) as u8,
            ((u32_addr / 0x1_0000) % 0x100) as u8,
            ((u32_addr / 0x100) % 0x100) as u8,
            (u32_addr % 0x100) as u8,
        ];
        let r = Self::new(address, mask);
        proof {
            assert(r.address@ =~= int_octets(u32_addr as int));
            lemma_int_round_trip(u32_addr as int);
        }
        r
    }

    /// Fold the four octets into the 32-bit value they encode.
    pub fn address_as_u32(&self) -> (r: u32)
        ensures
            r == self.addr_int(),
    {
        let a = &self.address;
        (a[0] as u32) * 0x100_0000 + (a[1] as u32) * 0x1_0000 + (a[2] as u32) * 0x100 + (
        a[3] as u32)
    }

    /// Usable host count of the block, `2^(32 - mask) - 2`: all addresses
    /// under the prefix except the network and broadcast addresses. A
    /// `/32` block is a single address, not a host range, and is excluded.
    pub fn available_hosts(&self) -> (r: u32)
        requires
            self.mask < 32,
        ensures
            r as int == pow2((32 - self.mask) as nat) - 2,
    {
        let e: u8 = 32 - self.mask;
        let p = pow2_u64(e);
        proof {
            lemma2_to64();
            if e > 1 {
                lemma_pow2_strictly_increases(1, e as nat);
            }
            if (e as nat) < 32 {
                lemma_pow2_strictly_increases(e as nat, 32);
            }
        }
        (p - 2) as u32
    }

    /// The widened prefix length for an equal split into `num_networks`
    /// parts, or `None` when no such split fits.
    fn new_mask_for(&self, num_networks: usize) -> (r: Option<u8>)
        requires
            self.wf(),
        ensures
            match r {
                Some(m) => self.flsm_feasible(num_networks as nat) && m == self.mask
                    + min_bits_for(num_networks as nat),
                None => !self.flsm_feasible(num_networks as nat),
            },
    {
        if num_networks == 0 {
            return None;
        }
        let bits_needed = minimum_bits_needed(num_networks as u64);
        let mask = self.mask + bits_needed;
        if mask <= 32 {
            Some(mask)
        } else {
            None
        }
    }

    /// Fixed-length subnet masking: split the block into `num_networks`
    /// equally sized subnetworks, consecutive from the block's own network
    /// boundary, or report that no such split fits.
    pub fn subnet_flsm(&self, num_networks: usize) -> (r: Option<Vec<IpAddressBlock>>)
        requires
            self.wf(),
        ensures
            r is Some <==> self.flsm_feasible(num_networks as nat),
            (r matches Some(blocks) ==> {
                let nm = self.mask + min_bits_for(num_networks as nat);
                let rem = (32 - nm) as nat;
                let base = self.addr_int() / pow2(rem) as int;
                &&& blocks@.len() == num_networks
                &&& forall|i: int|
                    0 <= i < num_networks ==> (#[trigger] blocks@[i]).mask == nm
                &&& forall|i: int|
                    0 <= i < num_networks ==> (#[trigger] blocks@[i]).address@ =~= int_octets(
                        flsm_addr(base, rem, i),
                    )
                &&& forall|i: int|
                    0 <= i < num_networks ==> (#[trigger] blocks@[i]).addr_int() == flsm_addr(
                        base,
                        rem,
                        i,
                    )
            }),
    {
        let new_mask = match self.new_mask_for(num_networks) {
            Some(m) => m,
            None => {
                return None;
            },
        };
        let rem: u8 = 32 - new_mask;
        let as_u32 = self.address_as_u32();
        let p_rem: u64 = pow2_u64(rem);
        let p_block: u64 = pow2_u64(new_mask);
        proof {
            lemma2_to64();
            lemma_pow2_pos(rem as nat);
            lemma_pow2_pos(new_mask as nat);
            lemma_bit_len_upper((num_networks - 1) as nat);
            if min_bits_for(num_networks as nat) < 32 {
                lemma_pow2_strictly_increases(min_bits_for(num_networks as nat), 32);
            }
            lemma_octets_int_bounds(self.address@);
        }
        let base: u64 = (as_u32 as u64) / p_rem;
        proof {
            lemma_div_nonincreasing(as_u32 as int, p_rem as int);
        }
        let ghost gbase = self.addr_int() / pow2(rem as nat) as int;
        let mut blocks: Vec<IpAddressBlock> = Vec::new();
        let mut i: usize = 0;
        while i < num_networks
            invariant
                i <= num_networks,
                num_networks as int <= 0x1_0000_0000,
                new_mask as int == self.mask + min_bits_for(num_networks as nat),
                new_mask <= 32,
                rem == 32 - new_mask,
                p_rem == pow2(rem as nat),
                p_block == pow2(new_mask as nat),
                base <= 0xFFFF_FFFF,
                base == gbase,
                gbase == self.addr_int() / pow2(rem as nat) as int,
                blocks@.len() == i,
                forall|j: int| 0 <= j < i ==> (#[trigger] blocks@[j]).mask == new_mask,
                forall|j: int|
                    0 <= j < i ==> (#[trigger] blocks@[j]).address@ =~= int_octets(
                        flsm_addr(gbase, rem as nat, j),
                    ),
                forall|j: int|
                    0 <= j < i ==> (#[trigger] blocks@[j]).addr_int() == flsm_addr(
                        gbase,
                        rem as nat,
                        j,
                    ),
            decreases num_networks - i,
        {
            proof {
                lemma_pow2_pos(new_mask as nat);
                lemma_pow2_pos(rem as nat);
            }
            let idx: u64 = (base + i as u64) % p_block;
            proof {
                lemma_pow2_adds(new_mask as nat, rem as nat);
                assert(idx * p_rem < pow2(32)) by (nonlinear_arith)
                    requires
                        idx < p_block,
                        p_rem > 0,
                        p_block * p_rem == pow2(32),
                ;
                lemma2_to64();
                lemma_mod_mul_pow(base as int + i as int, new_mask as nat, rem as nat);
            }
            let addr32: u32 = (idx * p_rem) as u32;
            blocks.push(IpAddressBlock::from_u32_address(addr32, new_mask));
            i = i + 1;
        }
        Some(blocks)
    }

    /// Variable-length subnet masking: give each requirement a subnetwork
    /// sized by its own host count, largest first, packed from the
    /// block's base address; or report that the requirements outgrow the
    /// block's capacity.
    #[verifier::rlimit(30)]
    pub fn subnet_vlsm(&self, subnets: Vec<NetworkHosts>) -> (r: Option<
        Vec<(NetworkHosts, IpAddressBlock)>,
    >)
        requires
            self.mask < 32,
        ensures
            r is None <==> hosts_sum(subnets@) > pow2((32 - self.mask) as nat) - 2,
            (r matches Some(pairs) ==> {
                let picked = Seq::new(pairs@.len(), |k: int| pairs@[k].0);
                &&& pairs@.len() == subnets@.len()
                &&& picked.to_multiset() == subnets@.to_multiset()
                &&& sorted_desc(picked)
                &&& forall|k: int|
                    0 <= k < pairs@.len() ==> (#[trigger] pairs@[k]).1.mask as int
                        == spec_required_mask(pairs@[k].0.spec_hosts())
                &&& forall|k: int|
                    0 <= k < pairs@.len() ==> (#[trigger] pairs@[k]).1.address@ =~= int_octets(
                        vlsm_addr(self.addr_int(), picked, k),
                    )
                &&& forall|k: int|
                    0 <= k < pairs@.len() ==> (#[trigger] pairs@[k]).1.addr_int() == vlsm_addr(
                        self.addr_int(),
                        picked,
                        k,
                    )
            }),
    {
        let ghost gsubnets = subnets@;
        let avail = self.available_hosts();
        let n = subnets.len();
        let mut total: u64 = 0;
        let mut t: usize = 0;
        while t < n
            invariant
                t <= n,
                n == gsubnets.len(),
                subnets@ == gsubnets,
                total == hosts_sum(gsubnets.take(t as int)),
                total <= avail,
                avail as int == pow2((32 - self.mask) as nat) - 2,
            decreases n - t,
        {
            let ghost prev = gsubnets.take(t as int);
            total = total + subnets[t].hosts() as u64;
            proof {
                assert(gsubnets.take(t + 1).drop_last() =~= prev);
                assert(gsubnets.take(t + 1).last() == gsubnets[t as int]);
            }
            if total > avail as u64 {
                proof {
                    lemma_hosts_sum_prefix(gsubnets, t + 1);
                }
                return None;
            }
            t = t + 1;
        }
        proof {
            assert(gsubnets.take(n as int) =~= gsubnets);
        }
        proof {
            if ((32 - self.mask) as nat) < 32 {
                lemma_pow2_strictly_increases((32 - self.mask) as nat, 32);
            }
            lemma2_to64();
        }
        let sorted = crate::hosts::sort_hosts_desc(subnets);
        let ghost gsorted = sorted@;
        let start = self.address_as_u32();
        let ghost gstart = self.addr_int();
        let mut cur: u32 = start;
        let mut result: Vec<(NetworkHosts, IpAddressBlock)> = Vec::new();
        let mut k: usize = 0;
        while k < sorted.len()
            invariant
                k <= sorted.len(),
                sorted@ == gsorted,
                gsorted.to_multiset() == gsubnets.to_multiset(),
                gsorted.len() == gsubnets.len(),
                hosts_sum(gsubnets) <= 0xFFFF_FFFE,
                gstart == self.addr_int(),
                result@.len() == k,
                cur as int == vlsm_addr(gstart, gsorted, k as int),
                forall|j: int| 0 <= j < k ==> (#[trigger] result@[j]).0 == gsorted[j],
                forall|j: int|
                    0 <= j < k ==> (#[trigger] result@[j]).1.mask as int == spec_required_mask(
                        gsorted[j].spec_hosts(),
                    ),
                forall|j: int|
                    0 <= j < k ==> (#[trigger] result@[j]).1.address@ =~= int_octets(
                        vlsm_addr(gstart, gsorted, j),
                    ),
                forall|j: int|
                    0 <= j < k ==> (#[trigger] result@[j]).1.addr_int() == vlsm_addr(
                        gstart,
                        gsorted,
                        j,
                    ),
            decreases sorted.len() - k,
        {
            let h = sorted[k];
            proof {
                gsorted.to_multiset_ensures();
                gsubnets.to_multiset_ensures();
                assert(gsorted.contains(h));
                assert(gsubnets.to_multiset().count(h) > 0);
                assert(gsubnets.contains(h));
                let w = choose|w: int| 0 <= w < gsubnets.len() && gsubnets[w] == h;
                lemma_hosts_sum_element(gsubnets, w);
            }
            let m: u8 = h.required_mask();
            proof {
                lemma_required_mask_bounds(h.spec_hosts());
            }
            result.push((h, IpAddressBlock::from_u32_address(cur, m)));
            let rem: u8 = 32 - m;
            let p: u64 = pow2_u64(rem);
            proof {
                lemma_pow2_pos(rem as nat);
                lemma2_to64();
                lemma_next_boundary(cur as int, rem as nat);
            }
            let next: u64 = ((cur as u64) / p + 1) * p;
            cur = (next % 0x1_0000_0000) as u32;
            k = k + 1;
        }
        proof {
            assert(Seq::new(result@.len(), |j: int| result@[j].0) =~= gsorted);
        }
        Some(result)
    }
}

} // verus!

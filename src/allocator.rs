//! The allocator's search primitives: each one returns the first candidate,
//! in a fixed order, that the ledger does not already hold.
use vstd::prelude::*;
use vstd::string::*;
use crate::net::{broadcast, host_mask, ipv4_text, network, overlap, ipv4_to_string, Cidr};
use crate::text::{append_dec_pad3, append_hex2, dec_pad3, hex2};

verus! {

/// Largest ordinal that an identifier such as `host_NNN` may carry.
pub const MAX_ORDINAL: u64 = 999_999_999;

/// Largest counter that fits the low-order forty bits of a hardware address.
pub const MAX_MAC_COUNTER: u64 = 0xff_ffff_ffff;

/// Offset of the first address a router may receive (right after the gateway).
pub const ROUTER_FIRST_OFFSET: u32 = 2;

/// Offset of the first address a regular host may receive, leaving room for
/// a handful of routers.
pub const HOST_FIRST_OFFSET: u32 = 10;

/// Whether some entry of `v` reads `t`.
pub open spec fn holds_text(v: Seq<String>, t: Seq<char>) -> bool {
    exists|k: int| 0 <= k < v.len() && (#[trigger] v[k])@ == t
}

/// Whether `v` records the address `a` as issued in subnet `n`.
pub open spec fn holds_ip(v: Seq<(String, String)>, n: Seq<char>, a: Seq<char>) -> bool {
    exists|k: int| 0 <= k < v.len() && (#[trigger] v[k]).0@ == n && v[k].1@ == a
}

/// The identifier with the given prefix and ordinal, such as `host_007`.
pub open spec fn ordinal_text(prefix: Seq<char>, k: nat) -> Seq<char> {
    prefix + dec_pad3(k)
}

/// A locally administered unicast hardware address whose low forty bits are
/// the counter `k`.
pub open spec fn mac_text(k: u64) -> Seq<char> {
    seq!['0', '2'] + seq![':'] + hex2(((k >> 32u64) & 0xffu64) as nat) + seq![':'] + hex2(
        ((k >> 24u64) & 0xffu64) as nat,
    ) + seq![':'] + hex2(((k >> 16u64) & 0xffu64) as nat) + seq![':'] + hex2(
        ((k >> 8u64) & 0xffu64) as nat,
    ) + seq![':'] + hex2((k & 0xffu64) as nat)
}

/// Text of the address at offset `o` in block `c`.
pub open spec fn block_addr_text(c: Cidr, o: u32) -> Seq<char> {
    ipv4_text((network(c) + o) as u32)
}

/// Whether `t` occurs in `v`.
pub fn contains_text(v: &Vec<String>, t: &String) -> (r: bool)
    ensures
        r == holds_text(v@, t@),
{
    let mut k: usize = 0;
    while k < v.len()
        invariant
            k <= v@.len(),
            forall|j: int| 0 <= j < k ==> (#[trigger] v@[j])@ != t@,
        decreases v@.len() - k,
    {
        if v[k] == *t {
            return true;
        }
        k = k + 1;
    }
    false
}

/// Whether `v` records `a` as issued in subnet `n`.
pub fn contains_ip(v: &Vec<(String, String)>, n: &String, a: &String) -> (r: bool)
    ensures
        r == holds_ip(v@, n@, a@),
{
    let mut k: usize = 0;
    while k < v.len()
        invariant
            k <= v@.len(),
            forall|j: int| 0 <= j < k ==> !((#[trigger] v@[j]).0@ == n@ && v@[j].1@ == a@),
        decreases v@.len() - k,
    {
        if v[k].0 == *n && v[k].1 == *a {
            return true;
        }
        k = k + 1;
    }
    false
}

/// The identifier with the given prefix and ordinal.
pub fn ordinal_string(prefix: &str, k: u64) -> (r: String)
    ensures
        r@ == ordinal_text(prefix@, k as nat),
{
    let mut s = String::from_str(prefix);
    append_dec_pad3(&mut s, k);
    s
}

/// The hardware address for counter `k`.
pub fn mac_string(k: u64) -> (r: String)
    ensures
        r@ == mac_text(k),
{
    proof {
        reveal_strlit("02:");
        reveal_strlit(":");
    }
    let mut s = String::from_str("02:");
    let ghost s0 = s@;
    assert(((k >> 32u64) & 0xffu64) < 256) by (bit_vector);
    assert(((k >> 24u64) & 0xffu64) < 256) by (bit_vector);
    assert(((k >> 16u64) & 0xffu64) < 256) by (bit_vector);
    assert(((k >> 8u64) & 0xffu64) < 256) by (bit_vector);
    assert((k & 0xffu64) < 256) by (bit_vector);
    append_hex2(&mut s, (k >> 32u64) & 0xffu64);
    s.append(":");
    append_hex2(&mut s, (k >> 24u64) & 0xffu64);
    s.append(":");
    append_hex2(&mut s, (k >> 16u64) & 0xffu64);
    s.append(":");
    append_hex2(&mut s, (k >> 8u64) & 0xffu64);
    s.append(":");
    append_hex2(&mut s, k & 0xffu64);
    assert(s@ =~= mac_text(k));
    s
}

/// The first identifier `prefix` + ordinal, with the ordinal counting up from
/// `start` to `MAX_ORDINAL`, that `used` does not hold.
pub fn next_free_ordinal(used: &Vec<String>, prefix: &str, start: u64) -> (r: Option<(u64, String)>)
    ensures
        r matches Some((k, t)) ==> {
            &&& start <= k <= MAX_ORDINAL
            &&& t@ == ordinal_text(prefix@, k as nat)
            &&& !holds_text(used@, t@)
            &&& forall|k2: nat| start <= k2 < k ==> holds_text(used@, ordinal_text(prefix@, k2))
        },
        r is None ==> forall|k2: nat| start <= k2 <= MAX_ORDINAL ==> holds_text(used@, ordinal_text(prefix@, k2)),
{
    let mut k: u64 = start;
    while k <= MAX_ORDINAL
        invariant
            start <= k,
            forall|k2: nat| start <= k2 < k ==> holds_text(used@, ordinal_text(prefix@, k2)),
        decreases MAX_ORDINAL + 1 - k,
    {
        let t = ordinal_string(prefix, k);
        if !contains_text(used, &t) {
            return Some((k, t));
        }
        k = k + 1;
    }
    None
}

/// The first hardware address, with the counter counting up from `start` to
/// `MAX_MAC_COUNTER`, that `used` does not hold.
pub fn next_free_mac(used: &Vec<String>, start: u64) -> (r: Option<(u64, String)>)
    ensures
        r matches Some((k, t)) ==> {
            &&& start <= k <= MAX_MAC_COUNTER
            &&& t@ == mac_text(k)
            &&& !holds_text(used@, t@)
            &&& forall|k2: u64| start <= k2 < k ==> holds_text(used@, mac_text(k2))
        },
        r is None ==> forall|k2: u64| start <= k2 <= MAX_MAC_COUNTER ==> holds_text(used@, mac_text(k2)),
{
    let mut k: u64 = start;
    while k <= MAX_MAC_COUNTER
        invariant
            start <= k,
            forall|k2: u64| start <= k2 < k ==> holds_text(used@, mac_text(k2)),
        decreases MAX_MAC_COUNTER + 1 - k,
    {
        let t = mac_string(k);
        if !contains_text(used, &t) {
            return Some((k, t));
        }
        k = k + 1;
    }
    None
}

/// The first address of block `c`, counting up from `network + first`, below
/// the broadcast address, that `used` does not record for subnet `n`.
pub fn next_free_ip(used: &Vec<(String, String)>, n: &String, c: Cidr, first: u32) -> (r: Option<(u32, String)>)
    requires
        c.wf(),
    ensures
        r matches Some((off, t)) ==> {
            &&& first <= off < host_mask(c.prefix)
            &&& t@ == block_addr_text(c, off)
            &&& !holds_ip(used@, n@, t@)
            &&& forall|o: u32| first <= o < off ==> holds_ip(used@, n@, #[trigger] block_addr_text(c, o))
        },
        r is None ==> forall|o: u32| first <= o < host_mask(c.prefix) ==> holds_ip(
            used@,
            n@,
            #[trigger] block_addr_text(c, o),
        ),
{
    let base = c.network();
    let b = c.broadcast();
    let span = b - base;
    let mut off: u32 = first;
    while off < span
        invariant
            span == host_mask(c.prefix),
            base == network(c),
            base + span == broadcast(c),
            first <= off,
            forall|o: u32| first <= o < off ==> holds_ip(used@, n@, #[trigger] block_addr_text(c, o)),
        decreases span - off,
    {
        let t = ipv4_to_string(base + off);
        if !contains_ip(used, n, &t) {
            return Some((off, t));
        }
        off = off + 1;
    }
    None
}

/// Start of the `k`-th block of the range that begins with the block of `lo`:
/// each block follows the one before, with the size that the prefix gives.
pub open spec fn block_at(lo: Cidr, k: nat) -> int
    decreases k,
{
    if k == 0 {
        network(lo) as int
    } else {
        block_at(lo, (k - 1) as nat) + host_mask(lo.prefix) + 1
    }
}

/// The `k`-th block of the range that begins with the block of `lo`.
pub open spec fn range_block(lo: Cidr, k: nat) -> Cidr {
    Cidr { addr: block_at(lo, k) as u32, prefix: lo.prefix }
}

/// Whether `c` shares an address with a block of `taken`.
pub open spec fn overlaps_any(c: Cidr, taken: Seq<Cidr>) -> bool {
    exists|j: int| 0 <= j < taken.len() && overlap(c, #[trigger] taken[j])
}

/// Whether the `k`-th block of the range from `lo` to `hi` lies in the range
/// and is free of every block of `taken`.
pub open spec fn block_free(lo: Cidr, hi: Cidr, k: nat, taken: Seq<Cidr>) -> bool {
    block_at(lo, k) <= network(hi) && !overlaps_any(range_block(lo, k), taken)
}

/// Whether the `k`-th block is the first free block of the range.
pub open spec fn first_free(lo: Cidr, hi: Cidr, k: nat, taken: Seq<Cidr>) -> bool {
    block_free(lo, hi, k, taken) && forall|k2: nat| k2 < k ==> !block_free(lo, hi, k2, taken)
}

/// Whether the range from `lo` to `hi` holds a free block.
pub open spec fn range_has_free(lo: Cidr, hi: Cidr, taken: Seq<Cidr>) -> bool {
    exists|k: nat| block_free(lo, hi, k, taken)
}

proof fn lemma_block_at_monotone(lo: Cidr, k1: nat, k2: nat)
    requires
        k1 <= k2,
    ensures
        block_at(lo, k1) + (k2 - k1) <= block_at(lo, k2),
    decreases k2 - k1,
{
    if k1 < k2 {
        lemma_block_at_monotone(lo, k1, (k2 - 1) as nat);
    }
}

/// Whether `c` shares an address with a block of `taken`.
pub fn overlaps_any_of(c: &Cidr, taken: &Vec<Cidr>) -> (r: bool)
    requires
        c.wf(),
        forall|j: int| 0 <= j < taken@.len() ==> (#[trigger] taken@[j]).wf(),
    ensures
        r == overlaps_any(*c, taken@),
{
    let mut j: usize = 0;
    while j < taken.len()
        invariant
            j <= taken@.len(),
            c.wf(),
            forall|i: int| 0 <= i < taken@.len() ==> (#[trigger] taken@[i]).wf(),
            forall|i: int| 0 <= i < j ==> !overlap(*c, #[trigger] taken@[i]),
        decreases taken@.len() - j,
    {
        if c.overlaps(&taken[j]) {
            return true;
        }
        j = j + 1;
    }
    false
}

/// The first block of the range from the block of `lo` to the block of `hi`
/// that shares no address with a block of `taken`.
pub fn first_free_block(lo: Cidr, hi: Cidr, taken: &Vec<Cidr>) -> (r: Option<Cidr>)
    requires
        lo.wf(),
        hi.wf(),
        lo.prefix == hi.prefix,
        forall|j: int| 0 <= j < taken@.len() ==> (#[trigger] taken@[j]).wf(),
    ensures
        r matches Some(c) ==> exists|k: nat| first_free(lo, hi, k, taken@) && c == range_block(lo, k),
        r is None ==> !range_has_free(lo, hi, taken@),
{
    let top = hi.network() as u64;
    let size = (lo.broadcast() - lo.network()) as u64 + 1;
    let mut addr: u64 = lo.network() as u64;
    let ghost mut k: nat = 0;
    while addr <= top
        invariant
            lo.wf(),
            forall|j: int| 0 <= j < taken@.len() ==> (#[trigger] taken@[j]).wf(),
            top == network(hi),
            size == host_mask(lo.prefix) + 1,
            addr == block_at(lo, k),
            k > 0 ==> addr <= top + size,
            forall|k2: nat| k2 < k ==> !block_free(lo, hi, k2, taken@),
        decreases top + size - addr,
    {
        let c = Cidr { addr: addr as u32, prefix: lo.prefix };
        if !overlaps_any_of(&c, taken) {
            assert(first_free(lo, hi, k, taken@));
            return Some(c);
        }
        addr = addr + size;
        proof {
            k = k + 1;
        }
    }
    proof {
        assert forall|k2: nat| !block_free(lo, hi, k2, taken@) by {
            if k2 >= k {
                lemma_block_at_monotone(lo, k, k2);
            }
        }
    }
    None
}

/// The first free block of the first range, in order, that holds one.
pub fn first_free_in_ranges(ranges: &Vec<(Cidr, Cidr)>, taken: &Vec<Cidr>) -> (r: Option<Cidr>)
    requires
        forall|i: int|
            0 <= i < ranges@.len() ==> (#[trigger] ranges@[i]).0.wf() && ranges@[i].1.wf()
                && ranges@[i].0.prefix == ranges@[i].1.prefix,
        forall|j: int| 0 <= j < taken@.len() ==> (#[trigger] taken@[j]).wf(),
    ensures
        r matches Some(c) ==> exists|i: int, k: nat|
            0 <= i < ranges@.len() && (forall|i2: int|
                0 <= i2 < i ==> !range_has_free(#[trigger] ranges@[i2].0, ranges@[i2].1, taken@))
                && first_free(ranges@[i].0, ranges@[i].1, k, taken@) && c == range_block(
                ranges@[i].0,
                k,
            ),
        r is None ==> forall|i: int|
            0 <= i < ranges@.len() ==> !range_has_free(#[trigger] ranges@[i].0, ranges@[i].1, taken@),
{
    let mut i: usize = 0;
    while i < ranges.len()
        invariant
            i <= ranges@.len(),
            forall|i: int|
                0 <= i < ranges@.len() ==> (#[trigger] ranges@[i]).0.wf() && ranges@[i].1.wf()
                    && ranges@[i].0.prefix == ranges@[i].1.prefix,
            forall|j: int| 0 <= j < taken@.len() ==> (#[trigger] taken@[j]).wf(),
            forall|i2: int| 0 <= i2 < i ==> !range_has_free(#[trigger] ranges@[i2].0, ranges@[i2].1, taken@),
        decreases ranges@.len() - i,
    {
        let (lo, hi) = ranges[i];
        match first_free_block(lo, hi, taken) {
            Some(c) => {
                return Some(c);
            },
            None => {},
        }
        i = i + 1;
    }
    None
}

} // verus!

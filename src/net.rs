//! IPv4 addresses and CIDR blocks: their text, and prefix-aware arithmetic on
//! network, broadcast and gateway addresses.
use vstd::prelude::*;
use vstd::string::*;
use crate::text::{append_dec, dec, is_digit, lemma_dec_facts, numeral_at, scan_numeral};

verus! {

/// An IPv4 address together with a prefix length, such as `10.0.1.0/24`.
#[derive(Clone, Copy, Debug, PartialEq, Eq, Structural)]
pub struct Cidr {
    pub addr: u32,
    pub prefix: u8,
}

pub open spec fn octet0(a: u32) -> u32 {
    (a >> 24u32) & 0xffu32
}

pub open spec fn octet1(a: u32) -> u32 {
    (a >> 16u32) & 0xffu32
}

pub open spec fn octet2(a: u32) -> u32 {
    (a >> 8u32) & 0xffu32
}

pub open spec fn octet3(a: u32) -> u32 {
    a & 0xffu32
}

/// Dotted-decimal text of an address.
pub open spec fn ipv4_text(a: u32) -> Seq<char> {
    dec(octet0(a) as nat) + seq!['.'] + dec(octet1(a) as nat) + seq!['.'] + dec(octet2(a) as nat)
        + seq!['.'] + dec(octet3(a) as nat)
}

/// Text of a block: the address, a slash and the prefix length.
pub open spec fn cidr_text(c: Cidr) -> Seq<char> {
    ipv4_text(c.addr) + seq!['/'] + dec(c.prefix as nat)
}

impl Cidr {
    pub open spec fn wf(self) -> bool {
        self.prefix <= 32
    }
}

/// The bits of an address that a prefix of length `p` fixes.
pub open spec fn net_mask(p: u8) -> u32 {
    if p == 0 {
        0u32
    } else {
        0xffff_ffffu32 << ((32 - p) as u32)
    }
}

/// The bits of an address that a prefix of length `p` leaves to hosts.
pub open spec fn host_mask(p: u8) -> u32 {
    !net_mask(p)
}

/// First address of the block.
pub open spec fn network(c: Cidr) -> u32 {
    c.addr & net_mask(c.prefix)
}

/// Last address of the block.
pub open spec fn broadcast(c: Cidr) -> u32 {
    network(c) | host_mask(c.prefix)
}

/// First usable host address of the block.
pub open spec fn gateway(c: Cidr) -> int {
    network(c) + 1
}

/// Whether two blocks share an address.
pub open spec fn overlap(a: Cidr, b: Cidr) -> bool {
    network(a) <= broadcast(b) && network(b) <= broadcast(a)
}

proof fn lemma_mask_split(a: u32, p: u8)
    requires
        p <= 32,
    ensures
        broadcast(Cidr { addr: a, prefix: p }) == network(Cidr { addr: a, prefix: p }) + host_mask(p),
        p <= 30 ==> host_mask(p) >= 3,
{
    if p == 0 {
        assert(a & 0u32 == 0u32) by (bit_vector);
        assert(!0u32 == 0xffff_ffffu32) by (bit_vector);
        assert((0u32 | 0xffff_ffffu32) == 0xffff_ffffu32) by (bit_vector);
    } else {
        let s = (32 - p) as u32;
        assert(s < 32);
        assert(((a & (0xffff_ffffu32 << s)) | !(0xffff_ffffu32 << s)) == (a & (0xffff_ffffu32
            << s)) + !(0xffff_ffffu32 << s)) by (bit_vector)
            requires
                s < 32,
        ;
        assert(s >= 2 ==> !(0xffff_ffffu32 << s) >= 3) by (bit_vector)
            requires
                s < 32,
        ;
    }
}

/// Appends the dotted-decimal text of `a`.
pub fn append_ipv4(s: &mut String, a: u32)
    ensures
        final(s)@ == old(s)@ + ipv4_text(a),
{
    let ghost s0 = s@;
    let o0 = (a >> 24u32) & 0xffu32;
    let o1 = (a >> 16u32) & 0xffu32;
    let o2 = (a >> 8u32) & 0xffu32;
    let o3 = a & 0xffu32;
    proof {
        reveal_strlit(".");
    }
    append_dec(s, o0 as u64);
    s.append(".");
    append_dec(s, o1 as u64);
    s.append(".");
    append_dec(s, o2 as u64);
    s.append(".");
    append_dec(s, o3 as u64);
    assert(s@ =~= s0 + ipv4_text(a));
}

/// The dotted-decimal text of `a`.
pub fn ipv4_to_string(a: u32) -> (r: String)
    ensures
        r@ == ipv4_text(a),
{
    let mut s = String::new();
    append_ipv4(&mut s, a);
    assert(s@ =~= ipv4_text(a));
    s
}

impl Cidr {
    /// The text of the block, as `a.b.c.d/p`.
    pub fn to_text(&self) -> (r: String)
        ensures
            r@ == cidr_text(*self),
    {
        let mut s = String::new();
        append_ipv4(&mut s, self.addr);
        proof {
            reveal_strlit("/");
        }
        s.append("/");
        append_dec(&mut s, self.prefix as u64);
        assert(s@ =~= cidr_text(*self));
        s
    }

    /// First address of the block.
    pub fn network(&self) -> (r: u32)
        requires
            self.wf(),
        ensures
            r == network(*self),
    {
        if self.prefix == 0 {
            self.addr & 0u32
        } else {
            self.addr & (0xffff_ffffu32 << ((32 - self.prefix) as u32))
        }
    }

    /// Last address of the block.
    pub fn broadcast(&self) -> (r: u32)
        requires
            self.wf(),
        ensures
            r == broadcast(*self),
            r == network(*self) + host_mask(self.prefix),
    {
        proof {
            lemma_mask_split(self.addr, self.prefix);
        }
        let m = if self.prefix == 0 {
            0u32
        } else {
            0xffff_ffffu32 << ((32 - self.prefix) as u32)
        };
        self.network() | !m
    }

    /// The first host address of the block (network address plus one); blocks
    /// with a prefix longer than 30 have no room for a gateway and hosts.
    pub fn gateway(&self) -> (r: u32)
        requires
            self.prefix <= 30,
        ensures
            r == gateway(*self),
            r < broadcast(*self),
    {
        proof {
            lemma_mask_split(self.addr, self.prefix);
        }
        let b = self.broadcast();
        self.network() + 1
    }

    /// Whether the two blocks share an address.
    pub fn overlaps(&self, other: &Cidr) -> (r: bool)
        requires
            self.wf(),
            other.wf(),
        ensures
            r == overlap(*self, *other),
    {
        self.network() <= other.broadcast() && other.network() <= self.broadcast()
    }
}

proof fn lemma_octets_compose(a: u32)
    ensures
        a == ((octet0(a) << 24u32) | (octet1(a) << 16u32) | (octet2(a) << 8u32) | octet3(a)),
        octet0(a) < 256,
        octet1(a) < 256,
        octet2(a) < 256,
        octet3(a) < 256,
{
    assert(a == ((((a >> 24u32) & 0xffu32) << 24u32) | (((a >> 16u32) & 0xffu32) << 16u32) | (((a
        >> 8u32) & 0xffu32) << 8u32) | (a & 0xffu32))) by (bit_vector);
    assert(((a >> 24u32) & 0xffu32) < 256) by (bit_vector);
    assert(((a >> 16u32) & 0xffu32) < 256) by (bit_vector);
    assert(((a >> 8u32) & 0xffu32) < 256) by (bit_vector);
    assert((a & 0xffu32) < 256) by (bit_vector);
}

proof fn lemma_octets_of(o0: u32, o1: u32, o2: u32, o3: u32)
    requires
        o0 < 256,
        o1 < 256,
        o2 < 256,
        o3 < 256,
    ensures
        octet0((o0 << 24u32) | (o1 << 16u32) | (o2 << 8u32) | o3) == o0,
        octet1((o0 << 24u32) | (o1 << 16u32) | (o2 << 8u32) | o3) == o1,
        octet2((o0 << 24u32) | (o1 << 16u32) | (o2 << 8u32) | o3) == o2,
        octet3((o0 << 24u32) | (o1 << 16u32) | (o2 << 8u32) | o3) == o3,
{
    assert((((o0 << 24u32) | (o1 << 16u32) | (o2 << 8u32) | o3) >> 24u32) & 0xffu32 == o0)
        by (bit_vector)
        requires
            o0 < 256,
            o1 < 256,
            o2 < 256,
            o3 < 256,
    ;
    assert((((o0 << 24u32) | (o1 << 16u32) | (o2 << 8u32) | o3) >> 16u32) & 0xffu32 == o1)
        by (bit_vector)
        requires
            o0 < 256,
            o1 < 256,
            o2 < 256,
            o3 < 256,
    ;
    assert((((o0 << 24u32) | (o1 << 16u32) | (o2 << 8u32) | o3) >> 8u32) & 0xffu32 == o2)
        by (bit_vector)
        requires
            o0 < 256,
            o1 < 256,
            o2 < 256,
            o3 < 256,
    ;
    assert(((o0 << 24u32) | (o1 << 16u32) | (o2 << 8u32) | o3) & 0xffu32 == o3) by (bit_vector)
        requires
            o0 < 256,
            o1 < 256,
            o2 < 256,
            o3 < 256,
    ;
}

/// Where the parts of `cidr_text(c)` stand.
proof fn lemma_cidr_text_layout(c: Cidr)
    requires
        c.wf(),
    ensures
        ({
            let t = cidr_text(c);
            let k0 = dec(octet0(c.addr) as nat).len() as int;
            let k1 = dec(octet1(c.addr) as nat).len() as int;
            let k2 = dec(octet2(c.addr) as nat).len() as int;
            let k3 = dec(octet3(c.addr) as nat).len() as int;
            let k4 = dec(c.prefix as nat).len() as int;
            let at1 = k0 + 1;
            let at2 = at1 + k1 + 1;
            let at3 = at2 + k2 + 1;
            let at4 = at3 + k3 + 1;
            &&& numeral_at(t, 0, octet0(c.addr) as nat)
            &&& t[k0] == '.'
            &&& numeral_at(t, at1, octet1(c.addr) as nat)
            &&& t[at1 + k1] == '.'
            &&& numeral_at(t, at2, octet2(c.addr) as nat)
            &&& t[at2 + k2] == '.'
            &&& numeral_at(t, at3, octet3(c.addr) as nat)
            &&& t[at3 + k3] == '/'
            &&& numeral_at(t, at4, c.prefix as nat)
            &&& t.len() == at4 + k4
        }),
{
    let t = cidr_text(c);
    let d0 = dec(octet0(c.addr) as nat);
    let d1 = dec(octet1(c.addr) as nat);
    let d2 = dec(octet2(c.addr) as nat);
    let d3 = dec(octet3(c.addr) as nat);
    let d4 = dec(c.prefix as nat);
    let k0 = d0.len() as int;
    let k1 = d1.len() as int;
    let k2 = d2.len() as int;
    let k3 = d3.len() as int;
    let k4 = d4.len() as int;
    let at1 = k0 + 1;
    let at2 = at1 + k1 + 1;
    let at3 = at2 + k2 + 1;
    let at4 = at3 + k3 + 1;
    lemma_dec_facts(octet0(c.addr) as nat);
    lemma_dec_facts(octet1(c.addr) as nat);
    lemma_dec_facts(octet2(c.addr) as nat);
    lemma_dec_facts(octet3(c.addr) as nat);
    lemma_dec_facts(c.prefix as nat);
    assert(t =~= d0 + seq!['.'] + d1 + seq!['.'] + d2 + seq!['.'] + d3 + seq!['/'] + d4);
    assert(t.subrange(0, k0) =~= d0);
    assert(t.subrange(at1, at1 + k1) =~= d1);
    assert(t.subrange(at2, at2 + k2) =~= d2);
    assert(t.subrange(at3, at3 + k3) =~= d3);
    assert(t.subrange(at4, at4 + k4) =~= d4);
}

/// Reads at `i` a numeral of at most `max` followed by the character `sep`;
/// returns its value and the position of `sep`.
fn scan_field(s: &str, i: usize, max: u32, sep: char) -> (r: Option<(u32, usize)>)
    requires
        i <= s@.len(),
        max < 1000,
    ensures
        r matches Some((v, j)) ==> v <= max && numeral_at(s@, i as int, v as nat) && j == i + dec(
            v as nat,
        ).len() && j < s@.len() && s@[j as int] == sep,
        forall|n: nat|
            n <= max && numeral_at(s@, i as int, n) && i + dec(n).len() < s@.len() && s@[i
                + dec(n).len()] == sep ==> r == Some((n as u32, (i + dec(n).len()) as usize)),
{
    match scan_numeral(s, i) {
        Some((v, j)) => {
            if v <= max && j < s.unicode_len() && s.get_char(j) == sep {
                Some((v, j))
            } else {
                None
            }
        },
        None => None,
    }
}

/// Reads a block written as `a.b.c.d/p`: four decimal octets of at most 255
/// and a prefix length of at most 32, each without superfluous leading zeros.
/// Returns `None` exactly when `s` is the text of no such block.
pub fn parse_cidr(s: &str) -> (r: Option<Cidr>)
    ensures
        r matches Some(c) ==> c.wf() && s@ == cidr_text(c),
        r is None ==> forall|c: Cidr| c.wf() ==> s@ != #[trigger] cidr_text(c),
{
    let len = s.unicode_len();
    let f0 = scan_field(s, 0, 255, '.');
    let f1 = match f0 {
        Some((_, i0)) => scan_field(s, i0 + 1, 255, '.'),
        None => None,
    };
    let f2 = match f1 {
        Some((_, i1)) => scan_field(s, i1 + 1, 255, '.'),
        None => None,
    };
    let f3 = match f2 {
        Some((_, i2)) => scan_field(s, i2 + 1, 255, '/'),
        None => None,
    };
    let f4 = match f3 {
        Some((_, i3)) => scan_numeral(s, i3 + 1),
        None => None,
    };
    match (f0, f1, f2, f3, f4) {
        (Some((o0, i0)), Some((o1, i1)), Some((o2, i2)), Some((o3, i3)), Some((p, i4))) => {
            if p <= 32 && i4 == len {
                let addr = (o0 << 24u32) | (o1 << 16u32) | (o2 << 8u32) | o3;
                let c = Cidr { addr, prefix: p as u8 };
                proof {
                    lemma_text_from_fields(s@, o0, o1, o2, o3, p, i0 as int, i1 as int, i2 as int, i3 as int);
                }
                return Some(c);
            }
        },
        _ => {},
    }
    proof {
        assert forall|c: Cidr| c.wf() implies s@ != #[trigger] cidr_text(c) by {
            if s@ == cidr_text(c) {
                lemma_cidr_text_layout(c);
                lemma_octets_compose(c.addr);
            }
        }
    }
    None
}

proof fn lemma_text_from_fields(
    s: Seq<char>,
    o0: u32,
    o1: u32,
    o2: u32,
    o3: u32,
    p: u32,
    i0: int,
    i1: int,
    i2: int,
    i3: int,
)
    requires
        o0 < 256 && o1 < 256 && o2 < 256 && o3 < 256 && p <= 32,
        numeral_at(s, 0, o0 as nat) && i0 == dec(o0 as nat).len() && s[i0] == '.',
        numeral_at(s, i0 + 1, o1 as nat) && i1 == i0 + 1 + dec(o1 as nat).len() && s[i1] == '.',
        numeral_at(s, i1 + 1, o2 as nat) && i2 == i1 + 1 + dec(o2 as nat).len() && s[i2] == '.',
        numeral_at(s, i2 + 1, o3 as nat) && i3 == i2 + 1 + dec(o3 as nat).len() && s[i3] == '/',
        numeral_at(s, i3 + 1, p as nat) && s.len() == i3 + 1 + dec(p as nat).len(),
    ensures
        s == cidr_text(
            Cidr { addr: (o0 << 24u32) | (o1 << 16u32) | (o2 << 8u32) | o3, prefix: p as u8 },
        ),
{
    lemma_octets_of(o0, o1, o2, o3);
    let c = Cidr { addr: (o0 << 24u32) | (o1 << 16u32) | (o2 << 8u32) | o3, prefix: p as u8 };
    assert(s =~= s.subrange(0, i0) + seq!['.'] + s.subrange(i0 + 1, i1) + seq!['.']
        + s.subrange(i1 + 1, i2) + seq!['.'] + s.subrange(i2 + 1, i3) + seq!['/'] + s.subrange(
        i3 + 1,
        s.len() as int,
    ));
    assert(s =~= cidr_text(c));
}

proof fn lemma_numeral_at_unique(s: Seq<char>, i: int, n1: nat, n2: nat)
    requires
        numeral_at(s, i, n1),
        numeral_at(s, i, n2),
    ensures
        n1 == n2,
{
    lemma_dec_facts(n1);
    lemma_dec_facts(n2);
    let k1 = dec(n1).len() as int;
    let k2 = dec(n2).len() as int;
    if k1 < k2 {
        assert(s[i + k1] == s.subrange(i, i + k2)[k1]);
        assert(is_digit(dec(n2)[k1]));
    } else if k2 < k1 {
        assert(s[i + k2] == s.subrange(i, i + k1)[k2]);
        assert(is_digit(dec(n1)[k2]));
    }
}

/// Different blocks have different texts.
pub proof fn lemma_cidr_text_injective(c1: Cidr, c2: Cidr)
    requires
        c1.wf(),
        c2.wf(),
        cidr_text(c1) == cidr_text(c2),
    ensures
        c1 == c2,
{
    let t = cidr_text(c1);
    lemma_cidr_text_layout(c1);
    lemma_cidr_text_layout(c2);
    lemma_octets_compose(c1.addr);
    lemma_octets_compose(c2.addr);
    lemma_numeral_at_unique(t, 0, octet0(c1.addr) as nat, octet0(c2.addr) as nat);
    let at1 = dec(octet0(c1.addr) as nat).len() as int + 1;
    lemma_numeral_at_unique(t, at1, octet1(c1.addr) as nat, octet1(c2.addr) as nat);
    let at2 = at1 + dec(octet1(c1.addr) as nat).len() as int + 1;
    lemma_numeral_at_unique(t, at2, octet2(c1.addr) as nat, octet2(c2.addr) as nat);
    let at3 = at2 + dec(octet2(c1.addr) as nat).len() as int + 1;
    lemma_numeral_at_unique(t, at3, octet3(c1.addr) as nat, octet3(c2.addr) as nat);
    let at4 = at3 + dec(octet3(c1.addr) as nat).len() as int + 1;
    lemma_numeral_at_unique(t, at4, c1.prefix as nat, c2.prefix as nat);
}

/// Whether `t` is the text of a block.
pub open spec fn is_block_text(t: Seq<char>) -> bool {
    exists|c: Cidr| c.wf() && cidr_text(c) == t
}

/// The block whose text is `t`.
pub open spec fn block_of(t: Seq<char>) -> Cidr {
    choose|c: Cidr| c.wf() && cidr_text(c) == t
}

/// Reads a block; `Some` exactly when `s` is the text of a block, and then
/// that block.
pub fn read_block(s: &str) -> (r: Option<Cidr>)
    ensures
        r is Some <==> is_block_text(s@),
        r matches Some(c) ==> c == block_of(s@) && c.wf(),
{
    let r = parse_cidr(s);
    proof {
        if let Some(c) = r {
            let b = block_of(s@);
            lemma_cidr_text_injective(c, b);
        }
    }
    r
}

} // verus!

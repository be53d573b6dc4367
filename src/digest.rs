//! A content digest of a desired-state document: 64-bit FNV-1a over the
//! document's fields, each followed by a separator, rendered in hexadecimal.
use vstd::prelude::*;
use vstd::string::*;
use crate::schema::{str_views, CidrRange, Flavor, Host, Image, IncusCompose, Role, Subnet};
use crate::text::{append_hex2, hex2};

verus! {

pub const FNV_OFFSET: u64 = 0xcbf2_9ce4_8422_2325;

pub const FNV_PRIME: u64 = 0x0000_0100_0000_01b3;

/// Separator that follows each field.
pub const FIELD_SEPARATOR: u64 = 0x1f;

/// One step of FNV-1a on a character's code point.
pub open spec fn fnv_step(h: u64, c: u64) -> u64 {
    vstd::wrapping::u64_specs::wrapping_mul(h ^ c, FNV_PRIME)
}

/// FNV-1a over the characters of `s`, starting from `h`.
pub open spec fn fnv_text(h: u64, s: Seq<char>) -> u64
    decreases s.len(),
{
    if s.len() == 0 {
        h
    } else {
        fnv_step(fnv_text(h, s.drop_last()), s.last() as u32 as u64)
    }
}

/// FNV-1a over each field followed by the separator, starting from `h`.
pub open spec fn fnv_fields(h: u64, fields: Seq<Seq<char>>) -> u64
    decreases fields.len(),
{
    if fields.len() == 0 {
        h
    } else {
        fnv_step(fnv_text(fnv_fields(h, fields.drop_last()), fields.last()), FIELD_SEPARATOR)
    }
}

pub proof fn lemma_fnv_fields_concat(h: u64, a: Seq<Seq<char>>, b: Seq<Seq<char>>)
    ensures
        fnv_fields(h, a + b) == fnv_fields(fnv_fields(h, a), b),
    decreases b.len(),
{
    if b.len() == 0 {
        assert(a + b =~= a);
    } else {
        lemma_fnv_fields_concat(h, a, b.drop_last());
        assert((a + b).drop_last() =~= a + b.drop_last());
    }
}

/// Extends the digest `h` by the characters of `s`.
fn fnv_extend(h: u64, s: &str) -> (r: u64)
    ensures
        r == fnv_text(h, s@),
{
    let len = s.unicode_len();
    let mut acc = h;
    let mut i: usize = 0;
    while i < len
        invariant
            len == s@.len(),
            i <= len,
            acc == fnv_text(h, s@.subrange(0, i as int)),
        decreases len - i,
    {
        let c = s.get_char(i);
        proof {
            assert(s@.subrange(0, i + 1).drop_last() =~= s@.subrange(0, i as int));
        }
        acc = (acc ^ (c as u32 as u64)).wrapping_mul(FNV_PRIME);
        i = i + 1;
    }
    assert(s@.subrange(0, len as int) =~= s@);
    acc
}

/// Extends the digest `h` by one field and its separator.
fn fnv_field(h: u64, s: &str) -> (r: u64)
    ensures
        r == fnv_fields(h, seq![s@]),
{
    let t = fnv_extend(h, s);
    proof {
        assert(seq![s@].drop_last() =~= Seq::<Seq<char>>::empty());
        assert(fnv_fields(h, seq![s@].drop_last()) == h);
    }
    (t ^ FIELD_SEPARATOR).wrapping_mul(FNV_PRIME)
}

/// Extends the digest `h` by each text of `v` as a field.
fn fnv_strings(h: u64, v: &Vec<String>) -> (r: u64)
    ensures
        r == fnv_fields(h, str_views(v@)),
{
    let mut acc = h;
    let mut i: usize = 0;
    while i < v.len()
        invariant
            i <= v@.len(),
            acc == fnv_fields(h, str_views(v@.subrange(0, i as int))),
        decreases v@.len() - i,
    {
        let ghost before = str_views(v@.subrange(0, i as int));
        acc = fnv_field(acc, v[i].as_str());
        proof {
            lemma_fnv_fields_concat(h, before, seq![v@[i as int]@]);
            assert(str_views(v@.subrange(0, i + 1)) =~= before + seq![v@[i as int]@]);
        }
        i = i + 1;
    }
    assert(v@.subrange(0, i as int) =~= v@);
    acc
}

pub open spec fn flag_text(b: bool) -> Seq<char> {
    if b {
        "1"@
    } else {
        "0"@
    }
}

pub open spec fn role_fields(r: Role) -> Seq<Seq<char>> {
    seq![r.spec_name()@] + str_views(r.spec_values())
}

pub open spec fn roles_fields(rs: Seq<Role>) -> Seq<Seq<char>>
    decreases rs.len(),
{
    if rs.len() == 0 {
        seq![]
    } else {
        roles_fields(rs.drop_last()) + role_fields(rs.last())
    }
}

pub open spec fn host_fields(h: Host) -> Seq<Seq<char>> {
    seq![h.name@, h.flavor@, h.image@, flag_text(h.floating_ip), flag_text(h.master), flag_text(h.is_router)]
        + str_views(h.subnets@) + roles_fields(h.roles@)
}

pub open spec fn hosts_fields(hs: Seq<Host>) -> Seq<Seq<char>>
    decreases hs.len(),
{
    if hs.len() == 0 {
        seq![]
    } else {
        hosts_fields(hs.drop_last()) + host_fields(hs.last())
    }
}

pub open spec fn subnet_fields(s: Subnet) -> Seq<Seq<char>> {
    seq![
        s.spec_name()@,
        match s.spec_cidr() {
            Some(t) => t@,
            None => Seq::empty(),
        },
    ]
}

pub open spec fn subnets_fields(ss: Seq<Subnet>) -> Seq<Seq<char>>
    decreases ss.len(),
{
    if ss.len() == 0 {
        seq![]
    } else {
        subnets_fields(ss.drop_last()) + subnet_fields(ss.last())
    }
}

pub open spec fn ranges_fields(rs: Seq<CidrRange>) -> Seq<Seq<char>>
    decreases rs.len(),
{
    if rs.len() == 0 {
        seq![]
    } else {
        ranges_fields(rs.drop_last()) + seq![rs.last().start@, rs.last().end@]
    }
}

pub open spec fn keys_of<T>(t: Seq<(String, T)>) -> Seq<Seq<char>> {
    t.map_values(|e: (String, T)| e.0@)
}

/// The fields the digest covers, in order: the version; each host's name,
/// flavor, image, flags, subnets and roles; each subnet's name and explicit
/// block; each automatic range; the flavor keys; the image keys.
pub open spec fn doc_fields(doc: IncusCompose) -> Seq<Seq<char>> {
    seq![doc.version@] + hosts_fields(doc.hosts@) + subnets_fields(doc.subnets@) + ranges_fields(
        doc.defaults.cidr4_ranges@,
    ) + keys_of(doc.flavors@) + keys_of(doc.images@)
}

/// Sixteen lower-case hexadecimal digits of `h`, most significant first.
pub open spec fn hex64(h: u64) -> Seq<char> {
    hex2(((h >> 56u64) & 0xffu64) as nat) + hex2(((h >> 48u64) & 0xffu64) as nat) + hex2(
        ((h >> 40u64) & 0xffu64) as nat,
    ) + hex2(((h >> 32u64) & 0xffu64) as nat) + hex2(((h >> 24u64) & 0xffu64) as nat) + hex2(
        ((h >> 16u64) & 0xffu64) as nat,
    ) + hex2(((h >> 8u64) & 0xffu64) as nat) + hex2((h & 0xffu64) as nat)
}

impl IncusCompose {
    /// The content digest of the document, as `fnv1a64:` and sixteen
    /// hexadecimal digits.
    pub open spec fn content_digest(&self) -> Seq<char> {
        "fnv1a64:"@ + hex64(fnv_fields(FNV_OFFSET, doc_fields(*self)))
    }
}

fn append_hex64(s: &mut String, h: u64)
    ensures
        final(s)@ == old(s)@ + hex64(h),
{
    let ghost s0 = s@;
    assert(((h >> 56u64) & 0xffu64) < 256) by (bit_vector);
    assert(((h >> 48u64) & 0xffu64) < 256) by (bit_vector);
    assert(((h >> 40u64) & 0xffu64) < 256) by (bit_vector);
    assert(((h >> 32u64) & 0xffu64) < 256) by (bit_vector);
    assert(((h >> 24u64) & 0xffu64) < 256) by (bit_vector);
    assert(((h >> 16u64) & 0xffu64) < 256) by (bit_vector);
    assert(((h >> 8u64) & 0xffu64) < 256) by (bit_vector);
    assert((h & 0xffu64) < 256) by (bit_vector);
    append_hex2(s, (h >> 56u64) & 0xffu64);
    append_hex2(s, (h >> 48u64) & 0xffu64);
    append_hex2(s, (h >> 40u64) & 0xffu64);
    append_hex2(s, (h >> 32u64) & 0xffu64);
    append_hex2(s, (h >> 24u64) & 0xffu64);
    append_hex2(s, (h >> 16u64) & 0xffu64);
    append_hex2(s, (h >> 8u64) & 0xffu64);
    append_hex2(s, h & 0xffu64);
    assert(s@ =~= s0 + hex64(h));
}

fn fnv_host(h: u64, host: &Host) -> (r: u64)
    ensures
        r == fnv_fields(h, host_fields(*host)),
{
    proof {
        reveal_strlit("1");
        reveal_strlit("0");
    }
    let mut acc = fnv_field(h, host.name.as_str());
    let ghost f1 = seq![host.name@];
    acc = fnv_field(acc, host.flavor.as_str());
    proof { lemma_fnv_fields_concat(h, f1, seq![host.flavor@]); }
    let ghost f2 = f1 + seq![host.flavor@];
    acc = fnv_field(acc, host.image.as_str());
    proof { lemma_fnv_fields_concat(h, f2, seq![host.image@]); }
    let ghost f3 = f2 + seq![host.image@];
    acc = fnv_field(acc, if host.floating_ip { "1" } else { "0" });
    proof { lemma_fnv_fields_concat(h, f3, seq![flag_text(host.floating_ip)]); }
    let ghost f4 = f3 + seq![flag_text(host.floating_ip)];
    acc = fnv_field(acc, if host.master { "1" } else { "0" });
    proof { lemma_fnv_fields_concat(h, f4, seq![flag_text(host.master)]); }
    let ghost f5 = f4 + seq![flag_text(host.master)];
    acc = fnv_field(acc, if host.is_router { "1" } else { "0" });
    proof { lemma_fnv_fields_concat(h, f5, seq![flag_text(host.is_router)]); }
    let ghost f6 = f5 + seq![flag_text(host.is_router)];
    acc = fnv_strings(acc, &host.subnets);
    proof { lemma_fnv_fields_concat(h, f6, str_views(host.subnets@)); }
    let ghost f7 = f6 + str_views(host.subnets@);
    let mut i: usize = 0;
    while i < host.roles.len()
        invariant
            i <= host.roles@.len(),
            acc == fnv_fields(h, f7 + roles_fields(host.roles@.subrange(0, i as int))),
        decreases host.roles@.len() - i,
    {
        let ghost before = f7 + roles_fields(host.roles@.subrange(0, i as int));
        let role = &host.roles[i];
        acc = fnv_field(acc, role.name());
        proof { lemma_fnv_fields_concat(h, before, seq![role.spec_name()@]); }
        let values = role.values();
        let mut k: usize = 0;
        while k < values.len()
            invariant
                k <= values@.len(),
                acc == fnv_fields(h, before + seq![role.spec_name()@] + str_views(values@.subrange(0, k as int))),
            decreases values@.len() - k,
        {
            let ghost b2 = before + seq![role.spec_name()@] + str_views(values@.subrange(0, k as int));
            acc = fnv_field(acc, values[k].as_str());
            proof {
                lemma_fnv_fields_concat(h, b2, seq![values@[k as int]@]);
                assert(before + seq![role.spec_name()@] + str_views(values@.subrange(0, k + 1)) =~= b2 + seq![values@[k as int]@]);
            }
            k = k + 1;
        }
        proof {
            assert(values@.subrange(0, k as int) =~= values@);
            assert(host.roles@.subrange(0, i + 1).drop_last() =~= host.roles@.subrange(0, i as int));
            assert(f7 + roles_fields(host.roles@.subrange(0, i + 1)) =~= before + seq![role.spec_name()@] + str_views(values@));
        }
        i = i + 1;
    }
    proof {
        assert(host.roles@.subrange(0, i as int) =~= host.roles@);
        assert(f7 + roles_fields(host.roles@) =~= host_fields(*host));
    }
    acc
}

impl IncusCompose {
    /// The content digest of the document.
    pub fn calculate_hash(&self) -> (r: String)
        ensures
            r@ == self.content_digest(),
    {
        let mut acc = fnv_field(FNV_OFFSET, self.version.as_str());
        let ghost f0 = seq![self.version@];
        let mut i: usize = 0;
        while i < self.hosts.len()
            invariant
                i <= self.hosts@.len(),
                acc == fnv_fields(FNV_OFFSET, f0 + hosts_fields(self.hosts@.subrange(0, i as int))),
            decreases self.hosts@.len() - i,
        {
            let ghost before = f0 + hosts_fields(self.hosts@.subrange(0, i as int));
            acc = fnv_host(acc, &self.hosts[i]);
            proof {
                lemma_fnv_fields_concat(FNV_OFFSET, before, host_fields(self.hosts@[i as int]));
                assert(self.hosts@.subrange(0, i + 1).drop_last() =~= self.hosts@.subrange(0, i as int));
                assert(f0 + hosts_fields(self.hosts@.subrange(0, i + 1)) =~= before + host_fields(self.hosts@[i as int]));
            }
            i = i + 1;
        }
        let ghost f1 = f0 + hosts_fields(self.hosts@);
        proof {
            assert(self.hosts@.subrange(0, i as int) =~= self.hosts@);
        }
        let mut i: usize = 0;
        while i < self.subnets.len()
            invariant
                i <= self.subnets@.len(),
                acc == fnv_fields(FNV_OFFSET, f1 + subnets_fields(self.subnets@.subrange(0, i as int))),
            decreases self.subnets@.len() - i,
        {
            let ghost before = f1 + subnets_fields(self.subnets@.subrange(0, i as int));
            let s = &self.subnets[i];
            acc = fnv_field(acc, s.name());
            proof { lemma_fnv_fields_concat(FNV_OFFSET, before, seq![s.spec_name()@]); }
            let ghost b2 = before + seq![s.spec_name()@];
            let cidr_text = match s.cidr() {
                Some(t) => t,
                None => "",
            };
            proof {
                reveal_strlit("");
            }
            acc = fnv_field(acc, cidr_text);
            proof {
                assert(cidr_text@ == (match s.spec_cidr() {
                    Some(t) => t@,
                    None => Seq::<char>::empty(),
                }));
                assert(subnet_fields(*s) =~= seq![s.spec_name()@, cidr_text@]);
                lemma_fnv_fields_concat(FNV_OFFSET, b2, seq![cidr_text@]);
                assert(self.subnets@.subrange(0, i + 1).drop_last() =~= self.subnets@.subrange(0, i as int));
                assert(f1 + subnets_fields(self.subnets@.subrange(0, i + 1)) =~= b2 + seq![cidr_text@]);
            }
            i = i + 1;
        }
        let ghost f2 = f1 + subnets_fields(self.subnets@);
        proof {
            assert(self.subnets@.subrange(0, i as int) =~= self.subnets@);
        }
        let ranges = &self.defaults.cidr4_ranges;
        let mut i: usize = 0;
        while i < ranges.len()
            invariant
                i <= ranges@.len(),
                acc == fnv_fields(FNV_OFFSET, f2 + ranges_fields(ranges@.subrange(0, i as int))),
            decreases ranges@.len() - i,
        {
            let ghost before = f2 + ranges_fields(ranges@.subrange(0, i as int));
            acc = fnv_field(acc, ranges[i].start.as_str());
            proof { lemma_fnv_fields_concat(FNV_OFFSET, before, seq![ranges@[i as int].start@]); }
            let ghost b2 = before + seq![ranges@[i as int].start@];
            acc = fnv_field(acc, ranges[i].end.as_str());
            proof {
                lemma_fnv_fields_concat(FNV_OFFSET, b2, seq![ranges@[i as int].end@]);
                assert(ranges@.subrange(0, i + 1).drop_last() =~= ranges@.subrange(0, i as int));
                assert(f2 + ranges_fields(ranges@.subrange(0, i + 1)) =~= b2 + seq![ranges@[i as int].end@]);
            }
            i = i + 1;
        }
        let ghost f3 = f2 + ranges_fields(ranges@);
        proof {
            assert(ranges@.subrange(0, i as int) =~= ranges@);
        }
        let mut i: usize = 0;
        while i < self.flavors.len()
            invariant
                i <= self.flavors@.len(),
                acc == fnv_fields(FNV_OFFSET, f3 + keys_of(self.flavors@.subrange(0, i as int))),
            decreases self.flavors@.len() - i,
        {
            let ghost before = f3 + keys_of(self.flavors@.subrange(0, i as int));
            acc = fnv_field(acc, self.flavors[i].0.as_str());
            proof {
                lemma_fnv_fields_concat(FNV_OFFSET, before, seq![self.flavors@[i as int].0@]);
                assert(f3 + keys_of(self.flavors@.subrange(0, i + 1)) =~= before + seq![self.flavors@[i as int].0@]);
            }
            i = i + 1;
        }
        let ghost f4 = f3 + keys_of(self.flavors@);
        proof {
            assert(self.flavors@.subrange(0, i as int) =~= self.flavors@);
        }
        let mut i: usize = 0;
        while i < self.images.len()
            invariant
                i <= self.images@.len(),
                acc == fnv_fields(FNV_OFFSET, f4 + keys_of(self.images@.subrange(0, i as int))),
            decreases self.images@.len() - i,
        {
            let ghost before = f4 + keys_of(self.images@.subrange(0, i as int));
            acc = fnv_field(acc, self.images[i].0.as_str());
            proof {
                lemma_fnv_fields_concat(FNV_OFFSET, before, seq![self.images@[i as int].0@]);
                assert(f4 + keys_of(self.images@.subrange(0, i + 1)) =~= before + seq![self.images@[i as int].0@]);
            }
            i = i + 1;
        }
        proof {
            assert(self.images@.subrange(0, i as int) =~= self.images@);
            assert(f4 + keys_of(self.images@) =~= doc_fields(*self));
            reveal_strlit("fnv1a64:");
        }
        let mut s = String::from_str("fnv1a64:");
        append_hex64(&mut s, acc);
        s
    }
}

} // verus!

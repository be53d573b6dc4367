//! The resolution engine: validates a desired-state document, resolves every
//! subnet and host against the ledger, and carries forward what a prior
//! resolved state already assigned.
use vstd::prelude::*;
use vstd::string::*;
use crate::allocator::{
    block_addr_text, contains_ip, contains_text, first_free, first_free_in_ranges, holds_ip,
    holds_text, mac_text, next_free_ip, next_free_mac, next_free_ordinal, ordinal_text,
    overlaps_any, range_block, range_has_free, HOST_FIRST_OFFSET, MAX_MAC_COUNTER, MAX_ORDINAL,
    ROUTER_FIRST_OFFSET,
};
use crate::net::{
    block_of, cidr_text, gateway, host_mask, ipv4_text, ipv4_to_string, is_block_text, network,
    overlap, read_block, Cidr,
};
use crate::digest::keys_of;
use crate::schema::{
    copy_flavors, copy_images, copy_opt_string, default_instance_type, default_network_type,
    default_resources, default_resources_spec, str_views, CidrRange, ExpandedHost, ExpandedSubnet,
    Flavor, Host, IncusCompose, IncusLockfile, InstanceType, LockfileMetadata, NetworkType,
    Resources, RoleConfig, Subnet, UsedValues,
};

verus! {

/// Why a document could not be resolved, or a state not be loaded or saved.
/// Each error names the entity or resource class concerned.
#[derive(Debug, Clone)]
pub enum ComposeError {
    DocumentNotFound(String),
    ParseError(String),
    ReferenceError(String),
    AllocationExhausted(String),
    PersistenceError(String),
}

/// Whether the texts are pairwise different.
pub open spec fn distinct(s: Seq<Seq<char>>) -> bool {
    forall|i: int, j: int| 0 <= i < s.len() && 0 <= j < s.len() && i != j ==> s[i] != s[j]
}

/// Whether a range names two blocks of one prefix length, the first not
/// above the second.
pub open spec fn range_ok(r: CidrRange) -> bool {
    &&& is_block_text(r.start@)
    &&& is_block_text(r.end@)
    &&& block_of(r.start@).prefix == block_of(r.end@).prefix
    &&& network(block_of(r.start@)) <= network(block_of(r.end@))
}

/// Whether an entry of the table has key `k`.
pub open spec fn has_key<T>(table: Seq<(String, T)>, k: Seq<char>) -> bool {
    exists|i: int| 0 <= i < table.len() && (#[trigger] table[i]).0@ == k
}

impl IncusCompose {
    pub open spec fn subnet_names(&self) -> Seq<Seq<char>> {
        self.subnets@.map_values(|s: Subnet| s.spec_name()@)
    }

    pub open spec fn host_names(&self) -> Seq<Seq<char>> {
        self.hosts@.map_values(|h: Host| h.name@)
    }

    /// The document is well formed: explicit blocks and ranges are readable,
    /// subnet names, host names, flavor keys and image keys are unique, and no
    /// host lists a subnet twice.
    pub open spec fn well_formed(&self) -> bool {
        &&& forall|i: int|
            0 <= i < self.subnets@.len() ==> ((#[trigger] self.subnets@[i]).spec_cidr() matches Some(t)
                ==> is_block_text(t@))
        &&& forall|i: int|
            0 <= i < self.defaults.cidr4_ranges@.len() ==> range_ok(
                #[trigger] self.defaults.cidr4_ranges@[i],
            )
        &&& distinct(self.subnet_names())
        &&& distinct(self.host_names())
        &&& distinct(keys_of(self.flavors@))
        &&& distinct(keys_of(self.images@))
        &&& forall|i: int|
            0 <= i < self.hosts@.len() ==> distinct(str_views((#[trigger] self.hosts@[i]).subnets@))
    }

    /// Every reference resolves: each subnet a host lists is declared, and its
    /// flavor and image are in their tables, unless a table is left empty (to
    /// be defined outside the document).
    pub open spec fn references_resolve(&self) -> bool {
        forall|i: int|
            0 <= i < self.hosts@.len() ==> {
                let h = #[trigger] self.hosts@[i];
                &&& forall|k: int|
                    0 <= k < h.subnets@.len() ==> self.subnet_names().contains(
                        (#[trigger] h.subnets@[k])@,
                    )
                &&& self.flavors@.len() == 0 || has_key(self.flavors@, h.flavor@)
                &&& self.images@.len() == 0 || has_key(self.images@, h.image@)
            }
    }
}

/// The text of an unresolved reference: the host, the kind of entity, and
/// the name that does not resolve, as `web: subnet backend`.
pub open spec fn reference_text(host: Seq<char>, kind: Seq<char>, name: Seq<char>) -> Seq<char> {
    host + ": "@ + kind + " "@ + name
}

impl IncusCompose {
    /// Whether `t` names a reference of host `i` that does not resolve.
    pub open spec fn unresolved_reference(&self, i: int, t: Seq<char>) -> bool {
        let h = self.hosts@[i];
        ||| exists|k: int|
            0 <= k < h.subnets@.len() && !self.subnet_names().contains((#[trigger] h.subnets@[k])@) && t
                == reference_text(h.name@, "subnet"@, h.subnets@[k]@)
        ||| (self.flavors@.len() > 0 && !has_key(self.flavors@, h.flavor@) && t == reference_text(
            h.name@,
            "flavor"@,
            h.flavor@,
        ))
        ||| (self.images@.len() > 0 && !has_key(self.images@, h.image@) && t == reference_text(
            h.name@,
            "image"@,
            h.image@,
        ))
    }

    /// Whether the error names what it is about: a reference error names a
    /// host and the reference of it that does not resolve; an exhaustion
    /// error names the subnet or the class of values that ran out.
    pub open spec fn error_names_entity(&self, e: ComposeError) -> bool {
        &&& (e is ReferenceError ==> exists|i: int|
            0 <= i < self.hosts@.len() && #[trigger] self.unresolved_reference(i, e->ReferenceError_0@))
        &&& (e is AllocationExhausted ==> self.exhausted_resource(e->AllocationExhausted_0@))
    }

    /// Whether `t` names what ran out: a subnet (its block or its addresses),
    /// or the class of identifiers or hardware addresses.
    pub open spec fn exhausted_resource(&self, t: Seq<char>) -> bool {
        self.subnet_names().contains(t) || t == "subnet ids"@ || t == "host ids"@ || t
            == "mac addresses"@
    }
}

fn reference_message(host: &String, kind: &str, name: &String) -> (r: String)
    ensures
        r@ == reference_text(host@, kind@, name@),
{
    proof {
        reveal_strlit(": ");
        reveal_strlit(" ");
    }
    let mut s = host.clone();
    s.append(": ");
    s.append(kind);
    s.append(" ");
    s.append(name.as_str());
    s
}

/// The keys of a table, in order.
fn table_keys<T>(t: &Vec<(String, T)>) -> (r: Vec<String>)
    ensures
        str_views(r@) == keys_of(t@),
{
    let mut r: Vec<String> = Vec::new();
    let mut i: usize = 0;
    while i < t.len()
        invariant
            i <= t@.len(),
            str_views(r@) =~= keys_of(t@.subrange(0, i as int)),
        decreases t@.len() - i,
    {
        let ghost before = r@;
        r.push(t[i].0.clone());
        assert(str_views(r@) =~= str_views(before).push(t@[i as int].0@));
        assert(keys_of(t@.subrange(0, i + 1)) =~= keys_of(t@.subrange(0, i as int)).push(t@[i as int].0@));
        i = i + 1;
    }
    assert(t@.subrange(0, i as int) =~= t@);
    r
}

/// Whether the texts in `v` are pairwise different.
pub fn all_distinct(v: &Vec<String>) -> (r: bool)
    ensures
        r == distinct(str_views(v@)),
{
    let mut i: usize = 0;
    while i < v.len()
        invariant
            i <= v@.len(),
            forall|a: int, b: int| 0 <= a < i && 0 <= b < v@.len() && a != b ==> v@[a]@ != v@[b]@,
        decreases v@.len() - i,
    {
        let mut j: usize = 0;
        while j < v.len()
            invariant
                i < v@.len(),
                j <= v@.len(),
                forall|a: int, b: int| 0 <= a < i && 0 <= b < v@.len() && a != b ==> v@[a]@ != v@[b]@,
                forall|b: int| 0 <= b < j && i != b ==> v@[i as int]@ != v@[b]@,
            decreases v@.len() - j,
        {
            if i != j && v[i] == v[j] {
                assert(str_views(v@)[i as int] == str_views(v@)[j as int]);
                return false;
            }
            j = j + 1;
        }
        i = i + 1;
    }
    assert(distinct(str_views(v@)));
    true
}

/// Whether some entry of the table has key `k`.
pub fn table_has_key<T>(table: &Vec<(String, T)>, k: &String) -> (r: bool)
    ensures
        r == has_key(table@, k@),
{
    let mut i: usize = 0;
    while i < table.len()
        invariant
            i <= table@.len(),
            forall|j: int| 0 <= j < i ==> (#[trigger] table@[j]).0@ != k@,
        decreases table@.len() - i,
    {
        if table[i].0 == *k {
            return true;
        }
        i = i + 1;
    }
    false
}

/// First block of the range used when the document configures none.
pub const FALLBACK_RANGE_START: u32 = 0xc0a8_0a00;

/// Last block of the range used when the document configures none.
pub const FALLBACK_RANGE_END: u32 = 0xc0a8_ff00;

/// Prefix length of the blocks of the fallback range.
pub const FALLBACK_RANGE_PREFIX: u8 = 24;

/// The ranges automatic blocks come from: the configured ones, in order, or
/// the fallback range `192.168.10.0/24` to `192.168.255.0/24`.
pub open spec fn auto_ranges_of(ranges: Seq<CidrRange>) -> Seq<(Cidr, Cidr)> {
    if ranges.len() == 0 {
        seq![
            (
                Cidr { addr: FALLBACK_RANGE_START, prefix: FALLBACK_RANGE_PREFIX },
                Cidr { addr: FALLBACK_RANGE_END, prefix: FALLBACK_RANGE_PREFIX },
            ),
        ]
    } else {
        ranges.map_values(|r: CidrRange| (block_of(r.start@), block_of(r.end@)))
    }
}

/// Reads the two ends of a range; `Some` exactly when the range is well formed.
fn read_range(r: &CidrRange) -> (p: Option<(Cidr, Cidr)>)
    ensures
        p is Some <==> range_ok(*r),
        p matches Some(x) ==> x == (block_of(r.start@), block_of(r.end@)) && x.0.wf() && x.1.wf()
            && x.0.prefix == x.1.prefix,
{
    match (read_block(r.start.as_str()), read_block(r.end.as_str())) {
        (Some(a), Some(b)) => {
            if a.prefix == b.prefix && a.network() <= b.network() {
                Some((a, b))
            } else {
                None
            }
        },
        _ => None,
    }
}

impl IncusCompose {
    /// The explicit block of each subnet, read from its text.
    pub open spec fn explicit_block(&self, i: int) -> Option<Cidr> {
        match self.subnets@[i].spec_cidr() {
            Some(t) => Some(block_of(t@)),
            None => None,
        }
    }

    /// Reads the explicit block of each subnet.
    fn read_subnet_blocks(&self) -> (r: Result<Vec<Option<Cidr>>, ComposeError>)
        ensures
            r is Ok <==> forall|i: int|
                0 <= i < self.subnets@.len() ==> ((#[trigger] self.subnets@[i]).spec_cidr() matches Some(
                    t,
                ) ==> is_block_text(t@)),
            r matches Err(e) ==> e is ParseError,
            r matches Ok(v) ==> v@.len() == self.subnets@.len() && forall|i: int|
                0 <= i < v@.len() ==> (#[trigger] v@[i]) == self.explicit_block(i) && (v@[i] matches Some(c) ==> c.wf()),
    {
        let mut v: Vec<Option<Cidr>> = Vec::new();
        let mut i: usize = 0;
        while i < self.subnets.len()
            invariant
                i <= self.subnets@.len(),
                v@.len() == i,
                forall|j: int| 0 <= j < i ==> ((#[trigger] self.subnets@[j]).spec_cidr() matches Some(
                    t,
                ) ==> is_block_text(t@)),
                forall|j: int|
                    0 <= j < i ==> (#[trigger] v@[j]) == self.explicit_block(j) && (v@[j] matches Some(c) ==> c.wf()),
            decreases self.subnets@.len() - i,
        {
            let s = &self.subnets[i];
            match s.cidr() {
                Some(t) => {
                    match read_block(t) {
                        Some(c) => {
                            v.push(Some(c));
                        },
                        None => {
                            let name = String::from_str(s.name());
                            return Err(ComposeError::ParseError(name));
                        },
                    }
                },
                None => {
                    v.push(None);
                },
            }
            i = i + 1;
        }
        Ok(v)
    }

    /// Reads the ranges automatic blocks come from.
    fn read_auto_ranges(&self) -> (r: Result<Vec<(Cidr, Cidr)>, ComposeError>)
        ensures
            r is Ok <==> forall|i: int|
                0 <= i < self.defaults.cidr4_ranges@.len() ==> range_ok(
                    #[trigger] self.defaults.cidr4_ranges@[i],
                ),
            r matches Err(e) ==> e is ParseError,
            r matches Ok(v) ==> v@ == auto_ranges_of(self.defaults.cidr4_ranges@) && forall|i: int|
                0 <= i < v@.len() ==> (#[trigger] v@[i]).0.wf() && v@[i].1.wf() && v@[i].0.prefix
                    == v@[i].1.prefix,
    {
        let ranges = &self.defaults.cidr4_ranges;
        let mut v: Vec<(Cidr, Cidr)> = Vec::new();
        if ranges.len() == 0 {
            v.push(
                (
                    Cidr { addr: FALLBACK_RANGE_START, prefix: FALLBACK_RANGE_PREFIX },
                    Cidr { addr: FALLBACK_RANGE_END, prefix: FALLBACK_RANGE_PREFIX },
                ),
            );
            assert(v@ =~= auto_ranges_of(ranges@));
            return Ok(v);
        }
        let mut i: usize = 0;
        while i < ranges.len()
            invariant
                i <= ranges@.len(),
                ranges@ == self.defaults.cidr4_ranges@,
                ranges@.len() > 0,
                v@.len() == i,
                forall|j: int| 0 <= j < i ==> range_ok(#[trigger] ranges@[j]),
                forall|j: int|
                    0 <= j < i ==> (#[trigger] v@[j]) == (block_of(ranges@[j].start@), block_of(ranges@[j].end@))
                        && v@[j].0.wf() && v@[j].1.wf() && v@[j].0.prefix == v@[j].1.prefix,
            decreases ranges@.len() - i,
        {
            match read_range(&ranges[i]) {
                Some(pair) => {
                    v.push(pair);
                },
                None => {
                    return Err(ComposeError::ParseError(ranges[i].start.clone()));
                },
            }
            i = i + 1;
        }
        assert(v@ =~= auto_ranges_of(ranges@));
        Ok(v)
    }
}

proof fn lemma_holds_text_views(v: Seq<String>, t: Seq<char>)
    ensures
        holds_text(v, t) <==> str_views(v).contains(t),
{
    if holds_text(v, t) {
        let k = choose|k: int| 0 <= k < v.len() && (#[trigger] v[k])@ == t;
        assert(str_views(v)[k] == t);
    }
    if str_views(v).contains(t) {
        let k = choose|k: int| 0 <= k < str_views(v).len() && str_views(v)[k] == t;
        assert(v[k]@ == t);
    }
}

impl IncusCompose {
    fn subnet_name_list(&self) -> (r: Vec<String>)
        ensures
            str_views(r@) == self.subnet_names(),
    {
        let mut r: Vec<String> = Vec::new();
        let mut i: usize = 0;
        while i < self.subnets.len()
            invariant
                i <= self.subnets@.len(),
                str_views(r@) =~= self.subnet_names().subrange(0, i as int),
            decreases self.subnets@.len() - i,
        {
            let ghost before = r@;
            r.push(String::from_str(self.subnets[i].name()));
            assert(str_views(r@) =~= str_views(before).push(self.subnet_names()[i as int]));
            assert(self.subnet_names().subrange(0, i + 1) =~= self.subnet_names().subrange(0, i as int).push(self.subnet_names()[i as int]));
            i = i + 1;
        }
        assert(self.subnet_names().subrange(0, i as int) =~= self.subnet_names());
        r
    }

    fn host_name_list(&self) -> (r: Vec<String>)
        ensures
            str_views(r@) == self.host_names(),
    {
        let mut r: Vec<String> = Vec::new();
        let mut i: usize = 0;
        while i < self.hosts.len()
            invariant
                i <= self.hosts@.len(),
                str_views(r@) =~= self.host_names().subrange(0, i as int),
            decreases self.hosts@.len() - i,
        {
            let ghost before = r@;
            r.push(self.hosts[i].name.clone());
            assert(str_views(r@) =~= str_views(before).push(self.host_names()[i as int]));
            assert(self.host_names().subrange(0, i + 1) =~= self.host_names().subrange(0, i as int).push(self.host_names()[i as int]));
            i = i + 1;
        }
        assert(self.host_names().subrange(0, i as int) =~= self.host_names());
        r
    }

    /// Checks the document before anything is allocated: first that it is well
    /// formed, then that its references resolve. On success, returns the
    /// explicit block of each subnet and the ranges for automatic blocks.
    pub fn validate(&self) -> (r: Result<(Vec<Option<Cidr>>, Vec<(Cidr, Cidr)>), ComposeError>)
        ensures
            r is Ok <==> self.well_formed() && self.references_resolve(),
            r matches Err(e) ==> (e is ParseError <==> !self.well_formed()) && (e is ReferenceError
                <==> (self.well_formed() && !self.references_resolve())),
            r matches Err(e) ==> self.error_names_entity(e),
            r matches Ok((blocks, ranges)) ==> {
                &&& blocks@.len() == self.subnets@.len()
                &&& forall|i: int|
                    0 <= i < blocks@.len() ==> (#[trigger] blocks@[i]) == self.explicit_block(i) && (
                    blocks@[i] matches Some(c) ==> c.wf())
                &&& ranges@ == auto_ranges_of(self.defaults.cidr4_ranges@)
                &&& forall|i: int|
                    0 <= i < ranges@.len() ==> (#[trigger] ranges@[i]).0.wf() && ranges@[i].1.wf()
                        && ranges@[i].0.prefix == ranges@[i].1.prefix
            },
    {
        let blocks = match self.read_subnet_blocks() {
            Ok(b) => b,
            Err(e) => {
                return Err(e);
            },
        };
        let ranges = match self.read_auto_ranges() {
            Ok(v) => v,
            Err(e) => {
                return Err(e);
            },
        };
        let subnet_names = self.subnet_name_list();
        if !all_distinct(&subnet_names) {
            return Err(ComposeError::ParseError(String::from_str("subnets")));
        }
        let host_names = self.host_name_list();
        if !all_distinct(&host_names) {
            return Err(ComposeError::ParseError(String::from_str("hosts")));
        }
        if !all_distinct(&table_keys(&self.flavors)) {
            return Err(ComposeError::ParseError(String::from_str("flavors")));
        }
        if !all_distinct(&table_keys(&self.images)) {
            return Err(ComposeError::ParseError(String::from_str("images")));
        }
        let mut i: usize = 0;
        while i < self.hosts.len()
            invariant
                i <= self.hosts@.len(),
                forall|j: int| 0 <= j < i ==> distinct(str_views((#[trigger] self.hosts@[j]).subnets@)),
            decreases self.hosts@.len() - i,
        {
            if !all_distinct(&self.hosts[i].subnets) {
                return Err(ComposeError::ParseError(self.hosts[i].name.clone()));
            }
            i = i + 1;
        }
        assert(self.well_formed());
        let mut i: usize = 0;
        while i < self.hosts.len()
            invariant
                i <= self.hosts@.len(),
                self.well_formed(),
                str_views(subnet_names@) == self.subnet_names(),
                forall|j: int|
                    0 <= j < i ==> {
                        let h = #[trigger] self.hosts@[j];
                        &&& forall|k: int|
                            0 <= k < h.subnets@.len() ==> self.subnet_names().contains(
                                (#[trigger] h.subnets@[k])@,
                            )
                        &&& self.flavors@.len() == 0 || has_key(self.flavors@, h.flavor@)
                        &&& self.images@.len() == 0 || has_key(self.images@, h.image@)
                    },
            decreases self.hosts@.len() - i,
        {
            let h = &self.hosts[i];
            let mut k: usize = 0;
            while k < h.subnets.len()
                invariant
                    k <= h.subnets@.len(),
                    h == self.hosts@[i as int],
                    i < self.hosts@.len(),
                    self.well_formed(),
                    str_views(subnet_names@) == self.subnet_names(),
                    forall|k2: int|
                        0 <= k2 < k ==> self.subnet_names().contains((#[trigger] h.subnets@[k2])@),
                decreases h.subnets@.len() - k,
            {
                proof {
                    lemma_holds_text_views(subnet_names@, h.subnets@[k as int]@);
                }
                if !contains_text(&subnet_names, &h.subnets[k]) {
                    assert(!self.subnet_names().contains(self.hosts@[i as int].subnets@[k as int]@));
                    let msg = reference_message(&h.name, "subnet", &h.subnets[k]);
                    proof {
                        reveal_strlit("subnet");
                        assert(self.unresolved_reference(i as int, msg@));
                        let e = ComposeError::ReferenceError(msg);
                        assert(e->ReferenceError_0 == msg);
                        assert(e is ReferenceError);
                        assert(self.unresolved_reference(i as int, e->ReferenceError_0@));
                        assert(self.error_names_entity(e));
                    }
                    return Err(ComposeError::ReferenceError(msg));
                }
                k = k + 1;
            }
            if self.flavors.len() > 0 && !table_has_key(&self.flavors, &h.flavor) {
                assert(!has_key(self.flavors@, self.hosts@[i as int].flavor@));
                let msg = reference_message(&h.name, "flavor", &h.flavor);
                proof {
                    reveal_strlit("flavor");
                    assert(self.unresolved_reference(i as int, msg@));
                    let e = ComposeError::ReferenceError(msg);
                    assert(e->ReferenceError_0 == msg);
                    assert(self.unresolved_reference(i as int, e->ReferenceError_0@));
                    assert(self.error_names_entity(e));
                }
                return Err(ComposeError::ReferenceError(msg));
            }
            if self.images.len() > 0 && !table_has_key(&self.images, &h.image) {
                assert(!has_key(self.images@, self.hosts@[i as int].image@));
                let msg = reference_message(&h.name, "image", &h.image);
                proof {
                    reveal_strlit("image");
                    assert(self.unresolved_reference(i as int, msg@));
                    let e = ComposeError::ReferenceError(msg);
                    assert(e->ReferenceError_0 == msg);
                    assert(self.unresolved_reference(i as int, e->ReferenceError_0@));
                    assert(self.error_names_entity(e));
                }
                return Err(ComposeError::ReferenceError(msg));
            }
            i = i + 1;
        }
        Ok((blocks, ranges))
    }
}

/// Every value recorded in `a` is still recorded, in place, in `b`: the
/// ledger only ever grows.
pub open spec fn ledger_kept(a: UsedValues, b: UsedValues) -> bool {
    &&& a.host_ids@.is_prefix_of(b.host_ids@)
    &&& a.subnet_ids@.is_prefix_of(b.subnet_ids@)
    &&& a.mac_addresses@.is_prefix_of(b.mac_addresses@)
    &&& a.ip_addresses@.is_prefix_of(b.ip_addresses@)
}

/// Whether `i` is the first subnet of `v` named `n`.
pub open spec fn first_subnet_named(v: Seq<ExpandedSubnet>, n: Seq<char>, i: int) -> bool {
    0 <= i < v.len() && v[i].name@ == n && forall|j: int| 0 <= j < i ==> (#[trigger] v[j]).name@ != n
}

/// The first subnet of `v` named `n`.
pub fn find_subnet(v: &Vec<ExpandedSubnet>, n: &String) -> (r: Option<usize>)
    ensures
        r matches Some(i) ==> first_subnet_named(v@, n@, i as int),
        r is None ==> forall|j: int| 0 <= j < v@.len() ==> (#[trigger] v@[j]).name@ != n@,
{
    let mut i: usize = 0;
    while i < v.len()
        invariant
            i <= v@.len(),
            forall|j: int| 0 <= j < i ==> (#[trigger] v@[j]).name@ != n@,
        decreases v@.len() - i,
    {
        if v[i].name == *n {
            return Some(i);
        }
        i = i + 1;
    }
    None
}

/// The subnet identifier a prior state offers for a subnet named `n` whose
/// block reads `cidr`: that of its first subnet of that name, if the block is
/// unchanged.
pub open spec fn offered_subnet_id(prior: Option<IncusLockfile>, n: Seq<char>, cidr: Seq<char>) -> Option<Seq<char>> {
    match prior {
        Some(p) => if exists|i: int| first_subnet_named(p.subnets@, n, i) {
            let i = choose|i: int| first_subnet_named(p.subnets@, n, i);
            if p.subnets@[i].cidr@ == cidr {
                Some(p.subnets@[i].id@)
            } else {
                None
            }
        } else {
            None
        },
        None => None,
    }
}

proof fn lemma_first_named_unique(v: Seq<ExpandedSubnet>, n: Seq<char>, i: int, j: int)
    requires
        first_subnet_named(v, n, i),
        first_subnet_named(v, n, j),
    ensures
        i == j,
{
    if i < j {
        assert(v[i].name@ != n);
    }
    if j < i {
        assert(v[j].name@ != n);
    }
}

/// The explicit blocks of the first `n` subnets, in order.
pub open spec fn explicit_upto(doc: IncusCompose, n: int) -> Seq<Cidr>
    decreases n,
{
    if n <= 0 {
        seq![]
    } else {
        explicit_upto(doc, n - 1) + match doc.explicit_block(n - 1) {
            Some(c) => seq![c],
            None => seq![],
        }
    }
}

/// The automatic blocks among the first `n` resolved blocks, in order.
pub open spec fn autos_upto(doc: IncusCompose, blocks: Seq<Cidr>, n: int) -> Seq<Cidr>
    decreases n,
{
    if n <= 0 {
        seq![]
    } else {
        autos_upto(doc, blocks, n - 1) + if doc.explicit_block(n - 1) is None {
            seq![blocks[n - 1]]
        } else {
            seq![]
        }
    }
}

/// The blocks an automatic block of subnet `j` must avoid: every explicit
/// block, and the automatic blocks resolved before it.
pub open spec fn taken_before(doc: IncusCompose, blocks: Seq<Cidr>, j: int) -> Seq<Cidr> {
    explicit_upto(doc, doc.subnets@.len() as int) + autos_upto(doc, blocks, j)
}

/// Whether `c` is the first free block of the first range that has one.
pub open spec fn chosen_block(ranges: Seq<(Cidr, Cidr)>, taken: Seq<Cidr>, c: Cidr) -> bool {
    exists|i: int, k: nat|
        0 <= i < ranges.len() && (forall|i2: int|
            0 <= i2 < i ==> !range_has_free(#[trigger] ranges[i2].0, ranges[i2].1, taken)) && first_free(
            ranges[i].0,
            ranges[i].1,
            k,
            taken,
        ) && c == range_block(ranges[i].0, k)
}

pub proof fn lemma_autos_prefix(doc: IncusCompose, b1: Seq<Cidr>, b2: Seq<Cidr>, n: int)
    requires
        0 <= n <= b1.len(),
        n <= b2.len(),
        forall|i: int| 0 <= i < n ==> b1[i] == b2[i],
    ensures
        autos_upto(doc, b1, n) == autos_upto(doc, b2, n),
    decreases n,
{
    if n > 0 {
        lemma_autos_prefix(doc, b1, b2, n - 1);
    }
}

/// Whether subnet identifier `t` was issued before subnet `j`: recorded in the
/// starting ledger, or given to an earlier subnet.
pub open spec fn subnet_id_issued(ledger0: UsedValues, subs: Seq<ExpandedSubnet>, j: int, t: Seq<char>) -> bool {
    holds_text(ledger0.subnet_ids@, t) || exists|i: int| 0 <= i < j && (#[trigger] subs[i]).id@ == t
}

/// Whether `c` is the block of subnet `j` after the blocks `blocks` of the
/// subnets before it: its explicit block, or the chosen automatic one.
pub open spec fn block_for(doc: IncusCompose, blocks: Seq<Cidr>, j: int, c: Cidr) -> bool {
    match doc.explicit_block(j) {
        Some(e) => c == e,
        None => chosen_block(auto_ranges_of(doc.defaults.cidr4_ranges@), taken_before(doc, blocks, j), c),
    }
}

/// Whether subnet `j`, after the subnets `subs` with blocks `blocks`, needs a
/// newly issued identifier: the prior state offers none for its block, or
/// the offered one is already taken.
pub open spec fn needs_fresh_subnet_id(
    doc: IncusCompose,
    prior: Option<IncusLockfile>,
    subs: Seq<ExpandedSubnet>,
    j: int,
    c: Cidr,
) -> bool {
    let offered = offered_subnet_id(prior, doc.subnet_names()[j], cidr_text(c));
    !(offered is Some && forall|i: int| 0 <= i < j ==> (#[trigger] subs[i]).id@ != offered->0)
}

/// Whether subnet `j` cannot be resolved after the subnets `subs`: no range
/// has a free block for it, its block leaves no room for a gateway and
/// hosts, or it needs a new identifier and every one is issued.
pub open spec fn subnet_fails(
    doc: IncusCompose,
    prior: Option<IncusLockfile>,
    ledger0: UsedValues,
    subs: Seq<ExpandedSubnet>,
    blocks: Seq<Cidr>,
    j: int,
) -> bool {
    ||| (doc.explicit_block(j) is None && forall|c: Cidr|
        !chosen_block(auto_ranges_of(doc.defaults.cidr4_ranges@), taken_before(doc, blocks, j), c))
    ||| exists|c: Cidr|
        block_for(doc, blocks, j, c) && (c.prefix > 30 || (needs_fresh_subnet_id(doc, prior, subs, j, c)
            && forall|k: nat|
            j + 1 <= k <= MAX_ORDINAL ==> #[trigger] subnet_id_issued(
                ledger0,
                subs,
                j,
                ordinal_text("subnet_"@, k),
            )))
}

/// What holds of each resolved subnet `j`.
pub open spec fn subnet_resolved(
    doc: IncusCompose,
    prior: Option<IncusLockfile>,
    ledger0: UsedValues,
    subs: Seq<ExpandedSubnet>,
    blocks: Seq<Cidr>,
    j: int,
) -> bool {
    let s = subs[j];
    let b = blocks[j];
    &&& s.name@ == doc.subnet_names()[j]
    &&& b.wf() && b.prefix <= 30
    &&& s.cidr@ == cidr_text(b)
    &&& s.gateway@ == ipv4_text(gateway(b) as u32)
    &&& s.network_type == NetworkType::Bridge
    &&& s.config@.len() == 0
    &&& (doc.explicit_block(j) matches Some(c) ==> b == c)
    &&& (doc.explicit_block(j) is None ==> {
        &&& chosen_block(auto_ranges_of(doc.defaults.cidr4_ranges@), taken_before(doc, blocks, j), b)
        &&& forall|i: int|
            0 <= i < doc.subnets@.len() ==> (#[trigger] doc.explicit_block(i) matches Some(c) ==> !overlap(b, c))
        &&& forall|i: int|
            0 <= i < j ==> #[trigger] doc.explicit_block(i) is None ==> !overlap(b, blocks[i])
    })
    &&& if offered_subnet_id(prior, s.name@, s.cidr@) is Some && (forall|i: int|
        0 <= i < j ==> (#[trigger] subs[i]).id@ != offered_subnet_id(prior, s.name@, s.cidr@)->0) {
        s.id@ == offered_subnet_id(prior, s.name@, s.cidr@)->0
    } else {
        exists|k: nat|
            j + 1 <= k && s.id@ == ordinal_text("subnet_"@, k) && !holds_text(ledger0.subnet_ids@, s.id@)
                && forall|k2: nat|
                j + 1 <= k2 < k ==> #[trigger] subnet_id_issued(ledger0, subs, j, ordinal_text("subnet_"@, k2))
    }
}

pub open spec fn opt_state(prior: Option<&IncusLockfile>) -> Option<IncusLockfile> {
    match prior {
        Some(p) => Some(*p),
        None => None,
    }
}

proof fn lemma_contains_push(a: Seq<Cidr>, b: Seq<Cidr>, e: Cidr)
    requires
        a.contains(e),
        a.is_prefix_of(b),
    ensures
        b.contains(e),
{
    let t = choose|t: int| 0 <= t < a.len() && a[t] == e;
    assert(b[t] == e);
}

pub proof fn lemma_holds_text_prefix(a: Seq<String>, b: Seq<String>, t: Seq<char>)
    requires
        a.is_prefix_of(b),
        holds_text(a, t),
    ensures
        holds_text(b, t),
{
    let k = choose|k: int| 0 <= k < a.len() && (#[trigger] a[k])@ == t;
    assert(b[k] == a[k]);
}

pub proof fn lemma_holds_ip_prefix(a: Seq<(String, String)>, b: Seq<(String, String)>, n: Seq<char>, t: Seq<char>)
    requires
        a.is_prefix_of(b),
        holds_ip(a, n, t),
    ensures
        holds_ip(b, n, t),
{
    let k = choose|k: int| 0 <= k < a.len() && (#[trigger] a[k]).0@ == n && a[k].1@ == t;
    assert(b[k] == a[k]);
}

/// Subnet identifiers are pairwise different.
pub open spec fn subnet_ids_distinct(subs: Seq<ExpandedSubnet>) -> bool {
    forall|i: int, j: int| 0 <= i < subs.len() && 0 <= j < subs.len() && i != j ==> subs[i].id@ != subs[j].id@
}

proof fn lemma_subnet_id_issued_push(ledger0: UsedValues, subs: Seq<ExpandedSubnet>, x: ExpandedSubnet, j: int, t: Seq<char>)
    requires
        0 <= j <= subs.len(),
    ensures
        subnet_id_issued(ledger0, subs.push(x), j, t) == subnet_id_issued(ledger0, subs, j, t),
        subnet_id_issued(ledger0, subs, j, t) ==> subnet_id_issued(ledger0, subs.push(x), j + 1, t),
        subnet_id_issued(ledger0, subs.push(x), j + 1, x.id@) || j < subs.len(),
{
    let s2 = subs.push(x);
    if subnet_id_issued(ledger0, subs, j, t) && !holds_text(ledger0.subnet_ids@, t) {
        let i = choose|i: int| 0 <= i < j && (#[trigger] subs[i]).id@ == t;
        assert(s2[i] == subs[i]);
    }
    if subnet_id_issued(ledger0, s2, j, t) && !holds_text(ledger0.subnet_ids@, t) {
        let i = choose|i: int| 0 <= i < j && (#[trigger] s2[i]).id@ == t;
        assert(s2[i] == subs[i]);
    }
    if j == subs.len() {
        assert(s2[j] == x);
    }
}

proof fn lemma_subnet_resolved_extend(
    doc: IncusCompose,
    prior: Option<IncusLockfile>,
    ledger0: UsedValues,
    subs: Seq<ExpandedSubnet>,
    blocks: Seq<Cidr>,
    x: ExpandedSubnet,
    b: Cidr,
    j: int,
)
    requires
        0 <= j < subs.len(),
        subs.len() == blocks.len(),
        subnet_resolved(doc, prior, ledger0, subs, blocks, j),
    ensures
        subnet_resolved(doc, prior, ledger0, subs.push(x), blocks.push(b), j),
{
    let s2 = subs.push(x);
    let b2 = blocks.push(b);
    assert(s2[j] == subs[j]);
    assert(b2[j] == blocks[j]);
    assert forall|i: int| 0 <= i < j implies s2[i] == subs[i] && b2[i] == blocks[i] by {}
    lemma_autos_prefix(doc, blocks, b2, j);
    assert forall|t: Seq<char>| subnet_id_issued(ledger0, s2, j, t) == subnet_id_issued(ledger0, subs, j, t) by {
        lemma_subnet_id_issued_push(ledger0, subs, x, j, t);
    }
}

impl IncusCompose {
    /// Resolves every subnet in declaration order: its block (explicit, or the
    /// first free block of the automatic ranges), its gateway, and its
    /// identifier (carried over from the prior state when the block is
    /// unchanged, else newly issued from the ledger).
    #[verifier::rlimit(50)]
    fn resolve_subnets(
        &self,
        blocks: &Vec<Option<Cidr>>,
        ranges: &Vec<(Cidr, Cidr)>,
        prior: Option<&IncusLockfile>,
        ledger: &mut UsedValues,
    ) -> (r: Result<(Vec<ExpandedSubnet>, Vec<Cidr>), ComposeError>)
        requires
            blocks@.len() == self.subnets@.len(),
            forall|i: int|
                0 <= i < blocks@.len() ==> (#[trigger] blocks@[i]) == self.explicit_block(i) && (
                blocks@[i] matches Some(c) ==> c.wf()),
            forall|i: int|
                0 <= i < ranges@.len() ==> (#[trigger] ranges@[i]).0.wf() && ranges@[i].1.wf()
                    && ranges@[i].0.prefix == ranges@[i].1.prefix,
            ranges@ == auto_ranges_of(self.defaults.cidr4_ranges@),
        ensures
            ledger_kept(*old(ledger), *final(ledger)),
            final(ledger).host_ids == old(ledger).host_ids,
            final(ledger).mac_addresses == old(ledger).mac_addresses,
            final(ledger).ip_addresses == old(ledger).ip_addresses,
            r matches Err(e) ==> self.error_names_entity(e),
            r matches Err(e) ==> e is AllocationExhausted && exists|j: int, subs: Seq<ExpandedSubnet>, bs: Seq<Cidr>|
                0 <= j < self.subnets@.len() && subs.len() == j && bs.len() == j && (forall|i: int|
                    0 <= i < j ==> #[trigger] subnet_resolved(*self, opt_state(prior), *old(ledger), subs, bs, i))
                    && subnet_fails(*self, opt_state(prior), *old(ledger), subs, bs, j),
            r matches Ok((subs, bs)) ==> {
                &&& subs@.len() == self.subnets@.len()
                &&& bs@.len() == self.subnets@.len()
                &&& subnet_ids_distinct(subs@)
                &&& final(ledger).subnet_ids@ == subnet_ids_after(old(ledger).subnet_ids@, subs@, subs@.len() as int)
                &&& forall|t: Seq<char>|
                    #[trigger] holds_text(final(ledger).subnet_ids@, t) ==> subnet_id_issued(
                        *old(ledger),
                        subs@,
                        subs@.len() as int,
                        t,
                    )
                &&& forall|j: int|
                    0 <= j < subs@.len() ==> subnet_resolved(
                        *self,
                        opt_state(prior),
                        *old(ledger),
                        subs@,
                        bs@,
                        j,
                    ) && holds_text(final(ledger).subnet_ids@, (#[trigger] subs@[j]).id@)
            },
    {
        let n = self.subnets.len();
        let mut taken: Vec<Cidr> = Vec::new();
        let mut i: usize = 0;
        while i < n
            invariant
                n == self.subnets@.len(),
                i <= n,
                blocks@.len() == n,
                forall|j: int|
                    0 <= j < blocks@.len() ==> (#[trigger] blocks@[j]) == self.explicit_block(j) && (
                    blocks@[j] matches Some(c) ==> c.wf()),
                forall|t: int| 0 <= t < taken@.len() ==> (#[trigger] taken@[t]).wf(),
                forall|j: int|
                    0 <= j < i ==> (#[trigger] self.explicit_block(j) matches Some(c) ==> taken@.contains(c)),
                taken@ == explicit_upto(*self, i as int),
            decreases n - i,
        {
            let ghost old_taken = taken@;
            match blocks[i] {
                Some(c) => {
                    taken.push(c);
                },
                None => {},
            }
            proof {
                assert(taken@ =~= explicit_upto(*self, i + 1));
                assert forall|j: int| 0 <= j <= i implies (#[trigger] self.explicit_block(j) matches Some(c) ==> taken@.contains(c)) by {
                    if let Some(c) = self.explicit_block(j) {
                        if j < i {
                            lemma_contains_push(old_taken, taken@, c);
                        } else {
                            assert(taken@[taken@.len() - 1] == c);
                        }
                    }
                }
            }
            i = i + 1;
        }
        let ghost ledger0 = *ledger;
        assert(taken@ =~= taken_before(*self, Seq::<Cidr>::empty(), 0));
        let mut subs: Vec<ExpandedSubnet> = Vec::new();
        let mut bs: Vec<Cidr> = Vec::new();
        let mut run_ids: Vec<String> = Vec::new();
        let mut i: usize = 0;
        while i < n
            invariant
                n == self.subnets@.len(),
                i <= n,
                blocks@.len() == n,
                ledger0 == *old(ledger),
                ranges@ == auto_ranges_of(self.defaults.cidr4_ranges@),
                taken@ == taken_before(*self, bs@, i as int),
                forall|j: int|
                    0 <= j < blocks@.len() ==> (#[trigger] blocks@[j]) == self.explicit_block(j) && (
                    blocks@[j] matches Some(c) ==> c.wf()),
                forall|j: int|
                    0 <= j < ranges@.len() ==> (#[trigger] ranges@[j]).0.wf() && ranges@[j].1.wf()
                        && ranges@[j].0.prefix == ranges@[j].1.prefix,
                forall|t: int| 0 <= t < taken@.len() ==> (#[trigger] taken@[t]).wf(),
                forall|j: int|
                    0 <= j < n ==> (#[trigger] self.explicit_block(j) matches Some(c) ==> taken@.contains(c)),
                forall|j: int|
                    0 <= j < i ==> (#[trigger] self.explicit_block(j) is None ==> taken@.contains(bs@[j])),
                subs@.len() == i,
                bs@.len() == i,
                run_ids@.len() == i,
                forall|j: int| 0 <= j < i ==> (#[trigger] run_ids@[j])@ == subs@[j].id@,
                subnet_ids_distinct(subs@),
                forall|j: int|
                    0 <= j < i ==> subnet_resolved(*self, opt_state(prior), ledger0, subs@, bs@, j)
                        && holds_text(ledger.subnet_ids@, (#[trigger] subs@[j]).id@),
                ledger_kept(ledger0, *ledger),
                forall|t: Seq<char>| #[trigger] holds_text(ledger.subnet_ids@, t) ==> subnet_id_issued(ledger0, subs@, i as int, t),
                ledger.subnet_ids@ == subnet_ids_after(ledger0.subnet_ids@, subs@, i as int),
                ledger.host_ids == ledger0.host_ids,
                ledger.mac_addresses == ledger0.mac_addresses,
                ledger.ip_addresses == ledger0.ip_addresses,
            decreases n - i,
        {
            let ghost taken_at_i = taken@;
            let b = match blocks[i] {
                Some(c) => c,
                None => match first_free_in_ranges(ranges, &taken) {
                    Some(c) => {
                        let ghost old_taken = taken@;
                        proof {
                            let (ri, k) = choose|ri: int, k: nat|
                                0 <= ri < ranges@.len() && (forall|i2: int|
                                    0 <= i2 < ri ==> !crate::allocator::range_has_free(
                                        #[trigger] ranges@[i2].0,
                                        ranges@[i2].1,
                                        taken@,
                                    )) && crate::allocator::first_free(ranges@[ri].0, ranges@[ri].1, k, taken@)
                                    && c == crate::allocator::range_block(ranges@[ri].0, k);
                            assert(!overlaps_any(c, taken@));
                            assert(chosen_block(ranges@, taken@, c));
                        }
                        taken.push(c);
                        proof {
                            assert forall|j: int| 0 <= j < n implies (#[trigger] self.explicit_block(j) matches Some(e) ==> taken@.contains(e)) by {
                                if let Some(e) = self.explicit_block(j) {
                                    lemma_contains_push(old_taken, taken@, e);
                                }
                            }
                            assert forall|j: int| 0 <= j < i implies (#[trigger] self.explicit_block(j) is None ==> taken@.contains(bs@[j])) by {
                                if self.explicit_block(j) is None {
                                    lemma_contains_push(old_taken, taken@, bs@[j]);
                                }
                            }
                            assert(taken@[taken@.len() - 1] == c);
                            assert(taken@.contains(c));
                            assert forall|e: Cidr| old_taken.contains(e) implies !overlap(c, e) by {
                                let t = choose|t: int| 0 <= t < old_taken.len() && old_taken[t] == e;
                            }
                        }
                        c
                    },
                    None => {
                        proof {
                            assert forall|c: Cidr| !chosen_block(ranges@, taken@, c) by {
                                if chosen_block(ranges@, taken@, c) {
                                    let (ri, k) = choose|ri: int, k: nat|
                                        0 <= ri < ranges@.len() && (forall|i2: int|
                                            0 <= i2 < ri ==> !range_has_free(#[trigger] ranges@[i2].0, ranges@[i2].1, taken@))
                                            && first_free(ranges@[ri].0, ranges@[ri].1, k, taken@) && c == range_block(ranges@[ri].0, k);
                                    assert(range_has_free(ranges@[ri].0, ranges@[ri].1, taken@));
                                }
                            }
                            assert(subnet_fails(*self, opt_state(prior), ledger0, subs@, bs@, i as int));
                        }
                        let e = ComposeError::AllocationExhausted(String::from_str(self.subnets[i].name()));
                        assert(self.subnet_names()[i as int] == e->AllocationExhausted_0@);
                        assert(self.error_names_entity(e));
                        return Err(e);
                    },
                },
            };
            assert(self.explicit_block(i as int) is None ==> chosen_block(ranges@, taken_at_i, b));
            assert(self.explicit_block(i as int) is None ==> taken@ == taken_at_i.push(b));
            assert(self.explicit_block(i as int) is Some ==> taken@ == taken_at_i);
            assert(block_for(*self, bs@, i as int, b));
            if b.prefix > 30 {
                assert(subnet_fails(*self, opt_state(prior), ledger0, subs@, bs@, i as int));
                let e = ComposeError::AllocationExhausted(String::from_str(self.subnets[i].name()));
                assert(self.subnet_names()[i as int] == e->AllocationExhausted_0@);
                assert(self.error_names_entity(e));
                return Err(e);
            }
            let cidr = b.to_text();
            let gw = ipv4_to_string(b.gateway());
            let name = String::from_str(self.subnets[i].name());
            let offered: Option<String> = match prior {
                Some(p) => match find_subnet(&p.subnets, &name) {
                    Some(pi) => {
                        proof {
                            let ci = choose|ci: int| first_subnet_named(p.subnets@, name@, ci);
                            lemma_first_named_unique(p.subnets@, name@, ci, pi as int);
                        }
                        if p.subnets[pi].cidr == cidr {
                            Some(p.subnets[pi].id.clone())
                        } else {
                            None
                        }
                    },
                    None => None,
                },
                None => None,
            };
            assert(offered matches Some(id) ==> offered_subnet_id(opt_state(prior), name@, cidr@) == Some(id@));
            assert(offered is None ==> offered_subnet_id(opt_state(prior), name@, cidr@) is None);
            let carried = match &offered {
                Some(id) => !contains_text(&run_ids, id),
                None => false,
            };
            let ghost offered_v = offered;
            let ghost run_before = run_ids@;
            let ghost mut fresh_k: nat = 0;
            let id = if carried {
                match offered {
                    Some(id) => id,
                    None => String::new(),
                }
            } else {
                match next_free_ordinal(&ledger.subnet_ids, "subnet_", (i + 1) as u64) {
                    Some((k, t)) => {
                        proof {
                            fresh_k = k as nat;
                            assert forall|k2: nat| i + 1 <= k2 < k implies #[trigger] subnet_id_issued(ledger0, subs@, i as int, ordinal_text("subnet_"@, k2)) by {
                                reveal_strlit("subnet_");
                                assert(holds_text(ledger.subnet_ids@, ordinal_text("subnet_"@, k2)));
                            }
                            reveal_strlit("subnet_");
                            if holds_text(ledger0.subnet_ids@, t@) {
                                lemma_holds_text_prefix(ledger0.subnet_ids@, ledger.subnet_ids@, t@);
                            }
                        }
                        t
                    },
                    None => {
                        proof {
                            reveal_strlit("subnet_");
                            assert(self.subnet_names()[i as int] == name@);
                            assert(needs_fresh_subnet_id(*self, opt_state(prior), subs@, i as int, b)) by {
                                if let Some(oid) = offered_v {
                                    let k = choose|k: int| 0 <= k < run_ids@.len() && (#[trigger] run_ids@[k])@ == oid@;
                                    assert(subs@[k].id@ == oid@);
                                }
                            }
                            assert forall|k: nat| i + 1 <= k <= MAX_ORDINAL implies #[trigger] subnet_id_issued(
                                ledger0,
                                subs@,
                                i as int,
                                ordinal_text("subnet_"@, k),
                            ) by {
                                assert(holds_text(ledger.subnet_ids@, ordinal_text("subnet_"@, k)));
                            }
                            assert(subnet_fails(*self, opt_state(prior), ledger0, subs@, bs@, i as int));
                        }
                        let e = ComposeError::AllocationExhausted(String::from_str("subnet ids"));
                        proof {
                            reveal_strlit("subnet ids");
                        }
                        assert(self.error_names_entity(e));
                        return Err(e);
                    },
                }
            };
            let ghost old_subs = subs@;
            let ghost old_bs = bs@;
            let ghost old_ledger = *ledger;
            let ghost id_view = id@;
            if !contains_text(&ledger.subnet_ids, &id) {
                ledger.subnet_ids.push(id.clone());
            }
            proof {
                assert(old_ledger.subnet_ids@.is_prefix_of(ledger.subnet_ids@));
                assert(holds_text(ledger.subnet_ids@, id@)) by {
                    if !holds_text(old_ledger.subnet_ids@, id@) {
                        assert(ledger.subnet_ids@[old_ledger.subnet_ids@.len() as int]@ == id@);
                    } else {
                        lemma_holds_text_prefix(old_ledger.subnet_ids@, ledger.subnet_ids@, id@);
                    }
                }
                assert forall|j: int| 0 <= j < i implies holds_text(ledger.subnet_ids@, (#[trigger] old_subs[j]).id@) by {
                    lemma_holds_text_prefix(old_ledger.subnet_ids@, ledger.subnet_ids@, old_subs[j].id@);
                }
                assert forall|j: int| 0 <= j < i implies (#[trigger] old_subs[j]).id@ != id@ by {
                    if carried {
                        assert(run_ids@[j]@ == old_subs[j].id@);
                    } else {
                        assert(holds_text(old_ledger.subnet_ids@, old_subs[j].id@));
                    }
                }
            }
            run_ids.push(id.clone());
            let sub = ExpandedSubnet {
                name,
                cidr,
                id,
                gateway: gw,
                network_type: default_network_type(),
                config: Vec::new(),
            };
            subs.push(sub);
            bs.push(b);
            proof {
                lemma_subnet_ids_after_prefix(ledger0.subnet_ids@, old_subs, subs@[i as int], i as int);
                assert(subs@ == old_subs.push(subs@[i as int]));
                lemma_autos_prefix(*self, old_bs, bs@, i as int);
                assert(taken_before(*self, bs@, i as int) == taken_at_i);
                assert(autos_upto(*self, bs@, i + 1) =~= autos_upto(*self, bs@, i as int) + if self.explicit_block(i as int) is None {
                    seq![b]
                } else {
                    seq![]
                });
                assert(taken@ =~= taken_before(*self, bs@, i + 1));
                let sj = subs@[i as int];
                assert(sj.name@ == self.subnet_names()[i as int]);
                assert(b.wf() && b.prefix <= 30);
                assert(sj.cidr@ == cidr_text(b));
                assert(sj.gateway@ == ipv4_text(gateway(b) as u32));
                assert(sj.config@.len() == 0);
                assert(self.explicit_block(i as int) matches Some(c) ==> b == c);
                assert(self.explicit_block(i as int) is None ==> {
                    &&& forall|i2: int|
                        0 <= i2 < self.subnets@.len() ==> (#[trigger] self.explicit_block(i2) matches Some(c) ==> !overlap(b, c))
                    &&& forall|i2: int|
                        0 <= i2 < i ==> #[trigger] self.explicit_block(i2) is None ==> !overlap(b, bs@[i2])
                });
                if !carried {
                    assert(i + 1 <= fresh_k && sj.id@ == ordinal_text("subnet_"@, fresh_k));
                    assert forall|k2: nat| i + 1 <= k2 < fresh_k implies #[trigger] subnet_id_issued(ledger0, subs@, i as int, ordinal_text("subnet_"@, k2)) by {
                        lemma_subnet_id_issued_push(ledger0, old_subs, subs@[i as int], i as int, ordinal_text("subnet_"@, k2));
                    }
                }
                assert forall|t: Seq<char>| #[trigger] holds_text(ledger.subnet_ids@, t) implies subnet_id_issued(ledger0, subs@, i + 1, t) by {
                    lemma_subnet_id_issued_push(ledger0, old_subs, subs@[i as int], i as int, t);
                    if !holds_text(old_ledger.subnet_ids@, t) {
                        let w = choose|w: int| 0 <= w < ledger.subnet_ids@.len() && (#[trigger] ledger.subnet_ids@[w])@ == t;
                        if w < old_ledger.subnet_ids@.len() {
                            assert(old_ledger.subnet_ids@[w] == ledger.subnet_ids@[w]);
                        }
                        assert(t == id_view);
                    }
                }
                if let Some(oid) = offered_v {
                    if !carried {
                        let k = choose|k: int| 0 <= k < run_before.len() && (#[trigger] run_before[k])@ == oid@;
                        assert(old_subs[k].id@ == oid@);
                        assert(subs@[k].id@ == oid@);
                    }
                }

                assert forall|j: int| 0 <= j < i implies subnet_resolved(*self, opt_state(prior), ledger0, subs@, bs@, j) by {
                    lemma_subnet_resolved_extend(*self, opt_state(prior), ledger0, old_subs, old_bs, subs@[i as int], b, j);
                }
                assert(subs@ == old_subs.push(subs@[i as int]));
                assert(subnet_resolved(*self, opt_state(prior), ledger0, subs@, bs@, i as int));
            }
            i = i + 1;
        }
        Ok((subs, bs))
    }
}

/// Whether `i` is the first host of `v` named `n`.
pub open spec fn first_host_named(v: Seq<ExpandedHost>, n: Seq<char>, i: int) -> bool {
    0 <= i < v.len() && v[i].name@ == n && forall|j: int| 0 <= j < i ==> (#[trigger] v[j]).name@ != n
}

/// The first host of `v` named `n`.
pub fn find_host(v: &Vec<ExpandedHost>, n: &String) -> (r: Option<usize>)
    ensures
        r matches Some(i) ==> first_host_named(v@, n@, i as int),
        r is None ==> forall|j: int| 0 <= j < v@.len() ==> (#[trigger] v@[j]).name@ != n@,
{
    let mut i: usize = 0;
    while i < v.len()
        invariant
            i <= v@.len(),
            forall|j: int| 0 <= j < i ==> (#[trigger] v@[j]).name@ != n@,
        decreases v@.len() - i,
    {
        if v[i].name == *n {
            return Some(i);
        }
        i = i + 1;
    }
    None
}

proof fn lemma_first_host_unique(v: Seq<ExpandedHost>, n: Seq<char>, i: int, j: int)
    requires
        first_host_named(v, n, i),
        first_host_named(v, n, j),
    ensures
        i == j,
{
    if i < j {
        assert(v[i].name@ != n);
    }
    if j < i {
        assert(v[j].name@ != n);
    }
}

/// The prior host that a host named `n` carries its values from: the first
/// one of that name.
pub open spec fn offered_host(prior: Option<IncusLockfile>, n: Seq<char>) -> Option<ExpandedHost> {
    match prior {
        Some(p) => if exists|i: int| first_host_named(p.hosts@, n, i) {
            Some(p.hosts@[choose|i: int| first_host_named(p.hosts@, n, i)])
        } else {
            None
        },
        None => None,
    }
}

/// Whether `k` is the first entry of `v` for subnet `n`.
pub open spec fn first_entry_for(v: Seq<(String, String)>, n: Seq<char>, k: int) -> bool {
    0 <= k < v.len() && v[k].0@ == n && forall|j: int| 0 <= j < k ==> (#[trigger] v[j]).0@ != n
}

/// The first entry of `v` for subnet `n`.
pub fn find_entry(v: &Vec<(String, String)>, n: &String) -> (r: Option<usize>)
    ensures
        r matches Some(k) ==> first_entry_for(v@, n@, k as int),
        r is None ==> forall|j: int| 0 <= j < v@.len() ==> (#[trigger] v@[j]).0@ != n@,
{
    let mut k: usize = 0;
    while k < v.len()
        invariant
            k <= v@.len(),
            forall|j: int| 0 <= j < k ==> (#[trigger] v@[j]).0@ != n@,
        decreases v@.len() - k,
    {
        if v[k].0 == *n {
            return Some(k);
        }
        k = k + 1;
    }
    None
}

proof fn lemma_first_entry_unique(v: Seq<(String, String)>, n: Seq<char>, i: int, j: int)
    requires
        first_entry_for(v, n, i),
        first_entry_for(v, n, j),
    ensures
        i == j,
{
    if i < j {
        assert(v[i].0@ != n);
    }
    if j < i {
        assert(v[j].0@ != n);
    }
}

/// The address a prior state offers the host named `h` in subnet `n`, whose
/// block now reads `cidr`: the host's first address for that subnet, if the
/// subnet's block is unchanged.
pub open spec fn offered_ip(prior: Option<IncusLockfile>, h: Seq<char>, n: Seq<char>, cidr: Seq<char>) -> Option<Seq<char>> {
    match offered_host(prior, h) {
        Some(ph) => if offered_subnet_id(prior, n, cidr) is Some && exists|k: int|
            first_entry_for(ph.ip_addresses@, n, k) {
            Some(ph.ip_addresses@[choose|k: int| first_entry_for(ph.ip_addresses@, n, k)].1@)
        } else {
            None
        },
        None => None,
    }
}

/// Whether `i` is the first entry of the flavor table with key `k`.
pub open spec fn first_flavor_key(t: Seq<(String, Flavor)>, k: Seq<char>, i: int) -> bool {
    0 <= i < t.len() && t[i].0@ == k && forall|j: int| 0 <= j < i ==> (#[trigger] t[j]).0@ != k
}

/// The flavor a host naming `k` takes its kind and limits from.
pub open spec fn flavor_of(t: Seq<(String, Flavor)>, k: Seq<char>) -> Option<Flavor> {
    if exists|i: int| first_flavor_key(t, k, i) {
        Some(t[choose|i: int| first_flavor_key(t, k, i)].1)
    } else {
        None
    }
}

/// The instance kind and resource limits for a host naming flavor `key`:
/// those of the flavor when the table holds it, else a container with the
/// default limits.
fn kind_and_resources(table: &Vec<(String, Flavor)>, key: &String) -> (r: (InstanceType, Resources))
    ensures
        match flavor_of(table@, key@) {
            Some(f) => r.0 == f.instance_type && r.1.cpu == f.cpu && r.1.memory == f.memory
                && r.1.storage == f.storage,
            None => r.0 == InstanceType::Container && default_resources_spec(r.1),
        },
{
    let mut i: usize = 0;
    while i < table.len()
        invariant
            i <= table@.len(),
            forall|j: int| 0 <= j < i ==> (#[trigger] table@[j]).0@ != key@,
        decreases table@.len() - i,
    {
        if table[i].0 == *key {
            let f = &table[i].1;
            proof {
                assert(first_flavor_key(table@, key@, i as int));
                let c = choose|c: int| first_flavor_key(table@, key@, c);
                if c < i {
                    assert(table@[c].0@ != key@);
                }
                if i < c {
                    assert(table@[i as int].0@ != key@);
                }
            }
            let storage = match &f.storage {
                Some(st) => Some(st.duplicate()),
                None => None,
            };
            return (f.instance_type, Resources { cpu: f.cpu.duplicate(), memory: f.memory.duplicate(), storage });
        }
        i = i + 1;
    }
    (default_instance_type(), default_resources())
}

/// Whether a host of `prev` has identifier `x`.
pub open spec fn id_taken(prev: Seq<ExpandedHost>, x: Seq<char>) -> bool {
    exists|j: int| 0 <= j < prev.len() && (#[trigger] prev[j]).id@ == x
}

/// Whether host `h` has hardware address `m`.
pub open spec fn has_mac(h: ExpandedHost, m: Seq<char>) -> bool {
    match h.mac_address {
        Some(a) => a@ == m,
        None => false,
    }
}

/// Whether a host of `prev` has hardware address `m`.
pub open spec fn mac_taken(prev: Seq<ExpandedHost>, m: Seq<char>) -> bool {
    exists|j: int| 0 <= j < prev.len() && has_mac(#[trigger] prev[j], m)
}

/// Whether a host of `prev` has address `a` in subnet `n`.
pub open spec fn ip_taken(prev: Seq<ExpandedHost>, n: Seq<char>, a: Seq<char>) -> bool {
    exists|j: int, k: int|
        0 <= j < prev.len() && 0 <= k < prev[j].ip_addresses@.len() && (#[trigger] prev[j].ip_addresses@[k]).0@ == n
            && prev[j].ip_addresses@[k].1@ == a
}

/// The ledger records every value that the hosts of `prev` hold.
pub open spec fn ledger_covers(ledger: UsedValues, prev: Seq<ExpandedHost>) -> bool {
    forall|j: int|
        0 <= j < prev.len() ==> {
            let h = #[trigger] prev[j];
            &&& holds_text(ledger.host_ids@, h.id@)
            &&& (h.mac_address matches Some(m) ==> holds_text(ledger.mac_addresses@, m@))
            &&& forall|k: int|
                0 <= k < h.ip_addresses@.len() ==> holds_ip(
                    ledger.ip_addresses@,
                    (#[trigger] h.ip_addresses@[k]).0@,
                    h.ip_addresses@[k].1@,
                )
        }
}

/// Whether a host of `prev` has identifier `x`.
fn id_taken_by(prev: &Vec<ExpandedHost>, x: &String) -> (r: bool)
    ensures
        r == id_taken(prev@, x@),
{
    let mut j: usize = 0;
    while j < prev.len()
        invariant
            j <= prev@.len(),
            forall|i: int| 0 <= i < j ==> (#[trigger] prev@[i]).id@ != x@,
        decreases prev@.len() - j,
    {
        if prev[j].id == *x {
            return true;
        }
        j = j + 1;
    }
    false
}

/// Whether a host of `prev` has hardware address `m`.
fn mac_taken_by(prev: &Vec<ExpandedHost>, m: &String) -> (r: bool)
    ensures
        r == mac_taken(prev@, m@),
{
    let mut j: usize = 0;
    while j < prev.len()
        invariant
            j <= prev@.len(),
            forall|i: int| 0 <= i < j ==> !has_mac(#[trigger] prev@[i], m@),
        decreases prev@.len() - j,
    {
        match &prev[j].mac_address {
            Some(a) => {
                if *a == *m {
                    return true;
                }
            },
            None => {},
        }
        j = j + 1;
    }
    false
}

/// Whether a host of `prev` has address `a` in subnet `n`.
fn ip_taken_by(prev: &Vec<ExpandedHost>, n: &String, a: &String) -> (r: bool)
    ensures
        r == ip_taken(prev@, n@, a@),
{
    let mut j: usize = 0;
    while j < prev.len()
        invariant
            j <= prev@.len(),
            forall|i: int, k: int|
                0 <= i < j && 0 <= k < prev@[i].ip_addresses@.len() ==> !((#[trigger] prev@[i].ip_addresses@[k]).0@ == n@
                    && prev@[i].ip_addresses@[k].1@ == a@),
        decreases prev@.len() - j,
    {
        let ips = &prev[j].ip_addresses;
        let mut k: usize = 0;
        while k < ips.len()
            invariant
                j < prev@.len(),
                ips@ == prev@[j as int].ip_addresses@,
                k <= ips@.len(),
                forall|i: int, k2: int|
                    0 <= i < j && 0 <= k2 < prev@[i].ip_addresses@.len() ==> !((#[trigger] prev@[i].ip_addresses@[k2]).0@ == n@
                        && prev@[i].ip_addresses@[k2].1@ == a@),
                forall|k2: int| 0 <= k2 < k ==> !((#[trigger] ips@[k2]).0@ == n@ && ips@[k2].1@ == a@),
            decreases ips@.len() - k,
        {
            if ips[k].0 == *n && ips[k].1 == *a {
                return true;
            }
            k = k + 1;
        }
        j = j + 1;
    }
    false
}

/// Whether host identifier `t` was issued before: recorded in the ledger, or
/// given to a host of `prev`.
pub open spec fn host_id_issued(ledger0: UsedValues, prev: Seq<ExpandedHost>, t: Seq<char>) -> bool {
    holds_text(ledger0.host_ids@, t) || id_taken(prev, t)
}

/// Whether hardware address `t` was issued before.
pub open spec fn mac_issued(ledger0: UsedValues, prev: Seq<ExpandedHost>, t: Seq<char>) -> bool {
    holds_text(ledger0.mac_addresses@, t) || mac_taken(prev, t)
}

/// Whether address `a` of subnet `n` was issued before.
pub open spec fn ip_issued(ledger0: UsedValues, prev: Seq<ExpandedHost>, n: Seq<char>, a: Seq<char>) -> bool {
    holds_ip(ledger0.ip_addresses@, n, a) || ip_taken(prev, n, a)
}

/// Every value the ledger `l1` records was recorded in `l0` or is held by a
/// host of `prev`.
pub open spec fn ledger_within(l0: UsedValues, l1: UsedValues, prev: Seq<ExpandedHost>) -> bool {
    &&& forall|t: Seq<char>| #[trigger] holds_text(l1.host_ids@, t) ==> host_id_issued(l0, prev, t)
    &&& forall|t: Seq<char>| #[trigger] holds_text(l1.mac_addresses@, t) ==> mac_issued(l0, prev, t)
    &&& forall|n: Seq<char>, a: Seq<char>| #[trigger] holds_ip(l1.ip_addresses@, n, a) ==> ip_issued(l0, prev, n, a)
}

/// Offset of the first address a host may receive in a block.
pub open spec fn first_offset(is_router: bool) -> u32 {
    if is_router {
        ROUTER_FIRST_OFFSET
    } else {
        HOST_FIRST_OFFSET
    }
}

/// What holds of the address entry `e` that host `d` receives for its `k`-th
/// subnet, given the hosts `prev` resolved before it: the address is not
/// theirs in that subnet; it is the one the prior state offers when that one
/// is free; else it is newly issued inside the subnet's block and was never
/// issued before in that subnet.
pub open spec fn ip_resolved(
    prior: Option<IncusLockfile>,
    subs: Seq<ExpandedSubnet>,
    blocks: Seq<Cidr>,
    ledger0: UsedValues,
    prev: Seq<ExpandedHost>,
    d: Host,
    e: (String, String),
    k: int,
) -> bool {
    let n = d.subnets@[k]@;
    &&& e.0@ == n
    &&& !ip_taken(prev, n, e.1@)
    &&& forall|j: int|
        0 <= j < subs.len() && (#[trigger] subs[j]).name@ == n ==> {
            let offered = offered_ip(prior, d.name@, n, subs[j].cidr@);
            if offered is Some && !ip_taken(prev, n, offered->0) {
                e.1@ == offered->0
            } else {
                exists|off: u32|
                    first_offset(d.is_router) <= off < host_mask(blocks[j].prefix) && e.1@
                        == #[trigger] block_addr_text(blocks[j], off) && !holds_ip(
                        ledger0.ip_addresses@,
                        n,
                        e.1@,
                    ) && forall|o: u32|
                        first_offset(d.is_router) <= o < off ==> #[trigger] ip_issued(
                            ledger0,
                            prev,
                            n,
                            block_addr_text(blocks[j], o),
                        )
            }
        }
}

/// The subnets resolved so far match the document's, in order.
pub open spec fn subnets_match(doc: IncusCompose, subs: Seq<ExpandedSubnet>, blocks: Seq<Cidr>) -> bool {
    &&& subs.len() == doc.subnets@.len()
    &&& blocks.len() == subs.len()
    &&& forall|j: int|
        0 <= j < subs.len() ==> (#[trigger] subs[j]).name@ == doc.subnet_names()[j] && blocks[j].wf()
            && subs[j].cidr@ == cidr_text(blocks[j])
}

impl IncusCompose {
    /// Resolves the address of host `i` in each subnet it lists.
    #[verifier::rlimit(60)]
    fn resolve_ips(
        &self,
        i: usize,
        subs: &Vec<ExpandedSubnet>,
        bs: &Vec<Cidr>,
        prior: Option<&IncusLockfile>,
        ph: Option<&ExpandedHost>,
        ledger: &UsedValues,
        prev: &Vec<ExpandedHost>,
    ) -> (r: Result<Vec<(String, String)>, ComposeError>)
        requires
            i < self.hosts@.len(),
            self.well_formed(),
            self.references_resolve(),
            subnets_match(*self, subs@, bs@),
            ledger_covers(*ledger, prev@),
            match ph {
                Some(x) => offered_host(opt_state(prior), self.hosts@[i as int].name@) == Some(*x),
                None => offered_host(opt_state(prior), self.hosts@[i as int].name@) is None,
            },
        ensures
            r matches Err(e) ==> self.error_names_entity(e),
            r matches Err(e) ==> e is AllocationExhausted && exists|k: int, j: int|
                0 <= k < self.hosts@[i as int].subnets@.len() && 0 <= j < subs@.len() && subs@[j].name@
                    == self.hosts@[i as int].subnets@[k]@ && #[trigger] ip_fails(
                    opt_state(prior),
                    *ledger,
                    prev@,
                    self.hosts@[i as int],
                    k,
                    subs@[j].cidr@,
                    bs@[j],
                ),
            r matches Ok(v) ==> v@.len() == self.hosts@[i as int].subnets@.len() && forall|k: int|
                0 <= k < v@.len() ==> ip_resolved(
                    opt_state(prior),
                    subs@,
                    bs@,
                    *ledger,
                    prev@,
                    self.hosts@[i as int],
                    #[trigger] v@[k],
                    k,
                ),
    {
        let d = &self.hosts[i];
        let mut v: Vec<(String, String)> = Vec::new();
        let mut k: usize = 0;
        while k < d.subnets.len()
            invariant
                i < self.hosts@.len(),
                d == self.hosts@[i as int],
                self.well_formed(),
                self.references_resolve(),
                subnets_match(*self, subs@, bs@),
                ledger_covers(*ledger, prev@),
                match ph {
                    Some(x) => offered_host(opt_state(prior), d.name@) == Some(*x),
                    None => offered_host(opt_state(prior), d.name@) is None,
                },
                k <= d.subnets@.len(),
                v@.len() == k,
                forall|k2: int|
                    0 <= k2 < k ==> ip_resolved(
                        opt_state(prior),
                        subs@,
                        bs@,
                        *ledger,
                        prev@,
                        *d,
                        #[trigger] v@[k2],
                        k2,
                    ),
            decreases d.subnets@.len() - k,
        {
            let n = &d.subnets[k];
            proof {
                assert(self.subnet_names().contains(d.subnets@[k as int]@));
            }
            let idx = match find_subnet(subs, n) {
                Some(x) => x,
                None => {
                    // Never taken: every listed subnet is declared, and
                    // `subs` holds every declared subnet.
                    proof {
                        let j = choose|j: int| 0 <= j < self.subnet_names().len() && self.subnet_names()[j] == n@;
                        assert(subs@[j].name@ == n@);
                    }
                    return Err(ComposeError::AllocationExhausted(n.clone()));
                },
            };
            let b = bs[idx];
            let unchanged = match prior {
                Some(p) => match find_subnet(&p.subnets, n) {
                    Some(pi) => {
                        proof {
                            let ci = choose|ci: int| first_subnet_named(p.subnets@, n@, ci);
                            lemma_first_named_unique(p.subnets@, n@, ci, pi as int);
                        }
                        p.subnets[pi].cidr == subs[idx].cidr
                    },
                    None => false,
                },
                None => false,
            };
            assert(unchanged == offered_subnet_id(opt_state(prior), n@, subs@[idx as int].cidr@) is Some);
            let offered: Option<String> = match ph {
                Some(x) => {
                    if unchanged {
                        match find_entry(&x.ip_addresses, n) {
                            Some(e) => {
                                proof {
                                    let ce = choose|ce: int| first_entry_for(x.ip_addresses@, n@, ce);
                                    lemma_first_entry_unique(x.ip_addresses@, n@, ce, e as int);
                                }
                                Some(x.ip_addresses[e].1.clone())
                            },
                            None => None,
                        }
                    } else {
                        None
                    }
                },
                None => None,
            };
            assert(offered is Some <==> offered_ip(opt_state(prior), d.name@, n@, subs@[idx as int].cidr@) is Some);
            assert(offered matches Some(a) ==> offered_ip(opt_state(prior), d.name@, n@, subs@[idx as int].cidr@) == Some(a@));
            let take_offered = match &offered {
                Some(a) => !ip_taken_by(prev, n, a),
                None => false,
            };
            let ghost offered_v = offered;
            let first = if d.is_router {
                ROUTER_FIRST_OFFSET
            } else {
                HOST_FIRST_OFFSET
            };
            let a = if take_offered {
                match offered {
                    Some(a) => a,
                    None => String::new(),
                }
            } else {
                match next_free_ip(&ledger.ip_addresses, n, b, first) {
                    Some((off, t)) => {
                        proof {
                            assert forall|j: int, kk: int| 0 <= j < prev@.len() && 0 <= kk < prev@[j].ip_addresses@.len() implies !((#[trigger] prev@[j].ip_addresses@[kk]).0@ == n@ && prev@[j].ip_addresses@[kk].1@ == t@) by {
                                let h = prev@[j];
                                assert(holds_ip(ledger.ip_addresses@, h.ip_addresses@[kk].0@, h.ip_addresses@[kk].1@));
                            }
                            assert(!ip_taken(prev@, n@, t@));
                        }
                        t
                    },
                    None => {
                        proof {
                            assert(ip_fails(opt_state(prior), *ledger, prev@, *d, k as int, subs@[idx as int].cidr@, b)) by {
                                assert forall|o: u32|
                                    first_offset(d.is_router) <= o < host_mask(b.prefix) implies #[trigger] ip_issued(
                                    *ledger,
                                    prev@,
                                    n@,
                                    block_addr_text(b, o),
                                ) by {}
                            }
                            assert(subs@[idx as int].name@ == self.hosts@[i as int].subnets@[k as int]@);
                        }
                        let e = ComposeError::AllocationExhausted(n.clone());
                        assert(self.subnet_names().contains(e->AllocationExhausted_0@));
                        assert(self.error_names_entity(e));
                        return Err(e);
                    },
                }
            };
            let entry = (n.clone(), a);
            proof {
                assert forall|j: int| 0 <= j < subs@.len() && (#[trigger] subs@[j]).name@ == n@ implies j == idx by {
                    if j != idx {
                        assert(self.subnet_names()[j] != self.subnet_names()[idx as int]);
                    }
                }
                assert(ip_resolved(opt_state(prior), subs@, bs@, *ledger, prev@, *d, entry, k as int));
            }
            v.push(entry);
            k = k + 1;
        }
        Ok(v)
    }
}

/// Whether no address is left for host `d` in its `k`-th subnet, whose block
/// `b` reads `cidr`: the prior state's offer is missing or taken, and every
/// address from the host's first offset up to the broadcast address is
/// issued in that subnet.
pub open spec fn ip_fails(
    prior: Option<IncusLockfile>,
    ledger0: UsedValues,
    prev: Seq<ExpandedHost>,
    d: Host,
    k: int,
    cidr: Seq<char>,
    b: Cidr,
) -> bool {
    let n = d.subnets@[k]@;
    let offered = offered_ip(prior, d.name@, n, cidr);
    &&& !(offered is Some && !ip_taken(prev, n, offered->0))
    &&& forall|o: u32|
        first_offset(d.is_router) <= o < host_mask(b.prefix) ==> #[trigger] ip_issued(
            ledger0,
            prev,
            n,
            block_addr_text(b, o),
        )
}

/// The hardware addresses a ledger records after the hosts `hs[0..n]` are
/// recorded in order: each new address is appended once.
pub open spec fn macs_after(v: Seq<String>, hs: Seq<ExpandedHost>, n: int) -> Seq<String>
    decreases n,
{
    if n <= 0 {
        v
    } else {
        let w = macs_after(v, hs, n - 1);
        match hs[n - 1].mac_address {
            Some(m) => if holds_text(w, m@) {
                w
            } else {
                w.push(m)
            },
            None => w,
        }
    }
}

/// `w` with `t` appended, unless `w` already records it.
pub open spec fn push_new(w: Seq<String>, t: String) -> Seq<String> {
    if holds_text(w, t@) {
        w
    } else {
        w.push(t)
    }
}

/// The host identifiers a ledger records after the hosts `hs[0..n]` are
/// recorded in order.
pub open spec fn host_ids_after(v: Seq<String>, hs: Seq<ExpandedHost>, n: int) -> Seq<String>
    decreases n,
{
    if n <= 0 {
        v
    } else {
        push_new(host_ids_after(v, hs, n - 1), hs[n - 1].id)
    }
}

/// The address entries a ledger records after the entries `es[0..n]` are
/// recorded in order: each new (subnet, address) entry is appended once.
pub open spec fn entries_after(v: Seq<(String, String)>, es: Seq<(String, String)>, n: int) -> Seq<(String, String)>
    decreases n,
{
    if n <= 0 {
        v
    } else {
        let w = entries_after(v, es, n - 1);
        if holds_ip(w, es[n - 1].0@, es[n - 1].1@) {
            w
        } else {
            w.push(es[n - 1])
        }
    }
}

/// The address entries a ledger records after the hosts `hs[0..n]` are
/// recorded in order.
pub open spec fn ips_after(v: Seq<(String, String)>, hs: Seq<ExpandedHost>, n: int) -> Seq<(String, String)>
    decreases n,
{
    if n <= 0 {
        v
    } else {
        let h = hs[n - 1];
        entries_after(ips_after(v, hs, n - 1), h.ip_addresses@, h.ip_addresses@.len() as int)
    }
}

/// The subnet identifiers a ledger records after the subnets `subs[0..n]`
/// are recorded in order.
pub open spec fn subnet_ids_after(v: Seq<String>, subs: Seq<ExpandedSubnet>, n: int) -> Seq<String>
    decreases n,
{
    if n <= 0 {
        v
    } else {
        push_new(subnet_ids_after(v, subs, n - 1), subs[n - 1].id)
    }
}

pub proof fn lemma_after_prefix(l0: UsedValues, hs: Seq<ExpandedHost>, x: ExpandedHost, n: int)
    requires
        0 <= n <= hs.len(),
    ensures
        host_ids_after(l0.host_ids@, hs.push(x), n) == host_ids_after(l0.host_ids@, hs, n),
        ips_after(l0.ip_addresses@, hs.push(x), n) == ips_after(l0.ip_addresses@, hs, n),
    decreases n,
{
    if n > 0 {
        lemma_after_prefix(l0, hs, x, n - 1);
        assert(hs.push(x)[n - 1] == hs[n - 1]);
    }
}

pub proof fn lemma_subnet_ids_after_prefix(v: Seq<String>, subs: Seq<ExpandedSubnet>, x: ExpandedSubnet, n: int)
    requires
        0 <= n <= subs.len(),
    ensures
        subnet_ids_after(v, subs.push(x), n) == subnet_ids_after(v, subs, n),
    decreases n,
{
    if n > 0 {
        lemma_subnet_ids_after_prefix(v, subs, x, n - 1);
        assert(subs.push(x)[n - 1] == subs[n - 1]);
    }
}

/// Where the hardware address counter starts for the host after `prev`: one
/// past the number of addresses the ledger records by then.
pub open spec fn mac_start(l0: UsedValues, prev: Seq<ExpandedHost>) -> int {
    macs_after(l0.mac_addresses@, prev, prev.len() as int).len() + 1 as int
}

pub proof fn lemma_macs_after_prefix(v: Seq<String>, hs: Seq<ExpandedHost>, x: ExpandedHost, n: int)
    requires
        0 <= n <= hs.len(),
    ensures
        macs_after(v, hs.push(x), n) == macs_after(v, hs, n),
    decreases n,
{
    if n > 0 {
        lemma_macs_after_prefix(v, hs, x, n - 1);
        assert(hs.push(x)[n - 1] == hs[n - 1]);
    }
}

proof fn lemma_macs_after_sub(v: Seq<String>, hs: Seq<ExpandedHost>, n: int)
    requires
        0 <= n <= hs.len(),
    ensures
        forall|m: int| n <= m <= hs.len() ==> macs_after(v, #[trigger] hs.subrange(0, m), n) == macs_after(v, hs, n),
    decreases n,
{
    if n > 0 {
        lemma_macs_after_sub(v, hs, n - 1);
        assert forall|m: int| n <= m <= hs.len() implies macs_after(v, #[trigger] hs.subrange(0, m), n) == macs_after(v, hs, n) by {
            assert(hs.subrange(0, m)[n - 1] == hs[n - 1]);
        }
    }
}

/// Whether host `i` cannot be resolved after the hosts `prev`: it needs a new
/// identifier and every one is issued, or a new hardware address and every
/// one from counter `mac_from` up is issued, or no address is left for it in
/// one of its subnets.
pub open spec fn host_fails(
    doc: IncusCompose,
    prior: Option<IncusLockfile>,
    subs: Seq<ExpandedSubnet>,
    blocks: Seq<Cidr>,
    ledger0: UsedValues,
    prev: Seq<ExpandedHost>,
    i: int,
    mac_from: int,
) -> bool {
    let d = doc.hosts@[i];
    let ph = offered_host(prior, d.name@);
    ||| (!(ph is Some && !id_taken(prev, ph->0.id@)) && forall|k: nat|
        i + 1 <= k <= MAX_ORDINAL ==> #[trigger] host_id_issued(ledger0, prev, ordinal_text("host_"@, k)))
    ||| (!(ph is Some && ph->0.mac_address is Some && !mac_taken(prev, ph->0.mac_address->0@))
        && forall|k: u64| mac_from <= k <= MAX_MAC_COUNTER ==> #[trigger] mac_issued(ledger0, prev, mac_text(k)))
    ||| exists|k: int, j: int|
        0 <= k < d.subnets@.len() && 0 <= j < subs.len() && subs[j].name@ == d.subnets@[k]@
            && #[trigger] ip_fails(prior, ledger0, prev, d, k, subs[j].cidr@, blocks[j])
}

/// What holds of host `h`, resolved from host `i` of the document after the
/// hosts `prev`: its declared fields are kept and its roles put in full form;
/// its kind and limits come from its flavor; its identifier and hardware
/// address are not those of an earlier host, and are the prior state's when
/// those are free, else newly issued values the ledger never held (the
/// hardware address counter starting at `mac_from`, one past the number of
/// hardware addresses the ledger records); and it has one address per listed
/// subnet, in order.
pub open spec fn host_resolved(
    doc: IncusCompose,
    prior: Option<IncusLockfile>,
    subs: Seq<ExpandedSubnet>,
    blocks: Seq<Cidr>,
    ledger0: UsedValues,
    prev: Seq<ExpandedHost>,
    h: ExpandedHost,
    i: int,
    mac_from: int,
) -> bool {
    let d = doc.hosts@[i];
    let ph = offered_host(prior, d.name@);
    &&& h.name == d.name
    &&& h.flavor == d.flavor
    &&& h.image == d.image
    &&& h.floating_ip == d.floating_ip
    &&& h.master == d.master
    &&& h.is_router == d.is_router
    &&& str_views(h.subnets@) == str_views(d.subnets@)
    &&& h.roles@.len() == d.roles@.len()
    &&& forall|k: int|
        0 <= k < h.roles@.len() ==> (#[trigger] h.roles@[k]).name@ == d.roles@[k].spec_name()@
            && h.roles@[k].values@ == d.roles@[k].spec_values()
    &&& match flavor_of(doc.flavors@, d.flavor@) {
        Some(f) => h.instance_type == f.instance_type && h.resources.cpu == f.cpu
            && h.resources.memory == f.memory && h.resources.storage == f.storage,
        None => h.instance_type == InstanceType::Container && default_resources_spec(h.resources),
    }
    &&& !id_taken(prev, h.id@)
    &&& if ph is Some && !id_taken(prev, ph->0.id@) {
        h.id@ == ph->0.id@
    } else {
        exists|k: nat|
            i + 1 <= k && h.id@ == ordinal_text("host_"@, k) && !holds_text(ledger0.host_ids@, h.id@)
                && forall|k2: nat|
                i + 1 <= k2 < k ==> #[trigger] host_id_issued(ledger0, prev, ordinal_text("host_"@, k2))
    }
    &&& h.mac_address is Some
    &&& !mac_taken(prev, h.mac_address->0@)
    &&& if ph is Some && ph->0.mac_address is Some && !mac_taken(prev, ph->0.mac_address->0@) {
        h.mac_address->0@ == ph->0.mac_address->0@
    } else {
        exists|k: u64|
            mac_from <= k && h.mac_address->0@ == mac_text(k) && !holds_text(
                ledger0.mac_addresses@,
                h.mac_address->0@,
            ) && forall|k2: u64| mac_from <= k2 < k ==> #[trigger] mac_issued(ledger0, prev, mac_text(k2))
    }
    &&& h.ip_addresses@.len() == d.subnets@.len()
    &&& forall|k: int|
        0 <= k < h.ip_addresses@.len() ==> ip_resolved(
            prior,
            subs,
            blocks,
            ledger0,
            prev,
            d,
            #[trigger] h.ip_addresses@[k],
            k,
        )
}

impl IncusCompose {
    /// Resolves host `i` after the hosts `prev`, against the ledger.
    #[verifier::rlimit(60)]
    fn resolve_host(
        &self,
        i: usize,
        subs: &Vec<ExpandedSubnet>,
        bs: &Vec<Cidr>,
        prior: Option<&IncusLockfile>,
        ledger: &UsedValues,
        prev: &Vec<ExpandedHost>,
    ) -> (r: Result<ExpandedHost, ComposeError>)
        requires
            i < self.hosts@.len(),
            self.well_formed(),
            self.references_resolve(),
            subnets_match(*self, subs@, bs@),
            ledger_covers(*ledger, prev@),
        ensures
            r matches Err(e) ==> self.error_names_entity(e),
            r matches Err(e) ==> e is AllocationExhausted && host_fails(
                *self,
                opt_state(prior),
                subs@,
                bs@,
                *ledger,
                prev@,
                i as int,
                ledger.mac_addresses@.len() + 1 as int,

            ),
            r matches Ok(h) ==> host_resolved(
                *self,
                opt_state(prior),
                subs@,
                bs@,
                *ledger,
                prev@,
                h,
                i as int,
                ledger.mac_addresses@.len() + 1 as int,
            ),
    {
        let d = &self.hosts[i];
        let host_count = self.hosts.len();
        assert(i < host_count);
        let ph: Option<&ExpandedHost> = match prior {
            Some(p) => match find_host(&p.hosts, &d.name) {
                Some(pi) => {
                    proof {
                        let ci = choose|ci: int| first_host_named(p.hosts@, d.name@, ci);
                        lemma_first_host_unique(p.hosts@, d.name@, ci, pi as int);
                    }
                    Some(&p.hosts[pi])
                },
                None => None,
            },
            None => None,
        };
        assert(match ph {
            Some(x) => offered_host(opt_state(prior), d.name@) == Some(*x),
            None => offered_host(opt_state(prior), d.name@) is None,
        });
        let keep_id = match ph {
            Some(x) => !id_taken_by(prev, &x.id),
            None => false,
        };
        let id = if keep_id {
            match ph {
                Some(x) => x.id.clone(),
                None => String::new(),
            }
        } else {
            match next_free_ordinal(&ledger.host_ids, "host_", (i + 1) as u64) {
                Some((_k, t)) => {
                    proof {
                        reveal_strlit("host_");
                        assert forall|j: int| 0 <= j < prev@.len() implies (#[trigger] prev@[j]).id@ != t@ by {
                            assert(holds_text(ledger.host_ids@, prev@[j].id@));
                        }
                    }
                    t
                },
                None => {
                    proof {
                        reveal_strlit("host_");
                        assert forall|k: nat| i + 1 <= k <= MAX_ORDINAL implies #[trigger] host_id_issued(
                            *ledger,
                            prev@,
                            ordinal_text("host_"@, k),
                        ) by {}
                    }
                    let e = ComposeError::AllocationExhausted(String::from_str("host ids"));
                    proof {
                        reveal_strlit("host ids");
                    }
                    assert(self.error_names_entity(e));
                    return Err(e);
                },
            }
        };
        let keep_mac = match ph {
            Some(x) => match &x.mac_address {
                Some(m) => !mac_taken_by(prev, m),
                None => false,
            },
            None => false,
        };
        let mac = if keep_mac {
            match ph {
                Some(x) => copy_opt_string(&x.mac_address),
                None => None,
            }
        } else {
            let used = ledger.mac_addresses.len() as u64;
            let start = if used < MAX_MAC_COUNTER {
                used + 1
            } else {
                MAX_MAC_COUNTER + 1
            };
            match next_free_mac(&ledger.mac_addresses, start) {
                Some((_k, t)) => {
                    proof {
                        assert forall|j: int| 0 <= j < prev@.len() implies !has_mac(#[trigger] prev@[j], t@) by {
                            if let Some(m) = prev@[j].mac_address {
                                assert(holds_text(ledger.mac_addresses@, m@));
                            }
                        }
                    }
                    Some(t)
                },
                None => {
                    proof {
                        assert forall|k: u64| ledger.mac_addresses@.len() + 1 <= k <= MAX_MAC_COUNTER implies #[trigger] mac_issued(
                            *ledger,
                            prev@,
                            mac_text(k),
                        ) by {}
                    }
                    let e = ComposeError::AllocationExhausted(String::from_str("mac addresses"));
                    proof {
                        reveal_strlit("mac addresses");
                    }
                    assert(self.error_names_entity(e));
                    return Err(e);
                },
            }
        };
        let ip_addresses = match self.resolve_ips(i, subs, bs, prior, ph, ledger, prev) {
            Ok(v) => v,
            Err(e) => {
                return Err(e);
            },
        };
        let mut roles: Vec<RoleConfig> = Vec::new();
        let mut k: usize = 0;
        while k < d.roles.len()
            invariant
                k <= d.roles@.len(),
                roles@.len() == k,
                forall|k2: int|
                    0 <= k2 < k ==> (#[trigger] roles@[k2]).name@ == d.roles@[k2].spec_name()@
                        && roles@[k2].values@ == d.roles@[k2].spec_values(),
            decreases d.roles@.len() - k,
        {
            roles.push(d.roles[k].full_config());
            k = k + 1;
        }
        let (instance_type, resources) = kind_and_resources(&self.flavors, &d.flavor);
        let subnets = d.subnets.clone();
        proof {
            assert(subnets@ =~= d.subnets@);
        }
        let h = ExpandedHost {
            name: d.name.clone(),
            flavor: d.flavor.clone(),
            image: d.image.clone(),
            floating_ip: d.floating_ip,
            master: d.master,
            is_router: d.is_router,
            roles,
            subnets,
            id,
            mac_address: mac,
            ip_addresses,
            instance_type,
            resources,
        };
        Ok(h)
    }
}

/// Records in the ledger the identifier and addresses of `h` that it does not
/// hold yet.
fn record_host(ledger: &mut UsedValues, h: &ExpandedHost)
    ensures
        final(ledger).host_ids@ == push_new(old(ledger).host_ids@, h.id),
        final(ledger).ip_addresses@ == entries_after(
            old(ledger).ip_addresses@,
            h.ip_addresses@,
            h.ip_addresses@.len() as int,
        ),
        final(ledger).mac_addresses@ == match h.mac_address {
            Some(m) => if holds_text(old(ledger).mac_addresses@, m@) {
                old(ledger).mac_addresses@
            } else {
                old(ledger).mac_addresses@.push(m)
            },
            None => old(ledger).mac_addresses@,
        },
        forall|t: Seq<char>| #[trigger] holds_text(final(ledger).host_ids@, t) ==> holds_text(old(ledger).host_ids@, t) || t == h.id@,
        forall|t: Seq<char>|
            #[trigger] holds_text(final(ledger).mac_addresses@, t) ==> holds_text(old(ledger).mac_addresses@, t) || has_mac(*h, t),
        forall|n: Seq<char>, a: Seq<char>|
            #[trigger] holds_ip(final(ledger).ip_addresses@, n, a) ==> holds_ip(old(ledger).ip_addresses@, n, a) || exists|k: int|
                0 <= k < h.ip_addresses@.len() && (#[trigger] h.ip_addresses@[k]).0@ == n && h.ip_addresses@[k].1@ == a,
        ledger_kept(*old(ledger), *final(ledger)),
        final(ledger).subnet_ids == old(ledger).subnet_ids,
        holds_text(final(ledger).host_ids@, h.id@),
        h.mac_address matches Some(m) ==> holds_text(final(ledger).mac_addresses@, m@),
        forall|k: int|
            0 <= k < h.ip_addresses@.len() ==> holds_ip(
                final(ledger).ip_addresses@,
                (#[trigger] h.ip_addresses@[k]).0@,
                h.ip_addresses@[k].1@,
            ),
{
    let ghost l0 = *ledger;
    if !contains_text(&ledger.host_ids, &h.id) {
        ledger.host_ids.push(h.id.clone());
        assert(ledger.host_ids@[ledger.host_ids@.len() - 1]@ == h.id@);
    }
    assert forall|t: Seq<char>| #[trigger] holds_text(ledger.host_ids@, t) implies holds_text(l0.host_ids@, t) || t == h.id@ by {
        let w = choose|w: int| 0 <= w < ledger.host_ids@.len() && (#[trigger] ledger.host_ids@[w])@ == t;
        if w < l0.host_ids@.len() {
            assert(l0.host_ids@[w] == ledger.host_ids@[w]);
        }
    }
    match &h.mac_address {
        Some(m) => {
            if !contains_text(&ledger.mac_addresses, m) {
                ledger.mac_addresses.push(m.clone());
                assert(ledger.mac_addresses@[ledger.mac_addresses@.len() - 1]@ == m@);
            }
        },
        None => {},
    }
    assert forall|t: Seq<char>| #[trigger] holds_text(ledger.mac_addresses@, t) implies holds_text(l0.mac_addresses@, t) || has_mac(*h, t) by {
        let w = choose|w: int| 0 <= w < ledger.mac_addresses@.len() && (#[trigger] ledger.mac_addresses@[w])@ == t;
        if w < l0.mac_addresses@.len() {
            assert(l0.mac_addresses@[w] == ledger.mac_addresses@[w]);
        }
    }
    assert(l0.host_ids@.is_prefix_of(ledger.host_ids@));
    assert(l0.mac_addresses@.is_prefix_of(ledger.mac_addresses@));
    let ghost l1 = *ledger;
    let mut k: usize = 0;
    while k < h.ip_addresses.len()
        invariant
            k <= h.ip_addresses@.len(),
            l1.ip_addresses@.is_prefix_of(ledger.ip_addresses@),
            ledger.ip_addresses@ == entries_after(l1.ip_addresses@, h.ip_addresses@, k as int),
            ledger.host_ids == l1.host_ids,
            ledger.mac_addresses == l1.mac_addresses,
            ledger.subnet_ids == l1.subnet_ids,
            forall|k2: int|
                0 <= k2 < k ==> holds_ip(
                    ledger.ip_addresses@,
                    (#[trigger] h.ip_addresses@[k2]).0@,
                    h.ip_addresses@[k2].1@,
                ),
            forall|n: Seq<char>, a: Seq<char>|
                #[trigger] holds_ip(ledger.ip_addresses@, n, a) ==> holds_ip(l1.ip_addresses@, n, a) || exists|k2: int|
                    0 <= k2 < k && (#[trigger] h.ip_addresses@[k2]).0@ == n && h.ip_addresses@[k2].1@ == a,
        decreases h.ip_addresses@.len() - k,
    {
        let ghost before = ledger.ip_addresses@;
        let (n, a) = (&h.ip_addresses[k].0, &h.ip_addresses[k].1);
        if !contains_ip(&ledger.ip_addresses, n, a) {
            ledger.ip_addresses.push((n.clone(), a.clone()));
            proof {
                assert forall|n2: Seq<char>, a2: Seq<char>| #[trigger] holds_ip(ledger.ip_addresses@, n2, a2) implies holds_ip(l1.ip_addresses@, n2, a2) || exists|k2: int|
                    0 <= k2 < k + 1 && (#[trigger] h.ip_addresses@[k2]).0@ == n2 && h.ip_addresses@[k2].1@ == a2 by {
                    let w = choose|w: int| 0 <= w < ledger.ip_addresses@.len() && (#[trigger] ledger.ip_addresses@[w]).0@ == n2 && ledger.ip_addresses@[w].1@ == a2;
                    if w < before.len() {
                        assert(before[w] == ledger.ip_addresses@[w]);
                        assert(holds_ip(before, n2, a2));
                    } else {
                        assert(h.ip_addresses@[k as int].0@ == n2);
                    }
                }
                assert(ledger.ip_addresses@[before.len() as int].0@ == n@);
                assert forall|k2: int| 0 <= k2 < k implies holds_ip(
                    ledger.ip_addresses@,
                    (#[trigger] h.ip_addresses@[k2]).0@,
                    h.ip_addresses@[k2].1@,
                ) by {
                    lemma_holds_ip_prefix(before, ledger.ip_addresses@, h.ip_addresses@[k2].0@, h.ip_addresses@[k2].1@);
                }
            }
        }
        proof {
            assert forall|n2: Seq<char>, a2: Seq<char>| #[trigger] holds_ip(ledger.ip_addresses@, n2, a2) implies holds_ip(l1.ip_addresses@, n2, a2) || exists|k2: int|
                0 <= k2 < k + 1 && (#[trigger] h.ip_addresses@[k2]).0@ == n2 && h.ip_addresses@[k2].1@ == a2 by {
            }
        }
        k = k + 1;
    }
}

proof fn lemma_ledger_covers_grow(l0: UsedValues, l1: UsedValues, prev: Seq<ExpandedHost>)
    requires
        ledger_covers(l0, prev),
        ledger_kept(l0, l1),
    ensures
        ledger_covers(l1, prev),
{
    assert forall|j: int| 0 <= j < prev.len() implies {
        let h = #[trigger] prev[j];
        &&& holds_text(l1.host_ids@, h.id@)
        &&& (h.mac_address matches Some(m) ==> holds_text(l1.mac_addresses@, m@))
        &&& forall|k: int|
            0 <= k < h.ip_addresses@.len() ==> holds_ip(
                l1.ip_addresses@,
                (#[trigger] h.ip_addresses@[k]).0@,
                h.ip_addresses@[k].1@,
            )
    } by {
        let h = prev[j];
        lemma_holds_text_prefix(l0.host_ids@, l1.host_ids@, h.id@);
        if let Some(m) = h.mac_address {
            lemma_holds_text_prefix(l0.mac_addresses@, l1.mac_addresses@, m@);
        }
        assert forall|k: int| 0 <= k < h.ip_addresses@.len() implies holds_ip(
            l1.ip_addresses@,
            (#[trigger] h.ip_addresses@[k]).0@,
            h.ip_addresses@[k].1@,
        ) by {
            lemma_holds_ip_prefix(l0.ip_addresses@, l1.ip_addresses@, h.ip_addresses@[k].0@, h.ip_addresses@[k].1@);
        }
    }
}

proof fn lemma_ledger_kept_trans(a: UsedValues, b: UsedValues, c: UsedValues)
    requires
        ledger_kept(a, b),
        ledger_kept(b, c),
    ensures
        ledger_kept(a, c),
{
    assert(a.host_ids@ =~= c.host_ids@.subrange(0, a.host_ids@.len() as int));
    assert(a.subnet_ids@ =~= c.subnet_ids@.subrange(0, a.subnet_ids@.len() as int));
    assert(a.mac_addresses@ =~= c.mac_addresses@.subrange(0, a.mac_addresses@.len() as int));
    assert(a.ip_addresses@ =~= c.ip_addresses@.subrange(0, a.ip_addresses@.len() as int));
}

/// A host resolved against a ledger is also resolved against any earlier
/// state of that ledger: what the later ledger never held, the earlier one
/// never held either.
proof fn lemma_host_resolved_earlier_ledger(
    doc: IncusCompose,
    prior: Option<IncusLockfile>,
    subs: Seq<ExpandedSubnet>,
    blocks: Seq<Cidr>,
    l0: UsedValues,
    l1: UsedValues,
    prev: Seq<ExpandedHost>,
    h: ExpandedHost,
    i: int,
    mac_from: int,
)
    requires
        0 <= i < doc.hosts@.len(),
        ledger_kept(l0, l1),
        ledger_within(l0, l1, prev),
        host_resolved(doc, prior, subs, blocks, l1, prev, h, i, mac_from),
    ensures
        host_resolved(doc, prior, subs, blocks, l0, prev, h, i, mac_from),
{
    assert forall|t: Seq<char>| host_id_issued(l1, prev, t) implies host_id_issued(l0, prev, t) by {}
    assert forall|t: Seq<char>| mac_issued(l1, prev, t) implies mac_issued(l0, prev, t) by {}
    assert forall|n: Seq<char>, a: Seq<char>| ip_issued(l1, prev, n, a) implies ip_issued(l0, prev, n, a) by {}
    if holds_text(l0.host_ids@, h.id@) {
        lemma_holds_text_prefix(l0.host_ids@, l1.host_ids@, h.id@);
    }
    if let Some(m) = h.mac_address {
        if holds_text(l0.mac_addresses@, m@) {
            lemma_holds_text_prefix(l0.mac_addresses@, l1.mac_addresses@, m@);
        }
    }
    let d = doc.hosts@[i];
    assert forall|k: int| 0 <= k < h.ip_addresses@.len() implies ip_resolved(
        prior,
        subs,
        blocks,
        l0,
        prev,
        d,
        #[trigger] h.ip_addresses@[k],
        k,
    ) by {
        let e = h.ip_addresses@[k];
        assert(ip_resolved(prior, subs, blocks, l1, prev, d, e, k));
        if holds_ip(l0.ip_addresses@, d.subnets@[k]@, e.1@) {
            lemma_holds_ip_prefix(l0.ip_addresses@, l1.ip_addresses@, d.subnets@[k]@, e.1@);
        }
    }
}

/// A host that cannot be resolved against a ledger cannot be resolved
/// against any earlier state of it either, when the later ledger holds only
/// what the earlier one held or the hosts before it hold.
proof fn lemma_host_fails_earlier_ledger(
    doc: IncusCompose,
    prior: Option<IncusLockfile>,
    subs: Seq<ExpandedSubnet>,
    blocks: Seq<Cidr>,
    l0: UsedValues,
    l1: UsedValues,
    prev: Seq<ExpandedHost>,
    i: int,
    mac_from: int,
)
    requires
        ledger_within(l0, l1, prev),
        host_fails(doc, prior, subs, blocks, l1, prev, i, mac_from),
    ensures
        host_fails(doc, prior, subs, blocks, l0, prev, i, mac_from),
{
    assert forall|t: Seq<char>| host_id_issued(l1, prev, t) implies host_id_issued(l0, prev, t) by {}
    assert forall|t: Seq<char>| mac_issued(l1, prev, t) implies mac_issued(l0, prev, t) by {}
    assert forall|n: Seq<char>, a: Seq<char>| ip_issued(l1, prev, n, a) implies ip_issued(l0, prev, n, a) by {}
    let d = doc.hosts@[i];
    if exists|k: int, j: int|
        0 <= k < d.subnets@.len() && 0 <= j < subs.len() && subs[j].name@ == d.subnets@[k]@
            && #[trigger] ip_fails(prior, l1, prev, d, k, subs[j].cidr@, blocks[j]) {
        let (k, j) = choose|k: int, j: int|
            0 <= k < d.subnets@.len() && 0 <= j < subs.len() && subs[j].name@ == d.subnets@[k]@
                && #[trigger] ip_fails(prior, l1, prev, d, k, subs[j].cidr@, blocks[j]);
        assert(ip_fails(prior, l0, prev, d, k, subs[j].cidr@, blocks[j]));
    }
}

impl IncusCompose {
    /// Resolves every host in declaration order, recording what each one
    /// receives in the ledger before the next is resolved.
    fn resolve_hosts(
        &self,
        subs: &Vec<ExpandedSubnet>,
        bs: &Vec<Cidr>,
        prior: Option<&IncusLockfile>,
        ledger: &mut UsedValues,
    ) -> (r: Result<Vec<ExpandedHost>, ComposeError>)
        requires
            self.well_formed(),
            self.references_resolve(),
            subnets_match(*self, subs@, bs@),
        ensures
            ledger_kept(*old(ledger), *final(ledger)),
            final(ledger).subnet_ids == old(ledger).subnet_ids,
            r matches Err(e) ==> self.error_names_entity(e),
            r matches Err(e) ==> e is AllocationExhausted && exists|i: int, hs: Seq<ExpandedHost>|
                0 <= i < self.hosts@.len() && hs.len() == i && (forall|x: int|
                    0 <= x < i ==> host_resolved(
                        *self,
                        opt_state(prior),
                        subs@,
                        bs@,
                        *old(ledger),
                        hs.subrange(0, x),
                        #[trigger] hs[x],
                        x, mac_start(*old(ledger), hs.subrange(0, x)),

                    )) && host_fails(*self, opt_state(prior), subs@, bs@, *old(ledger), hs, i, mac_start(*old(ledger), hs)),
            r matches Ok(hs) ==> {
                &&& hs@.len() == self.hosts@.len()
                &&& ledger_covers(*final(ledger), hs@)
                &&& ledger_within(*old(ledger), *final(ledger), hs@)
                &&& final(ledger).host_ids@ == host_ids_after(old(ledger).host_ids@, hs@, hs@.len() as int)
                &&& final(ledger).mac_addresses@ == macs_after(old(ledger).mac_addresses@, hs@, hs@.len() as int)
                &&& final(ledger).ip_addresses@ == ips_after(old(ledger).ip_addresses@, hs@, hs@.len() as int)
                &&& forall|i: int|
                    0 <= i < hs@.len() ==> host_resolved(
                        *self,
                        opt_state(prior),
                        subs@,
                        bs@,
                        *old(ledger),
                        hs@.subrange(0, i),
                        #[trigger] hs@[i],
                        i, mac_start(*old(ledger), hs@.subrange(0, i)),

                    )
            },
    {
        let ghost l0 = *ledger;
        let mut out: Vec<ExpandedHost> = Vec::new();
        let n = self.hosts.len();
        let mut i: usize = 0;
        while i < n
            invariant
                n == self.hosts@.len(),
                i <= n,
                self.well_formed(),
                self.references_resolve(),
                subnets_match(*self, subs@, bs@),
                l0 == *old(ledger),
                ledger_kept(l0, *ledger),
                ledger_within(l0, *ledger, out@),
                ledger.mac_addresses@ == macs_after(l0.mac_addresses@, out@, i as int),
                ledger.host_ids@ == host_ids_after(l0.host_ids@, out@, i as int),
                ledger.ip_addresses@ == ips_after(l0.ip_addresses@, out@, i as int),
                ledger.subnet_ids == l0.subnet_ids,
                out@.len() == i,
                ledger_covers(*ledger, out@),
                forall|j: int|
                    0 <= j < i ==> host_resolved(
                        *self,
                        opt_state(prior),
                        subs@,
                        bs@,
                        l0,
                        out@.subrange(0, j),
                        #[trigger] out@[j],
                        j, mac_start(l0, out@.subrange(0, j)),

                    ),
            decreases n - i,
        {
            let h = match self.resolve_host(i, subs, bs, prior, ledger, &out) {
                Ok(h) => h,
                Err(e) => {
                    proof {
                        assert(mac_start(l0, out@) == ledger.mac_addresses@.len() + 1 as int);
                        lemma_host_fails_earlier_ledger(
                            *self,
                            opt_state(prior),
                            subs@,
                            bs@,
                            l0,
                            *ledger,
                            out@,
                            i as int,
                            ledger.mac_addresses@.len() + 1 as int,
                        );
                    }
                    return Err(e);
                },
            };
            let ghost l_before = *ledger;
            let ghost out_before = out@;
            proof {
                lemma_host_resolved_earlier_ledger(
                    *self,
                    opt_state(prior),
                    subs@,
                    bs@,
                    l0,
                    l_before,
                    out@,
                    h,
                    i as int,
                    l_before.mac_addresses@.len() + 1 as int,
                );
            }
            record_host(ledger, &h);
            out.push(h);
            proof {
                lemma_macs_after_prefix(l0.mac_addresses@, out_before, out@[i as int], i as int);
                lemma_after_prefix(l0, out_before, out@[i as int], i as int);
                assert(out@ == out_before.push(out@[i as int]));
                lemma_ledger_kept_trans(l0, l_before, *ledger);
                lemma_ledger_covers_grow(l_before, *ledger, out_before);
                let hv = out@[i as int];
                assert forall|t: Seq<char>| #[trigger] holds_text(ledger.host_ids@, t) implies host_id_issued(l0, out@, t) by {
                    if holds_text(l_before.host_ids@, t) {
                        if !holds_text(l0.host_ids@, t) {
                            let j = choose|j: int| 0 <= j < out_before.len() && (#[trigger] out_before[j]).id@ == t;
                            assert(out@[j] == out_before[j]);
                        }
                    } else {
                        assert(out@[i as int].id@ == t);
                    }
                }
                assert forall|t: Seq<char>| #[trigger] holds_text(ledger.mac_addresses@, t) implies mac_issued(l0, out@, t) by {
                    if holds_text(l_before.mac_addresses@, t) {
                        if !holds_text(l0.mac_addresses@, t) {
                            let j = choose|j: int| 0 <= j < out_before.len() && has_mac(#[trigger] out_before[j], t);
                            assert(out@[j] == out_before[j]);
                        }
                    } else {
                        assert(has_mac(out@[i as int], t));
                    }
                }
                assert forall|n: Seq<char>, a: Seq<char>| #[trigger] holds_ip(ledger.ip_addresses@, n, a) implies ip_issued(l0, out@, n, a) by {
                    if holds_ip(l_before.ip_addresses@, n, a) {
                        if !holds_ip(l0.ip_addresses@, n, a) {
                            let (j, k) = choose|j: int, k: int|
                                0 <= j < out_before.len() && 0 <= k < out_before[j].ip_addresses@.len()
                                    && (#[trigger] out_before[j].ip_addresses@[k]).0@ == n && out_before[j].ip_addresses@[k].1@ == a;
                            assert(out@[j] == out_before[j]);
                            assert(out@[j].ip_addresses@[k].0@ == n);
                        }
                    } else {
                        let k = choose|k: int|
                            0 <= k < hv.ip_addresses@.len() && (#[trigger] hv.ip_addresses@[k]).0@ == n && hv.ip_addresses@[k].1@ == a;
                        assert(out@[i as int].ip_addresses@[k].0@ == n);
                    }
                }
                assert(out@.subrange(0, i as int) =~= out_before);
                assert forall|j: int| 0 <= j <= i implies host_resolved(
                    *self,
                    opt_state(prior),
                    subs@,
                    bs@,
                    l0,
                    out@.subrange(0, j),
                    #[trigger] out@[j],
                    j, mac_start(l0, out@.subrange(0, j)),

                ) by {
                    if j < i {
                        assert(out@.subrange(0, j) =~= out_before.subrange(0, j));
                        assert(out@[j] == out_before[j]);
                    }
                }
                assert forall|j: int| 0 <= j < out@.len() implies {
                    let x = #[trigger] out@[j];
                    &&& holds_text(ledger.host_ids@, x.id@)
                    &&& (x.mac_address matches Some(m) ==> holds_text(ledger.mac_addresses@, m@))
                    &&& forall|k: int|
                        0 <= k < x.ip_addresses@.len() ==> holds_ip(
                            ledger.ip_addresses@,
                            (#[trigger] x.ip_addresses@[k]).0@,
                            x.ip_addresses@[k].1@,
                        )
                } by {
                    if j < i {
                        assert(out@[j] == out_before[j]);
                    }
                }
            }
            i = i + 1;
        }
        Ok(out)
    }
}

/// Whether a subnet of `subs` is named `n`.
pub open spec fn subnet_declared(subs: Seq<ExpandedSubnet>, n: Seq<char>) -> bool {
    exists|j: int| 0 <= j < subs.len() && (#[trigger] subs[j]).name@ == n
}

impl IncusLockfile {
    /// Host identifiers are pairwise different.
    pub open spec fn host_ids_distinct(&self) -> bool {
        forall|i: int, j: int|
            0 <= i < self.hosts@.len() && 0 <= j < self.hosts@.len() && i != j ==> self.hosts@[i].id@
                != self.hosts@[j].id@
    }

    /// Every host has a hardware address, and they are pairwise different.
    pub open spec fn macs_distinct(&self) -> bool {
        &&& forall|i: int| 0 <= i < self.hosts@.len() ==> (#[trigger] self.hosts@[i]).mac_address is Some
        &&& forall|i: int, j: int|
            0 <= i < self.hosts@.len() && 0 <= j < self.hosts@.len() && i != j
                ==> self.hosts@[i].mac_address->0@ != self.hosts@[j].mac_address->0@
    }

    /// Within one subnet, the addresses of different hosts differ.
    pub open spec fn ips_distinct(&self) -> bool {
        forall|i: int, j: int, ki: int, kj: int|
            0 <= i < self.hosts@.len() && 0 <= j < self.hosts@.len() && i != j && 0 <= ki
                < self.hosts@[i].ip_addresses@.len() && 0 <= kj < self.hosts@[j].ip_addresses@.len()
                && (#[trigger] self.hosts@[i].ip_addresses@[ki]).0@ == (#[trigger] self.hosts@[j].ip_addresses@[kj]).0@
                ==> self.hosts@[i].ip_addresses@[ki].1@ != self.hosts@[j].ip_addresses@[kj].1@
    }

    /// Each host has exactly one address per listed subnet, in the order of
    /// its list, and each listed subnet is a resolved subnet.
    pub open spec fn addresses_follow_subnets(&self) -> bool {
        forall|i: int|
            0 <= i < self.hosts@.len() ==> {
                let h = #[trigger] self.hosts@[i];
                &&& h.ip_addresses@.len() == h.subnets@.len()
                &&& forall|k: int|
                    0 <= k < h.subnets@.len() ==> (#[trigger] h.ip_addresses@[k]).0@ == h.subnets@[k]@
                &&& forall|k: int|
                    0 <= k < h.subnets@.len() ==> subnet_declared(self.subnets@, (#[trigger] h.subnets@[k])@)
            }
    }

    /// Each subnet's block is readable, leaves room for hosts, and its gateway
    /// is the first host address of the block.
    pub open spec fn gateways_first_host(&self) -> bool {
        forall|j: int|
            0 <= j < self.subnets@.len() ==> {
                let s = #[trigger] self.subnets@[j];
                &&& is_block_text(s.cidr@)
                &&& block_of(s.cidr@).prefix <= 30
                &&& s.gateway@ == ipv4_text(gateway(block_of(s.cidr@)) as u32)
            }
    }

    /// The ledger records every identifier and address the state holds.
    pub open spec fn ledger_complete(&self) -> bool {
        &&& ledger_covers(self.metadata.used_values, self.hosts@)
        &&& forall|j: int|
            0 <= j < self.subnets@.len() ==> holds_text(
                self.metadata.used_values.subnet_ids@,
                (#[trigger] self.subnets@[j]).id@,
            )
    }

    /// The invariants every resolved state keeps.
    pub open spec fn wf(&self) -> bool {
        &&& self.host_ids_distinct()
        &&& subnet_ids_distinct(self.subnets@)
        &&& self.macs_distinct()
        &&& self.ips_distinct()
        &&& self.addresses_follow_subnets()
        &&& self.gateways_first_host()
        &&& self.ledger_complete()
    }
}

/// Whether `l` is the ledger a run starts from: a copy of the prior state's,
/// or an empty one.
pub open spec fn starting_ledger(prior: Option<IncusLockfile>, l: UsedValues) -> bool {
    match prior {
        Some(p) => {
            &&& l.host_ids@ == p.metadata.used_values.host_ids@
            &&& l.subnet_ids@ == p.metadata.used_values.subnet_ids@
            &&& l.mac_addresses@ == p.metadata.used_values.mac_addresses@
            &&& l.ip_addresses@ == p.metadata.used_values.ip_addresses@
        },
        None => {
            &&& l.host_ids@.len() == 0
            &&& l.subnet_ids@.len() == 0
            &&& l.mac_addresses@.len() == 0
            &&& l.ip_addresses@.len() == 0
        },
    }
}

/// The block each resolved subnet reads.
pub open spec fn blocks_of(subs: Seq<ExpandedSubnet>) -> Seq<Cidr> {
    subs.map_values(|s: ExpandedSubnet| block_of(s.cidr@))
}

/// What holds of a state resolved from `doc` against `prior`, starting from
/// the ledger `l0`.
pub open spec fn resolved_from(doc: IncusCompose, prior: Option<IncusLockfile>, l0: UsedValues, l: IncusLockfile) -> bool {
    &&& starting_ledger(prior, l0)
    &&& l.subnets@.len() == doc.subnets@.len()
    &&& l.hosts@.len() == doc.hosts@.len()
    &&& forall|j: int|
        0 <= j < l.subnets@.len() ==> #[trigger] subnet_resolved(doc, prior, l0, l.subnets@, blocks_of(l.subnets@), j)
    &&& forall|i: int|
        0 <= i < l.hosts@.len() ==> host_resolved(
            doc,
            prior,
            l.subnets@,
            blocks_of(l.subnets@),
            l0,
            l.hosts@.subrange(0, i),
            #[trigger] l.hosts@[i],
            i, mac_start(l0, l.hosts@.subrange(0, i)),

        )
    &&& ledger_kept(l0, l.metadata.used_values)
    &&& forall|t: Seq<char>|
        #[trigger] holds_text(l.metadata.used_values.subnet_ids@, t) ==> subnet_id_issued(
            l0,
            l.subnets@,
            l.subnets@.len() as int,
            t,
        )
    &&& ledger_within(l0, l.metadata.used_values, l.hosts@)
    &&& l.metadata.used_values.subnet_ids@ == subnet_ids_after(
        l0.subnet_ids@,
        l.subnets@,
        l.subnets@.len() as int,
    )
    &&& l.metadata.used_values.host_ids@ == host_ids_after(l0.host_ids@, l.hosts@, l.hosts@.len() as int)
    &&& l.metadata.used_values.mac_addresses@ == macs_after(
        l0.mac_addresses@,
        l.hosts@,
        l.hosts@.len() as int,
    )
    &&& l.metadata.used_values.ip_addresses@ == ips_after(
        l0.ip_addresses@,
        l.hosts@,
        l.hosts@.len() as int,
    )
    &&& l.version == doc.version
    &&& l.defaults.host_ip4_ranges@ == doc.defaults.host_ip4_ranges@
    &&& l.defaults.router_ip4_ranges@ == doc.defaults.router_ip4_ranges@
    &&& l.defaults.cidr4_ranges@ == doc.defaults.cidr4_ranges@
    &&& l.flavors@ == doc.flavors@
    &&& l.images@ == doc.images@
    &&& l.metadata.generator_version@ == "0.1.0"@
}

proof fn lemma_hosts_distinct(hs: Seq<ExpandedHost>)
    requires
        forall|i: int|
            0 <= i < hs.len() ==> {
                &&& !id_taken(hs.subrange(0, i), (#[trigger] hs[i]).id@)
                &&& hs[i].mac_address is Some
                &&& !mac_taken(hs.subrange(0, i), hs[i].mac_address->0@)
                &&& forall|k: int|
                    0 <= k < hs[i].ip_addresses@.len() ==> !ip_taken(
                        hs.subrange(0, i),
                        (#[trigger] hs[i].ip_addresses@[k]).0@,
                        hs[i].ip_addresses@[k].1@,
                    )
            },
    ensures
        forall|i: int, j: int| 0 <= i < hs.len() && 0 <= j < hs.len() && i != j ==> hs[i].id@ != hs[j].id@,
        forall|i: int, j: int|
            0 <= i < hs.len() && 0 <= j < hs.len() && i != j ==> hs[i].mac_address->0@ != hs[j].mac_address->0@,
        forall|i: int, j: int, ki: int, kj: int|
            0 <= i < hs.len() && 0 <= j < hs.len() && i != j && 0 <= ki < hs[i].ip_addresses@.len() && 0
                <= kj < hs[j].ip_addresses@.len() && (#[trigger] hs[i].ip_addresses@[ki]).0@
                == (#[trigger] hs[j].ip_addresses@[kj]).0@ ==> hs[i].ip_addresses@[ki].1@
                != hs[j].ip_addresses@[kj].1@,
{
    assert forall|i: int, j: int| 0 <= i < hs.len() && 0 <= j < hs.len() && i != j implies hs[i].id@ != hs[j].id@ && hs[i].mac_address->0@ != hs[j].mac_address->0@ by {
        let (a, b) = if i < j { (i, j) } else { (j, i) };
        let pre = hs.subrange(0, b);
        assert(pre[a] == hs[a]);
        assert(has_mac(pre[a], hs[a].mac_address->0@));
    }
    assert forall|i: int, j: int, ki: int, kj: int|
        0 <= i < hs.len() && 0 <= j < hs.len() && i != j && 0 <= ki < hs[i].ip_addresses@.len() && 0
            <= kj < hs[j].ip_addresses@.len() && (#[trigger] hs[i].ip_addresses@[ki]).0@
            == (#[trigger] hs[j].ip_addresses@[kj]).0@ implies hs[i].ip_addresses@[ki].1@
            != hs[j].ip_addresses@[kj].1@ by {
        if i < j {
            let pre = hs.subrange(0, j);
            assert(pre[i] == hs[i]);
            assert(!ip_taken(pre, hs[j].ip_addresses@[kj].0@, hs[j].ip_addresses@[kj].1@));
            assert(pre[i].ip_addresses@[ki] == hs[i].ip_addresses@[ki]);
        } else {
            let pre = hs.subrange(0, i);
            assert(pre[j] == hs[j]);
            assert(!ip_taken(pre, hs[i].ip_addresses@[ki].0@, hs[i].ip_addresses@[ki].1@));
            assert(pre[j].ip_addresses@[kj] == hs[j].ip_addresses@[kj]);
        }
    }
}

proof fn lemma_blocks_of(subs: Seq<ExpandedSubnet>, bs: Seq<Cidr>)
    requires
        subs.len() == bs.len(),
        forall|j: int| 0 <= j < subs.len() ==> (#[trigger] bs[j]).wf() && subs[j].cidr@ == cidr_text(bs[j]),
    ensures
        blocks_of(subs) == bs,
{
    assert forall|j: int| 0 <= j < subs.len() implies blocks_of(subs)[j] == bs[j] by {
        let c = block_of(subs[j].cidr@);
        assert(bs[j].wf() && cidr_text(bs[j]) == subs[j].cidr@);
        crate::net::lemma_cidr_text_injective(c, bs[j]);
    }
    assert(blocks_of(subs) =~= bs);
}

proof fn lemma_resolved_wf(doc: IncusCompose, prior: Option<IncusLockfile>, l0: UsedValues, l: IncusLockfile)
    requires
        doc.well_formed(),
        doc.references_resolve(),
        resolved_from(doc, prior, l0, l),
        subnet_ids_distinct(l.subnets@),
        ledger_covers(l.metadata.used_values, l.hosts@),
        forall|j: int|
            0 <= j < l.subnets@.len() ==> holds_text(
                l.metadata.used_values.subnet_ids@,
                (#[trigger] l.subnets@[j]).id@,
            ),
    ensures
        l.wf(),
{
    let hs = l.hosts@;
    let subs = l.subnets@;
    assert forall|i: int| 0 <= i < hs.len() implies {
        &&& !id_taken(hs.subrange(0, i), (#[trigger] hs[i]).id@)
        &&& hs[i].mac_address is Some
        &&& !mac_taken(hs.subrange(0, i), hs[i].mac_address->0@)
        &&& forall|k: int|
            0 <= k < hs[i].ip_addresses@.len() ==> !ip_taken(
                hs.subrange(0, i),
                (#[trigger] hs[i].ip_addresses@[k]).0@,
                hs[i].ip_addresses@[k].1@,
            )
    } by {
        assert(host_resolved(doc, prior, subs, blocks_of(subs), l0, hs.subrange(0, i), hs[i], i, mac_start(l0, hs.subrange(0, i))));
        assert forall|k: int| 0 <= k < hs[i].ip_addresses@.len() implies !ip_taken(
            hs.subrange(0, i),
            (#[trigger] hs[i].ip_addresses@[k]).0@,
            hs[i].ip_addresses@[k].1@,
        ) by {
            assert(ip_resolved(prior, subs, blocks_of(subs), l0, hs.subrange(0, i), doc.hosts@[i], hs[i].ip_addresses@[k], k));
        }
    }
    lemma_hosts_distinct(hs);
    assert forall|i: int| 0 <= i < hs.len() implies {
        let h = #[trigger] hs[i];
        &&& h.ip_addresses@.len() == h.subnets@.len()
        &&& forall|k: int|
            0 <= k < h.subnets@.len() ==> (#[trigger] h.ip_addresses@[k]).0@ == h.subnets@[k]@
        &&& forall|k: int|
            0 <= k < h.subnets@.len() ==> subnet_declared(subs, (#[trigger] h.subnets@[k])@)
    } by {
        let h = hs[i];
        let d = doc.hosts@[i];
        assert(host_resolved(doc, prior, subs, blocks_of(subs), l0, hs.subrange(0, i), h, i, mac_start(l0, hs.subrange(0, i))));
        assert(h.subnets@.len() == str_views(h.subnets@).len());
        assert(str_views(d.subnets@).len() == d.subnets@.len());
        assert forall|k: int| 0 <= k < h.subnets@.len() implies (#[trigger] h.ip_addresses@[k]).0@ == h.subnets@[k]@ by {
            assert(str_views(h.subnets@)[k] == str_views(d.subnets@)[k]);
            assert(ip_resolved(prior, subs, blocks_of(subs), l0, hs.subrange(0, i), d, h.ip_addresses@[k], k));
        }
        assert forall|k: int| 0 <= k < h.subnets@.len() implies subnet_declared(subs, (#[trigger] h.subnets@[k])@) by {
            assert(str_views(h.subnets@)[k] == str_views(d.subnets@)[k]);
            assert(doc.subnet_names().contains(d.subnets@[k]@));
            let j = choose|j: int| 0 <= j < doc.subnet_names().len() && doc.subnet_names()[j] == d.subnets@[k]@;
            assert(subnet_resolved(doc, prior, l0, subs, blocks_of(subs), j));
            assert(subs[j].name@ == h.subnets@[k]@);
        }
    }
    assert forall|j: int| 0 <= j < subs.len() implies {
        let s = #[trigger] subs[j];
        &&& is_block_text(s.cidr@)
        &&& block_of(s.cidr@).prefix <= 30
        &&& s.gateway@ == ipv4_text(gateway(block_of(s.cidr@)) as u32)
    } by {
        assert(subnet_resolved(doc, prior, l0, subs, blocks_of(subs), j));
        let b = blocks_of(subs)[j];
        assert(b.wf() && cidr_text(b) == subs[j].cidr@);
    }
}

/// Why a run fails with exhaustion: after the subnets before it, some subnet
/// cannot be resolved; or, with every subnet resolved, some host cannot be
/// resolved after the hosts before it.
pub open spec fn exhaustion_justified(doc: IncusCompose, prior: Option<IncusLockfile>) -> bool {
    exists|l0: UsedValues|
        starting_ledger(prior, l0) && ((exists|j: int, subs: Seq<ExpandedSubnet>, bs: Seq<Cidr>|
            0 <= j < doc.subnets@.len() && subs.len() == j && bs.len() == j && (forall|x: int|
                0 <= x < j ==> #[trigger] subnet_resolved(doc, prior, l0, subs, bs, x)) && subnet_fails(
                doc,
                prior,
                l0,
                subs,
                bs,
                j,
            )) || (exists|subs: Seq<ExpandedSubnet>, i: int, hs: Seq<ExpandedHost>|
            subs.len() == doc.subnets@.len() && (forall|x: int|
                0 <= x < subs.len() ==> #[trigger] subnet_resolved(doc, prior, l0, subs, blocks_of(subs), x))
                && 0 <= i < doc.hosts@.len() && hs.len() == i && (forall|x: int|
                0 <= x < i ==> host_resolved(
                    doc,
                    prior,
                    subs,
                    blocks_of(subs),
                    l0,
                    hs.subrange(0, x),
                    #[trigger] hs[x],
                    x, mac_start(l0, hs.subrange(0, x)),

                )) && host_fails(doc, prior, subs, blocks_of(subs), l0, hs, i, mac_start(l0, hs))))
}

impl IncusCompose {
    /// Resolves the document against an optional prior state: validates it,
    /// resolves every subnet and then every host against the ledger (the prior
    /// state's, extended; or an empty one), and carries forward what the prior
    /// state assigned to entities of the same name. Fails with `ParseError` on
    /// a malformed document, with `ReferenceError` on a reference that does
    /// not resolve, and otherwise only with `AllocationExhausted`.
    #[verifier::rlimit(100)]
    pub fn reconcile(&self, prior: Option<&IncusLockfile>, generated_at: String) -> (r: Result<
        IncusLockfile,
        ComposeError,
    >)
        ensures
            r is Ok ==> self.well_formed() && self.references_resolve(),
            r matches Err(e) ==> {
                &&& (e is ParseError <==> !self.well_formed())
                &&& (e is ReferenceError <==> self.well_formed() && !self.references_resolve())
                &&& (e is AllocationExhausted <==> self.well_formed() && self.references_resolve())
                &&& (e is AllocationExhausted ==> exhaustion_justified(*self, opt_state(prior)))
                &&& self.error_names_entity(e)
            },
            r matches Ok(l) ==> {
                &&& l.wf()
                &&& exists|l0: UsedValues| resolved_from(*self, opt_state(prior), l0, l)
                &&& l.metadata.generated_at == generated_at
                &&& l.metadata.source_hash@ == self.content_digest()
            },
    {
        let (blocks, ranges) = match self.validate() {
            Ok(x) => x,
            Err(e) => {
                return Err(e);
            },
        };
        let mut ledger = match prior {
            Some(p) => p.metadata.used_values.duplicate(),
            None => UsedValues::empty(),
        };
        let ghost l0 = ledger;
        let (subs, bs) = match self.resolve_subnets(&blocks, &ranges, prior, &mut ledger) {
            Ok(x) => x,
            Err(e) => {
                assert(starting_ledger(opt_state(prior), l0));
                return Err(e);
            },
        };
        let ghost l1 = ledger;
        proof {
            assert forall|j: int| 0 <= j < subs@.len() implies (#[trigger] subs@[j]).name@ == self.subnet_names()[j] && bs@[j].wf()
                && subs@[j].cidr@ == cidr_text(bs@[j]) by {
                assert(subnet_resolved(*self, opt_state(prior), l0, subs@, bs@, j));
            }
            assert(subnets_match(*self, subs@, bs@));
        }
        let hosts = match self.resolve_hosts(&subs, &bs, prior, &mut ledger) {
            Ok(x) => x,
            Err(e) => {
                proof {
                    lemma_blocks_of(subs@, bs@);
                    let (i, hs) = choose|i: int, hs: Seq<ExpandedHost>|
                        0 <= i < self.hosts@.len() && hs.len() == i && (forall|x: int|
                            0 <= x < i ==> host_resolved(
                                *self,
                                opt_state(prior),
                                subs@,
                                bs@,
                                l1,
                                hs.subrange(0, x),
                                #[trigger] hs[x],
                                x, mac_start(l1, hs.subrange(0, x)),

                            )) && host_fails(*self, opt_state(prior), subs@, bs@, l1, hs, i, mac_start(l1, hs));
                    assert forall|x: int| 0 <= x < i implies host_resolved(
                        *self,
                        opt_state(prior),
                        subs@,
                        blocks_of(subs@),
                        l0,
                        hs.subrange(0, x),
                        #[trigger] hs[x],
                        x, mac_start(l0, hs.subrange(0, x)),

                    ) by {
                        assert forall|t: Seq<char>| #[trigger] holds_text(l1.host_ids@, t) implies host_id_issued(l0, hs.subrange(0, x), t) by {}
                        assert forall|t: Seq<char>| #[trigger] holds_text(l1.mac_addresses@, t) implies mac_issued(l0, hs.subrange(0, x), t) by {}
                        assert forall|n: Seq<char>, a: Seq<char>| #[trigger] holds_ip(l1.ip_addresses@, n, a) implies ip_issued(l0, hs.subrange(0, x), n, a) by {}
                        assert(mac_start(l0, hs.subrange(0, x)) == mac_start(l1, hs.subrange(0, x)));
                        lemma_host_resolved_earlier_ledger(
                            *self,
                            opt_state(prior),
                            subs@,
                            bs@,
                            l0,
                            l1,
                            hs.subrange(0, x),
                            hs[x],
                            x,
                            mac_start(l1, hs.subrange(0, x)),
                        );
                    }
                    assert forall|t: Seq<char>| #[trigger] holds_text(l1.host_ids@, t) implies host_id_issued(l0, hs, t) by {}
                    assert forall|t: Seq<char>| #[trigger] holds_text(l1.mac_addresses@, t) implies mac_issued(l0, hs, t) by {}
                    assert forall|n: Seq<char>, a: Seq<char>| #[trigger] holds_ip(l1.ip_addresses@, n, a) implies ip_issued(l0, hs, n, a) by {}
                    assert(mac_start(l0, hs) == mac_start(l1, hs));
                    lemma_host_fails_earlier_ledger(
                        *self,
                        opt_state(prior),
                        subs@,
                        bs@,
                        l0,
                        l1,
                        hs,
                        i,
                        mac_start(l1, hs),
                    );
                    assert forall|x: int| 0 <= x < subs@.len() implies #[trigger] subnet_resolved(*self, opt_state(prior), l0, subs@, blocks_of(subs@), x) by {}
                    assert(starting_ledger(opt_state(prior), l0));
                }
                return Err(e);
            },
        };
        let source_hash = self.calculate_hash();
        let l = IncusLockfile {
            version: self.version.clone(),
            defaults: self.defaults.duplicate(),
            hosts,
            subnets: subs,
            flavors: copy_flavors(&self.flavors),
            images: copy_images(&self.images),
            metadata: LockfileMetadata {
                generated_at,
                generator_version: String::from_str("0.1.0"),
                source_hash,
                used_values: ledger,
            },
        };
        proof {
            reveal_strlit("0.1.0");
            lemma_ledger_kept_trans(l0, l1, ledger);
            lemma_blocks_of(l.subnets@, bs@);
            let hs = l.hosts@;
            assert forall|i: int| 0 <= i < hs.len() implies host_resolved(
                *self,
                opt_state(prior),
                l.subnets@,
                blocks_of(l.subnets@),
                l0,
                hs.subrange(0, i),
                #[trigger] hs[i],
                i, mac_start(l0, hs.subrange(0, i)),

            ) by {
                assert forall|t: Seq<char>| #[trigger] holds_text(l1.host_ids@, t) implies host_id_issued(l0, hs.subrange(0, i), t) by {}
                assert forall|t: Seq<char>| #[trigger] holds_text(l1.mac_addresses@, t) implies mac_issued(l0, hs.subrange(0, i), t) by {}
                assert forall|n: Seq<char>, a: Seq<char>| #[trigger] holds_ip(l1.ip_addresses@, n, a) implies ip_issued(l0, hs.subrange(0, i), n, a) by {}
                assert(mac_start(l0, hs.subrange(0, i)) == mac_start(l1, hs.subrange(0, i)));
                lemma_host_resolved_earlier_ledger(
                    *self,
                    opt_state(prior),
                    l.subnets@,
                    bs@,
                    l0,
                    l1,
                    hs.subrange(0, i),
                    hs[i],
                    i,
                    mac_start(l1, hs.subrange(0, i)),
                );
            }
            assert(resolved_from(*self, opt_state(prior), l0, l));
            lemma_resolved_wf(*self, opt_state(prior), l0, l);
            assert(l.wf());
            assert(exists|x: UsedValues| resolved_from(*self, opt_state(prior), x, l));
            assert(l.metadata.source_hash@ == self.content_digest());
        }
        Ok(l)
    }
}

impl IncusCompose {
    /// Resolves the document on a first run, with no prior state, stamping
    /// the result with the current time.
    pub fn generate_lockfile(&self) -> (r: Result<IncusLockfile, ComposeError>)
        ensures
            r is Ok ==> self.well_formed() && self.references_resolve(),
            r matches Err(e) ==> {
                &&& (e is ParseError <==> !self.well_formed())
                &&& (e is ReferenceError <==> self.well_formed() && !self.references_resolve())
                &&& (e is AllocationExhausted <==> self.well_formed() && self.references_resolve())
                &&& (e is AllocationExhausted ==> exhaustion_justified(*self, None))
                &&& self.error_names_entity(e)
            },
            r matches Ok(l) ==> {
                &&& l.wf()
                &&& exists|l0: UsedValues| resolved_from(*self, None, l0, l)
                &&& exists|secs: nat| l.metadata.generated_at@ == crate::clock::timestamp_text(secs)
                &&& l.metadata.source_hash@ == self.content_digest()
            },
    {
        let r = self.reconcile(None, crate::clock::simple_timestamp());
        proof {
            assert(opt_state(None) == None::<IncusLockfile>);
        }
        r
    }
}

} // verus!

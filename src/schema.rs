//! The desired-state document, the resolved state, and the accessors that
//! normalise the two-shape fields of the document.
use vstd::prelude::*;
use vstd::string::*;

verus! {

/// The desired state: hosts, subnets, flavors, images and default ranges.
#[derive(Debug, Clone)]
pub struct IncusCompose {
    /// Version of the document schema.
    pub version: String,
    /// Default configuration for optional elements.
    pub defaults: Defaults,
    /// Hosts to manage, in declaration order.
    pub hosts: Vec<Host>,
    /// Network subnets, in declaration order.
    pub subnets: Vec<Subnet>,
    /// Flavor table, as (key, flavor) entries.
    pub flavors: Vec<(String, Flavor)>,
    /// Image table, as (key, image) entries.
    pub images: Vec<(String, Image)>,
}

/// The resolved state: every optional field made explicit, with the ledger
/// of every identifier and address issued so far.
#[derive(Debug, Clone)]
pub struct IncusLockfile {
    pub version: String,
    pub defaults: Defaults,
    pub hosts: Vec<ExpandedHost>,
    pub subnets: Vec<ExpandedSubnet>,
    pub flavors: Vec<(String, Flavor)>,
    pub images: Vec<(String, Image)>,
    pub metadata: LockfileMetadata,
}

/// The schema version a document has when it names none.
pub fn default_version() -> (r: String)
    ensures
        r@ == "1.0"@,
{
    String::from_str("1.0")
}

/// Default configuration for optional elements.
#[derive(Debug, Clone, Default)]
pub struct Defaults {
    /// Address ranges for regular hosts. Carried into the resolved state;
    /// addresses are allocated from fixed offsets in each subnet's block.
    pub host_ip4_ranges: Vec<IpRange>,
    /// Address ranges for router hosts, carried the same way.
    pub router_ip4_ranges: Vec<IpRange>,
    /// Ranges of blocks for subnets without an explicit CIDR.
    pub cidr4_ranges: Vec<CidrRange>,
}

/// An address range.
#[derive(Debug, Clone)]
pub struct IpRange {
    pub start: String,
    pub end: String,
}

/// A range of blocks: from the block of `start` to the block of `end`, both
/// with the same prefix length.
#[derive(Debug, Clone)]
pub struct CidrRange {
    pub start: String,
    pub end: String,
}

/// A host as the document declares it.
#[derive(Debug, Clone)]
pub struct Host {
    pub name: String,
    pub flavor: String,
    pub image: String,
    pub floating_ip: bool,
    pub master: bool,
    pub is_router: bool,
    pub roles: Vec<Role>,
    /// Subnets the host attaches to, in order.
    pub subnets: Vec<String>,
    /// Older single-subnet form; folded into `subnets` by `normalize`.
    pub subnet: Option<String>,
    /// Older list form; folded into `subnets` by `normalize`.
    pub subnet_list: Option<Vec<String>>,
}

pub open spec fn str_views(v: Seq<String>) -> Seq<Seq<char>> {
    v.map_values(|s: String| s@)
}

pub open spec fn opt_views(o: Option<String>) -> Seq<Seq<char>> {
    match o {
        Some(s) => seq![s@],
        None => Seq::empty(),
    }
}

pub open spec fn opt_list_views(o: Option<Vec<String>>) -> Seq<Seq<char>> {
    match o {
        Some(v) => str_views(v@),
        None => Seq::empty(),
    }
}

impl Host {
    /// The subnet list after folding in the older fields: the list itself when
    /// it is not empty, else the single subnet followed by the older list.
    pub open spec fn normalized_subnets(&self) -> Seq<Seq<char>> {
        if self.subnets@.len() > 0 {
            str_views(self.subnets@)
        } else {
            opt_views(self.subnet) + opt_list_views(self.subnet_list)
        }
    }

    /// Folds the older `subnet` and `subnet_list` fields into `subnets` and
    /// clears them.
    pub fn normalize(&mut self)
        ensures
            str_views(final(self).subnets@) == old(self).normalized_subnets(),
            final(self).subnet is None,
            final(self).subnet_list is None,
            final(self).name == old(self).name,
            final(self).flavor == old(self).flavor,
            final(self).image == old(self).image,
            final(self).floating_ip == old(self).floating_ip,
            final(self).master == old(self).master,
            final(self).is_router == old(self).is_router,
            final(self).roles == old(self).roles,
    {
        if self.subnets.len() == 0 {
            let ghost start = str_views(self.subnets@);
            assert(start =~= Seq::<Seq<char>>::empty());
            match &self.subnet {
                Some(s) => {
                    self.subnets.push(s.clone());
                },
                None => {},
            }
            assert(str_views(self.subnets@) =~= opt_views(old(self).subnet));
            match &self.subnet_list {
                Some(list) => {
                    let mut k: usize = 0;
                    while k < list.len()
                        invariant
                            k <= list@.len(),
                            str_views(self.subnets@) =~= opt_views(old(self).subnet) + str_views(
                                list@.subrange(0, k as int),
                            ),
                            self.subnet == old(self).subnet,
                            self.subnet_list == old(self).subnet_list,
                            self.subnet_list == Some(*list),
                            self.name == old(self).name,
                            self.flavor == old(self).flavor,
                            self.image == old(self).image,
                            self.floating_ip == old(self).floating_ip,
                            self.master == old(self).master,
                            self.is_router == old(self).is_router,
                            self.roles == old(self).roles,
                        decreases list@.len() - k,
                    {
                        let ghost before = self.subnets@;
                        self.subnets.push(list[k].clone());
                        assert(self.subnets@ =~= before.push(list@[k as int]));
                        assert(str_views(self.subnets@) =~= str_views(before).push(list@[k as int]@));
                        k = k + 1;
                        assert(list@.subrange(0, k as int) =~= list@.subrange(0, k - 1).push(
                            list@[k - 1],
                        ));
                        assert(str_views(list@.subrange(0, k as int)) =~= str_views(list@.subrange(0, k - 1)).push(
                            list@[k - 1]@,
                        ));
                    }
                    assert(list@.subrange(0, list@.len() as int) =~= list@);
                },
                None => {},
            }
        }
        self.subnet = None;
        self.subnet_list = None;
    }
}

/// A resolved host: the declared fields with every optional one explicit,
/// plus its identifier, hardware address and one address per subnet.
#[derive(Debug, Clone)]
pub struct ExpandedHost {
    pub name: String,
    pub flavor: String,
    pub image: String,
    pub floating_ip: bool,
    pub master: bool,
    pub is_router: bool,
    pub roles: Vec<RoleConfig>,
    pub subnets: Vec<String>,
    /// Generated identifier, `host_NNN`.
    pub id: String,
    /// Generated hardware address.
    pub mac_address: Option<String>,
    /// Assigned address per subnet, as (subnet name, address) entries in the
    /// order of `subnets`.
    pub ip_addresses: Vec<(String, String)>,
    pub instance_type: InstanceType,
    pub resources: Resources,
}

/// A role: a bare name, or a name with parameters.
#[derive(Debug, Clone)]
pub enum Role {
    Name(String),
    Full(RoleConfig),
}

/// A role with its parameters.
#[derive(Debug, Clone)]
pub struct RoleConfig {
    pub name: String,
    pub values: Vec<String>,
}

impl Role {
    pub open spec fn spec_name(&self) -> String {
        match self {
            Role::Name(n) => *n,
            Role::Full(c) => c.name,
        }
    }

    pub open spec fn spec_values(&self) -> Seq<String> {
        match self {
            Role::Name(_) => Seq::empty(),
            Role::Full(c) => c.values@,
        }
    }

    /// The role's name, whichever its shape.
    pub fn name(&self) -> (r: &str)
        ensures
            r@ == self.spec_name()@,
    {
        match self {
            Role::Name(n) => n.as_str(),
            Role::Full(c) => c.name.as_str(),
        }
    }

    /// The role's parameters; none for a bare name.
    pub fn values(&self) -> (r: &[String])
        ensures
            r@ == self.spec_values(),
    {
        match self {
            Role::Name(_) => {
                let v: &[String] = &[];
                assert(v@ =~= Seq::<String>::empty());
                v
            },
            Role::Full(c) => c.values.as_slice(),
        }
    }

    /// The full form of the role.
    pub fn to_full_config(self) -> (r: RoleConfig)
        ensures
            r.name == self.spec_name(),
            r.values@ == self.spec_values(),
    {
        match self {
            Role::Name(name) => RoleConfig { name, values: Vec::new() },
            Role::Full(config) => config,
        }
    }
}

/// A subnet: a bare name, or a name with an optional explicit CIDR.
#[derive(Debug, Clone)]
pub enum Subnet {
    Name(String),
    Full(SubnetConfig),
}

/// A subnet in full form.
#[derive(Debug, Clone)]
pub struct SubnetConfig {
    pub name: String,
    /// Explicit block; absent means the block is assigned automatically.
    pub cidr: Option<String>,
}

impl Subnet {
    pub open spec fn spec_name(&self) -> String {
        match self {
            Subnet::Name(n) => *n,
            Subnet::Full(c) => c.name,
        }
    }

    pub open spec fn spec_cidr(&self) -> Option<String> {
        match self {
            Subnet::Name(_) => None,
            Subnet::Full(c) => c.cidr,
        }
    }

    /// The subnet's name, whichever its shape.
    pub fn name(&self) -> (r: &str)
        ensures
            r@ == self.spec_name()@,
    {
        match self {
            Subnet::Name(n) => n.as_str(),
            Subnet::Full(c) => c.name.as_str(),
        }
    }

    /// The explicit block, if one is given.
    pub fn cidr(&self) -> (r: Option<&str>)
        ensures
            r is Some <==> self.spec_cidr() is Some,
            r matches Some(c) ==> c@ == self.spec_cidr()->0@,
    {
        match self {
            Subnet::Name(_) => None,
            Subnet::Full(c) => match &c.cidr {
                Some(t) => Some(t.as_str()),
                None => None,
            },
        }
    }

    /// The full form of the subnet.
    pub fn to_full_config(self) -> (r: SubnetConfig)
        ensures
            r.name == self.spec_name(),
            r.cidr == self.spec_cidr(),
    {
        match self {
            Subnet::Name(name) => SubnetConfig { name, cidr: None },
            Subnet::Full(config) => config,
        }
    }
}

/// A resolved subnet.
#[derive(Debug, Clone)]
pub struct ExpandedSubnet {
    pub name: String,
    /// Final block, as `a.b.c.d/p`.
    pub cidr: String,
    /// Generated identifier, `subnet_NNN`.
    pub id: String,
    /// First host address of the block.
    pub gateway: String,
    pub network_type: NetworkType,
    /// Extra network configuration, as (key, value) entries.
    pub config: Vec<(String, String)>,
}

/// The network kind a resolved subnet has when the document names none.
pub fn default_network_type() -> (r: NetworkType)
    ensures
        r == NetworkType::Bridge,
{
    NetworkType::Bridge
}

/// A named template of resource allocation.
#[derive(Debug, Clone)]
pub struct Flavor {
    pub name: String,
    pub description: Option<String>,
    pub cpu: CpuSpec,
    pub memory: MemorySpec,
    pub storage: Option<StorageSpec>,
    pub instance_type: InstanceType,
}

/// The instance kind a flavor has when it names none.
pub fn default_instance_type() -> (r: InstanceType)
    ensures
        r == InstanceType::Container,
{
    InstanceType::Container
}

/// An image definition.
#[derive(Debug, Clone)]
pub struct Image {
    pub name: String,
    pub description: Option<String>,
    /// Where the image comes from, such as `images:`.
    pub source: String,
    pub fingerprint: Option<String>,
    pub architecture: String,
    pub os: Option<String>,
}

/// The image source an image has when it names none.
pub fn default_image_source() -> (r: String)
    ensures
        r@ == "images:"@,
{
    String::from_str("images:")
}

/// The architecture an image has when it names none.
pub fn default_architecture() -> (r: String)
    ensures
        r@ == "x86_64"@,
{
    String::from_str("x86_64")
}

#[derive(Clone, Copy, Debug, PartialEq, Eq, Structural)]
pub enum InstanceType {
    Container,
    VirtualMachine,
}

#[derive(Clone, Copy, Debug, PartialEq, Eq, Structural)]
pub enum NetworkType {
    Bridge,
    Macvlan,
    Sriov,
    Ovn,
    Physical,
}

#[derive(Debug, Clone)]
pub struct CpuSpec {
    /// Number of cores.
    pub cores: u32,
    /// Limit, as a percentage.
    pub limit: Option<String>,
    /// Allowance, as a percentage.
    pub allowance: Option<String>,
    pub priority: Option<u32>,
}

#[derive(Debug, Clone)]
pub struct MemorySpec {
    /// Limit, such as `2GB`.
    pub limit: String,
    pub swap: Option<String>,
    pub swap_priority: Option<u32>,
}

#[derive(Debug, Clone)]
pub struct StorageSpec {
    pub size: String,
    pub pool: Option<String>,
    pub storage_type: Option<String>,
}

/// Resolved resource limits of a host.
#[derive(Debug, Clone)]
pub struct Resources {
    pub cpu: CpuSpec,
    pub memory: MemorySpec,
    pub storage: Option<StorageSpec>,
}

#[derive(Debug, Clone)]
pub struct LockfileMetadata {
    /// When the resolved state was produced.
    pub generated_at: String,
    /// Version of the generator.
    pub generator_version: String,
    /// Digest of the desired state it was produced from.
    pub source_hash: String,
    /// Ledger of every value issued so far.
    pub used_values: UsedValues,
}

/// The ledger: every identifier and address issued so far, kept across runs
/// and never purged.
#[derive(Debug, Clone, Default)]
pub struct UsedValues {
    /// Issued addresses, as (subnet name, address) entries.
    pub ip_addresses: Vec<(String, String)>,
    pub mac_addresses: Vec<String>,
    pub host_ids: Vec<String>,
    pub subnet_ids: Vec<String>,
}

/// A copy of an optional text.
pub fn copy_opt_string(o: &Option<String>) -> (r: Option<String>)
    ensures
        r == *o,
{
    match o {
        Some(s) => Some(s.clone()),
        None => None,
    }
}

impl CpuSpec {
    /// A field-by-field copy.
    pub fn duplicate(&self) -> (r: CpuSpec)
        ensures
            r == *self,
    {
        CpuSpec {
            cores: self.cores,
            limit: copy_opt_string(&self.limit),
            allowance: copy_opt_string(&self.allowance),
            priority: self.priority,
        }
    }
}

impl MemorySpec {
    /// A field-by-field copy.
    pub fn duplicate(&self) -> (r: MemorySpec)
        ensures
            r == *self,
    {
        MemorySpec {
            limit: self.limit.clone(),
            swap: copy_opt_string(&self.swap),
            swap_priority: self.swap_priority,
        }
    }
}

impl StorageSpec {
    /// A field-by-field copy.
    pub fn duplicate(&self) -> (r: StorageSpec)
        ensures
            r == *self,
    {
        StorageSpec {
            size: self.size.clone(),
            pool: copy_opt_string(&self.pool),
            storage_type: copy_opt_string(&self.storage_type),
        }
    }
}

impl Role {
    /// The full form of the role, leaving the role in place.
    pub fn full_config(&self) -> (r: RoleConfig)
        ensures
            r.name@ == self.spec_name()@,
            r.values@ == self.spec_values(),
    {
        match self {
            Role::Name(n) => {
                let r = RoleConfig { name: n.clone(), values: Vec::new() };
                assert(r.values@ =~= self.spec_values());
                r
            },
            Role::Full(c) => {
                let values = c.values.clone();
                assert(values@ =~= c.values@);
                RoleConfig { name: c.name.clone(), values }
            },
        }
    }
}

/// Resource limits of a host whose flavor is not in the flavor table.
pub open spec fn default_resources_spec(r: Resources) -> bool {
    &&& r.cpu.cores == 2
    &&& r.cpu.limit matches Some(l) && l@ == "100%"@
    &&& r.cpu.allowance is None
    &&& r.cpu.priority is None
    &&& r.memory.limit@ == "2GB"@
    &&& r.memory.swap is None
    &&& r.memory.swap_priority is None
    &&& r.storage is None
}

/// Resource limits of a host whose flavor is not in the flavor table: two
/// cores at full use and two gigabytes of memory.
pub fn default_resources() -> (r: Resources)
    ensures
        default_resources_spec(r),
{
    Resources {
        cpu: CpuSpec {
            cores: 2,
            limit: Some(String::from_str("100%")),
            allowance: None,
            priority: None,
        },
        memory: MemorySpec { limit: String::from_str("2GB"), swap: None, swap_priority: None },
        storage: None,
    }
}

impl Flavor {
    /// A field-by-field copy.
    pub fn duplicate(&self) -> (r: Flavor)
        ensures
            r == *self,
    {
        let storage = match &self.storage {
            Some(st) => Some(st.duplicate()),
            None => None,
        };
        Flavor {
            name: self.name.clone(),
            description: copy_opt_string(&self.description),
            cpu: self.cpu.duplicate(),
            memory: self.memory.duplicate(),
            storage,
            instance_type: self.instance_type,
        }
    }
}

impl Image {
    /// A field-by-field copy.
    pub fn duplicate(&self) -> (r: Image)
        ensures
            r == *self,
    {
        Image {
            name: self.name.clone(),
            description: copy_opt_string(&self.description),
            source: self.source.clone(),
            fingerprint: copy_opt_string(&self.fingerprint),
            architecture: self.architecture.clone(),
            os: copy_opt_string(&self.os),
        }
    }
}

/// A copy of a flavor table.
pub fn copy_flavors(t: &Vec<(String, Flavor)>) -> (r: Vec<(String, Flavor)>)
    ensures
        r@ == t@,
{
    let mut r: Vec<(String, Flavor)> = Vec::new();
    let mut i: usize = 0;
    while i < t.len()
        invariant
            i <= t@.len(),
            r@ =~= t@.subrange(0, i as int),
        decreases t@.len() - i,
    {
        r.push((t[i].0.clone(), t[i].1.duplicate()));
        i = i + 1;
    }
    assert(r@ =~= t@);
    r
}

/// A copy of an image table.
pub fn copy_images(t: &Vec<(String, Image)>) -> (r: Vec<(String, Image)>)
    ensures
        r@ == t@,
{
    let mut r: Vec<(String, Image)> = Vec::new();
    let mut i: usize = 0;
    while i < t.len()
        invariant
            i <= t@.len(),
            r@ =~= t@.subrange(0, i as int),
        decreases t@.len() - i,
    {
        r.push((t[i].0.clone(), t[i].1.duplicate()));
        i = i + 1;
    }
    assert(r@ =~= t@);
    r
}

impl Defaults {
    /// A copy of the default ranges.
    pub fn duplicate(&self) -> (r: Defaults)
        ensures
            r.host_ip4_ranges@ == self.host_ip4_ranges@,
            r.router_ip4_ranges@ == self.router_ip4_ranges@,
            r.cidr4_ranges@ == self.cidr4_ranges@,
    {
        let mut hosts: Vec<IpRange> = Vec::new();
        let mut i: usize = 0;
        while i < self.host_ip4_ranges.len()
            invariant
                i <= self.host_ip4_ranges@.len(),
                hosts@ =~= self.host_ip4_ranges@.subrange(0, i as int),
            decreases self.host_ip4_ranges@.len() - i,
        {
            let x = &self.host_ip4_ranges[i];
            hosts.push(IpRange { start: x.start.clone(), end: x.end.clone() });
            i = i + 1;
        }
        let mut routers: Vec<IpRange> = Vec::new();
        let mut i: usize = 0;
        while i < self.router_ip4_ranges.len()
            invariant
                i <= self.router_ip4_ranges@.len(),
                routers@ =~= self.router_ip4_ranges@.subrange(0, i as int),
            decreases self.router_ip4_ranges@.len() - i,
        {
            let x = &self.router_ip4_ranges[i];
            routers.push(IpRange { start: x.start.clone(), end: x.end.clone() });
            i = i + 1;
        }
        let mut blocks: Vec<CidrRange> = Vec::new();
        let mut i: usize = 0;
        while i < self.cidr4_ranges.len()
            invariant
                i <= self.cidr4_ranges@.len(),
                blocks@ =~= self.cidr4_ranges@.subrange(0, i as int),
            decreases self.cidr4_ranges@.len() - i,
        {
            let x = &self.cidr4_ranges[i];
            blocks.push(CidrRange { start: x.start.clone(), end: x.end.clone() });
            i = i + 1;
        }
        assert(hosts@ =~= self.host_ip4_ranges@);
        assert(routers@ =~= self.router_ip4_ranges@);
        assert(blocks@ =~= self.cidr4_ranges@);
        Defaults { host_ip4_ranges: hosts, router_ip4_ranges: routers, cidr4_ranges: blocks }
    }
}

impl UsedValues {
    /// A ledger that records nothing.
    pub fn empty() -> (r: UsedValues)
        ensures
            r.ip_addresses@.len() == 0,
            r.mac_addresses@.len() == 0,
            r.host_ids@.len() == 0,
            r.subnet_ids@.len() == 0,
    {
        UsedValues {
            ip_addresses: Vec::new(),
            mac_addresses: Vec::new(),
            host_ids: Vec::new(),
            subnet_ids: Vec::new(),
        }
    }

    /// A copy of the ledger.
    pub fn duplicate(&self) -> (r: UsedValues)
        ensures
            r.ip_addresses@ == self.ip_addresses@,
            r.mac_addresses@ == self.mac_addresses@,
            r.host_ids@ == self.host_ids@,
            r.subnet_ids@ == self.subnet_ids@,
    {
        let mut ips: Vec<(String, String)> = Vec::new();
        let mut i: usize = 0;
        while i < self.ip_addresses.len()
            invariant
                i <= self.ip_addresses@.len(),
                ips@ =~= self.ip_addresses@.subrange(0, i as int),
            decreases self.ip_addresses@.len() - i,
        {
            ips.push((self.ip_addresses[i].0.clone(), self.ip_addresses[i].1.clone()));
            i = i + 1;
        }
        assert(ips@ =~= self.ip_addresses@);
        let macs = self.mac_addresses.clone();
        let hosts = self.host_ids.clone();
        let subnets = self.subnet_ids.clone();
        assert(macs@ =~= self.mac_addresses@);
        assert(hosts@ =~= self.host_ids@);
        assert(subnets@ =~= self.subnet_ids@);
        UsedValues { ip_addresses: ips, mac_addresses: macs, host_ids: hosts, subnet_ids: subnets }
    }
}

} // verus!

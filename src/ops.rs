//! The operation synthesizer: turns a resolved state into an ordered list of
//! provisioning directives, and renders each directive as a command line.
use vstd::prelude::*;
use vstd::string::*;
use crate::engine::{find_entry, first_entry_for};
use crate::schema::{str_views, ExpandedHost, ExpandedSubnet, IncusLockfile, InstanceType, RoleConfig};
use crate::text::{append_dec, dec};

verus! {

/// One provisioning directive.
#[derive(Debug, Clone)]
pub enum Operation {
    /// Create the bridge network of a subnet.
    NetworkCreate { network: String },
    /// Give a network its gateway address.
    NetworkSetAddress { network: String, address: String },
    /// Turn off automatic address assignment on a network.
    NetworkDisableDhcp { network: String },
    /// Create an instance from an image.
    InstanceCreate { image: String, instance: String, kind: InstanceType },
    /// Limit an instance's cores.
    SetCpuLimit { instance: String, cores: u32 },
    /// Limit an instance's memory.
    SetMemoryLimit { instance: String, limit: String },
    /// Attach the primary network device `eth0`, with the hardware address;
    /// on the default bridge when the instance lists no subnet.
    AddPrimaryNic { instance: String, network: Option<String>, hwaddr: String },
    /// Attach the additional network device `eth<index>`.
    AddNic { instance: String, index: usize, network: String },
    /// Give the network device `eth<index>` its address.
    SetNicAddress { instance: String, index: usize, address: String },
    /// Mark that a role applies to an instance; the role itself is applied
    /// elsewhere.
    RoleDirective { instance: String, role: String, values: Vec<String> },
    /// Start an instance.
    InstanceStart { instance: String },
}

/// A directive, over texts.
pub enum OpView {
    NetworkCreate { network: Seq<char> },
    NetworkSetAddress { network: Seq<char>, address: Seq<char> },
    NetworkDisableDhcp { network: Seq<char> },
    InstanceCreate { image: Seq<char>, instance: Seq<char>, kind: InstanceType },
    SetCpuLimit { instance: Seq<char>, cores: u32 },
    SetMemoryLimit { instance: Seq<char>, limit: Seq<char> },
    AddPrimaryNic { instance: Seq<char>, network: Option<Seq<char>>, hwaddr: Seq<char> },
    AddNic { instance: Seq<char>, index: usize, network: Seq<char> },
    SetNicAddress { instance: Seq<char>, index: usize, address: Seq<char> },
    RoleDirective { instance: Seq<char>, role: Seq<char>, values: Seq<Seq<char>> },
    InstanceStart { instance: Seq<char> },
}

impl View for Operation {
    type V = OpView;

    open spec fn view(&self) -> OpView {
        match self {
            Operation::NetworkCreate { network } => OpView::NetworkCreate { network: network@ },
            Operation::NetworkSetAddress { network, address } => OpView::NetworkSetAddress {
                network: network@,
                address: address@,
            },
            Operation::NetworkDisableDhcp { network } => OpView::NetworkDisableDhcp { network: network@ },
            Operation::InstanceCreate { image, instance, kind } => OpView::InstanceCreate {
                image: image@,
                instance: instance@,
                kind: *kind,
            },
            Operation::SetCpuLimit { instance, cores } => OpView::SetCpuLimit { instance: instance@, cores: *cores },
            Operation::SetMemoryLimit { instance, limit } => OpView::SetMemoryLimit {
                instance: instance@,
                limit: limit@,
            },
            Operation::AddPrimaryNic { instance, network, hwaddr } => OpView::AddPrimaryNic {
                instance: instance@,
                network: match network {
                    Some(n) => Some(n@),
                    None => None,
                },
                hwaddr: hwaddr@,
            },
            Operation::AddNic { instance, index, network } => OpView::AddNic {
                instance: instance@,
                index: *index,
                network: network@,
            },
            Operation::SetNicAddress { instance, index, address } => OpView::SetNicAddress {
                instance: instance@,
                index: *index,
                address: address@,
            },
            Operation::RoleDirective { instance, role, values } => OpView::RoleDirective {
                instance: instance@,
                role: role@,
                values: str_views(values@),
            },
            Operation::InstanceStart { instance } => OpView::InstanceStart { instance: instance@ },
        }
    }
}

/// The directives for one subnet: create its network, give it its gateway,
/// turn off automatic addressing.
pub open spec fn subnet_ops(s: ExpandedSubnet) -> Seq<OpView> {
    seq![
        OpView::NetworkCreate { network: s.name@ },
        OpView::NetworkSetAddress { network: s.name@, address: s.gateway@ },
        OpView::NetworkDisableDhcp { network: s.name@ },
    ]
}

/// The directives for all subnets, in declaration order.
pub open spec fn network_ops(subs: Seq<ExpandedSubnet>) -> Seq<OpView>
    decreases subs.len(),
{
    if subs.len() == 0 {
        seq![]
    } else {
        network_ops(subs.drop_last()) + subnet_ops(subs.last())
    }
}

/// The address a host records for subnet `n`: its first entry for it.
pub open spec fn address_for(h: ExpandedHost, n: Seq<char>) -> Option<Seq<char>> {
    if exists|k: int| first_entry_for(h.ip_addresses@, n, k) {
        Some(h.ip_addresses@[choose|k: int| first_entry_for(h.ip_addresses@, n, k)].1@)
    } else {
        None
    }
}

/// The directives for the `k`-th listed subnet of a host: attach device
/// `eth<k>` (the primary one is already attached for `k == 0`), then give it
/// the host's address in that subnet, if it has one.
pub open spec fn nic_ops(h: ExpandedHost, k: int) -> Seq<OpView> {
    let n = h.subnets@[k]@;
    (if k > 0 {
        seq![OpView::AddNic { instance: h.name@, index: k as usize, network: n }]
    } else {
        seq![]
    }) + match address_for(h, n) {
        Some(a) => seq![OpView::SetNicAddress { instance: h.name@, index: k as usize, address: a }],
        None => seq![],
    }
}

/// The directives for the first `k` listed subnets of a host.
pub open spec fn nics_ops(h: ExpandedHost, k: int) -> Seq<OpView>
    decreases k,
{
    if k <= 0 {
        seq![]
    } else {
        nics_ops(h, k - 1) + nic_ops(h, k - 1)
    }
}

/// The role directives of the first `k` roles of a host.
pub open spec fn roles_ops(h: ExpandedHost, k: int) -> Seq<OpView>
    decreases k,
{
    if k <= 0 {
        seq![]
    } else {
        roles_ops(h, k - 1) + seq![
            OpView::RoleDirective {
                instance: h.name@,
                role: h.roles@[k - 1].name@,
                values: str_views(h.roles@[k - 1].values@),
            },
        ]
    }
}

/// The primary device of a host, with its hardware address.
pub open spec fn primary_nic_ops(h: ExpandedHost) -> Seq<OpView> {
    match h.mac_address {
        Some(m) => seq![
            OpView::AddPrimaryNic {
                instance: h.name@,
                network: if h.subnets@.len() > 0 {
                    Some(h.subnets@[0]@)
                } else {
                    None
                },
                hwaddr: m@,
            },
        ],
        None => seq![],
    }
}

/// The directives for one host: create it, set its limits, attach its primary
/// device with its hardware address, attach and address a device per listed
/// subnet, mark its roles, start it.
pub open spec fn host_ops(h: ExpandedHost) -> Seq<OpView> {
    seq![
        OpView::InstanceCreate { image: h.image@, instance: h.name@, kind: h.instance_type },
        OpView::SetCpuLimit { instance: h.name@, cores: h.resources.cpu.cores },
        OpView::SetMemoryLimit { instance: h.name@, limit: h.resources.memory.limit@ },
    ] + primary_nic_ops(h) + nics_ops(h, h.subnets@.len() as int) + roles_ops(h, h.roles@.len() as int) + seq![
        OpView::InstanceStart { instance: h.name@ },
    ]
}

/// The directives for all hosts, in declaration order.
pub open spec fn hosts_ops(hs: Seq<ExpandedHost>) -> Seq<OpView>
    decreases hs.len(),
{
    if hs.len() == 0 {
        seq![]
    } else {
        hosts_ops(hs.drop_last()) + host_ops(hs.last())
    }
}

impl IncusLockfile {
    /// The directives for a resolved state: every subnet's, then every host's.
    pub open spec fn ops(&self) -> Seq<OpView> {
        network_ops(self.subnets@) + hosts_ops(self.hosts@)
    }
}

/// The views of a list of directives.
pub open spec fn views_of(v: Seq<Operation>) -> Seq<OpView> {
    v.map_values(|o: Operation| o@)
}

proof fn lemma_views_push(v: Seq<Operation>, o: Operation)
    ensures
        views_of(v.push(o)) == views_of(v) + seq![o@],
{
    assert(views_of(v.push(o)) =~= views_of(v) + seq![o@]);
}

fn push_op(r: &mut Vec<Operation>, o: Operation)
    ensures
        views_of(final(r)@) == views_of(old(r)@) + seq![o@],
{
    let ghost before = r@;
    r.push(o);
    proof {
        lemma_views_push(before, o);
    }
}

/// Appends the directives of one host.
fn push_host_ops(r: &mut Vec<Operation>, h: &ExpandedHost)
    ensures
        views_of(final(r)@) == views_of(old(r)@) + host_ops(*h),
{
    let ghost start = views_of(r@);
    push_op(r, Operation::InstanceCreate { image: h.image.clone(), instance: h.name.clone(), kind: h.instance_type });
    push_op(r, Operation::SetCpuLimit { instance: h.name.clone(), cores: h.resources.cpu.cores });
    push_op(r, Operation::SetMemoryLimit { instance: h.name.clone(), limit: h.resources.memory.limit.clone() });
    let ghost head = seq![
        OpView::InstanceCreate { image: h.image@, instance: h.name@, kind: h.instance_type },
        OpView::SetCpuLimit { instance: h.name@, cores: h.resources.cpu.cores },
        OpView::SetMemoryLimit { instance: h.name@, limit: h.resources.memory.limit@ },
    ];
    assert(views_of(r@) =~= start + head);
    match &h.mac_address {
        Some(m) => {
            let network = if h.subnets.len() > 0 {
                Some(h.subnets[0].clone())
            } else {
                None
            };
            push_op(r, Operation::AddPrimaryNic { instance: h.name.clone(), network, hwaddr: m.clone() });
        },
        None => {},
    }
    let ghost mac_part = primary_nic_ops(*h);
    assert(views_of(r@) =~= start + head + mac_part);
    let ghost base = start + head + mac_part;
    let mut k: usize = 0;
    while k < h.subnets.len()
        invariant
            k <= h.subnets@.len(),
            views_of(r@) == base + nics_ops(*h, k as int),
        decreases h.subnets@.len() - k,
    {
        let n = &h.subnets[k];
        let ghost before = views_of(r@);
        if k > 0 {
            push_op(r, Operation::AddNic { instance: h.name.clone(), index: k, network: n.clone() });
        }
        match find_entry(&h.ip_addresses, n) {
            Some(e) => {
                proof {
                    let c = choose|c: int| first_entry_for(h.ip_addresses@, n@, c);
                    if c < e {
                        assert(h.ip_addresses@[c].0@ != n@);
                    }
                    if (e as int) < c {
                        assert(h.ip_addresses@[e as int].0@ != n@);
                    }
                }
                push_op(
                    r,
                    Operation::SetNicAddress { instance: h.name.clone(), index: k, address: h.ip_addresses[e].1.clone() },
                );
            },
            None => {},
        }
        proof {
            assert(views_of(r@) =~= before + nic_ops(*h, k as int));
        }
        k = k + 1;
    }
    let ghost base2 = base + nics_ops(*h, h.subnets@.len() as int);
    let mut k: usize = 0;
    while k < h.roles.len()
        invariant
            k <= h.roles@.len(),
            views_of(r@) == base2 + roles_ops(*h, k as int),
        decreases h.roles@.len() - k,
    {
        let role = &h.roles[k];
        let values = role.values.clone();
        proof {
            assert(values@ =~= role.values@);
        }
        let ghost before = views_of(r@);
        push_op(r, Operation::RoleDirective { instance: h.name.clone(), role: role.name.clone(), values });
        proof {
            assert(views_of(r@) =~= base2 + roles_ops(*h, k + 1));
        }
        k = k + 1;
    }
    push_op(r, Operation::InstanceStart { instance: h.name.clone() });
    assert(views_of(r@) =~= start + host_ops(*h));
}

impl IncusLockfile {
    /// The directives for this state, in the order they must run: every
    /// subnet's network directives before any host's.
    pub fn operations(&self) -> (r: Vec<Operation>)
        ensures
            views_of(r@) == self.ops(),
    {
        let mut r: Vec<Operation> = Vec::new();
        let mut i: usize = 0;
        assert(views_of(r@) =~= network_ops(self.subnets@.subrange(0, 0)));
        while i < self.subnets.len()
            invariant
                i <= self.subnets@.len(),
                views_of(r@) == network_ops(self.subnets@.subrange(0, i as int)),
            decreases self.subnets@.len() - i,
        {
            let s = &self.subnets[i];
            let ghost before = views_of(r@);
            push_op(&mut r, Operation::NetworkCreate { network: s.name.clone() });
            push_op(&mut r, Operation::NetworkSetAddress { network: s.name.clone(), address: s.gateway.clone() });
            push_op(&mut r, Operation::NetworkDisableDhcp { network: s.name.clone() });
            proof {
                assert(self.subnets@.subrange(0, i + 1).drop_last() =~= self.subnets@.subrange(0, i as int));
                assert(views_of(r@) =~= before + subnet_ops(*s));
            }
            i = i + 1;
        }
        assert(self.subnets@.subrange(0, i as int) =~= self.subnets@);
        let ghost nets = views_of(r@);
        let mut i: usize = 0;
        assert(views_of(r@) =~= nets + hosts_ops(self.hosts@.subrange(0, 0)));
        while i < self.hosts.len()
            invariant
                i <= self.hosts@.len(),
                views_of(r@) == nets + hosts_ops(self.hosts@.subrange(0, i as int)),
            decreases self.hosts@.len() - i,
        {
            let ghost before = views_of(r@);
            push_host_ops(&mut r, &self.hosts[i]);
            proof {
                assert(self.hosts@.subrange(0, i + 1).drop_last() =~= self.hosts@.subrange(0, i as int));
                assert(views_of(r@) =~= nets + hosts_ops(self.hosts@.subrange(0, i + 1)));
            }
            i = i + 1;
        }
        assert(self.hosts@.subrange(0, i as int) =~= self.hosts@);
        r
    }
}

/// The values of a role directive, each in double quotes, separated by a
/// comma and a space.
pub open spec fn quoted_join(vs: Seq<Seq<char>>) -> Seq<char>
    decreases vs.len(),
{
    if vs.len() == 0 {
        seq![]
    } else if vs.len() == 1 {
        seq!['"'] + vs[0] + seq!['"']
    } else {
        quoted_join(vs.drop_last()) + seq![',', ' ', '"'] + vs.last() + seq!['"']
    }
}

/// The command line of a directive.
pub open spec fn command_text(o: OpView) -> Seq<char> {
    match o {
        OpView::NetworkCreate { network } => "incus network create "@ + network + " --type=bridge"@,
        OpView::NetworkSetAddress { network, address } => "incus network set "@ + network
            + " ipv4.address="@ + address,
        OpView::NetworkDisableDhcp { network } => "incus network set "@ + network + " ipv4.dhcp=false"@,
        OpView::InstanceCreate { image, instance, kind } => "incus create "@ + image + " "@ + instance
            + " --type="@ + match kind {
            InstanceType::Container => "container"@,
            InstanceType::VirtualMachine => "virtual-machine"@,
        },
        OpView::SetCpuLimit { instance, cores } => "incus config set "@ + instance + " limits.cpu="@
            + dec(cores as nat),
        OpView::SetMemoryLimit { instance, limit } => "incus config set "@ + instance
            + " limits.memory="@ + limit,
        OpView::AddPrimaryNic { instance, network, hwaddr } => "incus config device add "@ + instance
            + " eth0 nic network="@ + match network {
            Some(n) => n,
            None => "bridge"@,
        } + " hwaddr="@ + hwaddr,
        OpView::AddNic { instance, index, network } => "incus config device add "@ + instance
            + " eth"@ + dec(index as nat) + " nic network="@ + network,
        OpView::SetNicAddress { instance, index, address } => "incus config device set "@ + instance
            + " eth"@ + dec(index as nat) + " ipv4.address="@ + address,
        OpView::RoleDirective { instance, role, values } => "# Apply role '"@ + role + "' to "@
            + instance + " with values: ["@ + quoted_join(values) + "]"@,
        OpView::InstanceStart { instance } => "incus start "@ + instance,
    }
}

fn append_quoted_join(s: &mut String, vs: &Vec<String>)
    ensures
        final(s)@ == old(s)@ + quoted_join(str_views(vs@)),
{
    let ghost s0 = s@;
    let mut k: usize = 0;
    while k < vs.len()
        invariant
            k <= vs@.len(),
            s@ == s0 + quoted_join(str_views(vs@.subrange(0, k as int))),
        decreases vs@.len() - k,
    {
        let ghost before = s@;
        let ghost prefix = str_views(vs@.subrange(0, k as int));
        let ghost next = str_views(vs@.subrange(0, k + 1));
        proof {
            reveal_strlit("\"");
            reveal_strlit(", \"");
            assert(next.drop_last() =~= prefix);
            assert(next.last() == vs@[k as int]@);
        }
        if k == 0 {
            s.append("\"");
        } else {
            s.append(", \"");
        }
        s.append(vs[k].as_str());
        s.append("\"");
        proof {
            reveal_strlit("\"");
            reveal_strlit(", \"");
            if k == 0 {
                assert(prefix.len() == 0);
                assert(quoted_join(prefix) == Seq::<char>::empty());
                assert(next.len() == 1);
                assert(next[0] == vs@[0]@);
                assert(quoted_join(next) == seq!['"'] + next[0] + seq!['"']);
                assert(s@ =~= s0 + quoted_join(next));
            } else {
                assert(next.len() > 1);
                assert(quoted_join(next) == quoted_join(prefix) + seq![',', ' ', '"'] + next.last() + seq!['"']);
                assert(s@ =~= s0 + quoted_join(next));
            }
        }
        k = k + 1;
    }
    assert(vs@.subrange(0, k as int) =~= vs@);
}

impl Operation {
    /// The command line of this directive.
    pub fn to_command(&self) -> (r: String)
        ensures
            r@ == command_text(self@),
    {
        proof {
            reveal_strlit("incus network create ");
            reveal_strlit(" --type=bridge");
            reveal_strlit("incus network set ");
            reveal_strlit(" ipv4.address=");
            reveal_strlit(" ipv4.dhcp=false");
            reveal_strlit("incus create ");
            reveal_strlit(" ");
            reveal_strlit(" --type=");
            reveal_strlit("container");
            reveal_strlit("virtual-machine");
            reveal_strlit("incus config set ");
            reveal_strlit(" limits.cpu=");
            reveal_strlit(" limits.memory=");
            reveal_strlit("incus config device add ");
            reveal_strlit(" eth0 nic network=");
            reveal_strlit("bridge");
            reveal_strlit(" hwaddr=");
            reveal_strlit(" eth");
            reveal_strlit(" nic network=");
            reveal_strlit("incus config device set ");
            reveal_strlit("# Apply role '");
            reveal_strlit("' to ");
            reveal_strlit(" with values: [");
            reveal_strlit("]");
            reveal_strlit("incus start ");
        }
        let mut s = String::new();
        match self {
            Operation::NetworkCreate { network } => {
                s.append("incus network create ");
                s.append(network.as_str());
                s.append(" --type=bridge");
            },
            Operation::NetworkSetAddress { network, address } => {
                s.append("incus network set ");
                s.append(network.as_str());
                s.append(" ipv4.address=");
                s.append(address.as_str());
            },
            Operation::NetworkDisableDhcp { network } => {
                s.append("incus network set ");
                s.append(network.as_str());
                s.append(" ipv4.dhcp=false");
            },
            Operation::InstanceCreate { image, instance, kind } => {
                s.append("incus create ");
                s.append(image.as_str());
                s.append(" ");
                s.append(instance.as_str());
                s.append(" --type=");
                match kind {
                    InstanceType::Container => s.append("container"),
                    InstanceType::VirtualMachine => s.append("virtual-machine"),
                }
            },
            Operation::SetCpuLimit { instance, cores } => {
                s.append("incus config set ");
                s.append(instance.as_str());
                s.append(" limits.cpu=");
                append_dec(&mut s, *cores as u64);
            },
            Operation::SetMemoryLimit { instance, limit } => {
                s.append("incus config set ");
                s.append(instance.as_str());
                s.append(" limits.memory=");
                s.append(limit.as_str());
            },
            Operation::AddPrimaryNic { instance, network, hwaddr } => {
                s.append("incus config device add ");
                s.append(instance.as_str());
                s.append(" eth0 nic network=");
                match network {
                    Some(n) => s.append(n.as_str()),
                    None => s.append("bridge"),
                }
                s.append(" hwaddr=");
                s.append(hwaddr.as_str());
            },
            Operation::AddNic { instance, index, network } => {
                s.append("incus config device add ");
                s.append(instance.as_str());
                s.append(" eth");
                append_dec(&mut s, *index as u64);
                s.append(" nic network=");
                s.append(network.as_str());
            },
            Operation::SetNicAddress { instance, index, address } => {
                s.append("incus config device set ");
                s.append(instance.as_str());
                s.append(" eth");
                append_dec(&mut s, *index as u64);
                s.append(" ipv4.address=");
                s.append(address.as_str());
            },
            Operation::RoleDirective { instance, role, values } => {
                s.append("# Apply role '");
                s.append(role.as_str());
                s.append("' to ");
                s.append(instance.as_str());
                s.append(" with values: [");
                append_quoted_join(&mut s, values);
                s.append("]");
            },
            Operation::InstanceStart { instance } => {
                s.append("incus start ");
                s.append(instance.as_str());
            },
        }
        assert(s@ =~= command_text(self@));
        s
    }
}

impl IncusLockfile {
    /// The command lines of this state's directives, in order.
    pub fn generate_incus_commands(&self) -> (r: Vec<String>)
        ensures
            r@.len() == self.ops().len(),
            forall|i: int| 0 <= i < r@.len() ==> (#[trigger] r@[i])@ == command_text(self.ops()[i]),
    {
        let ops = self.operations();
        let mut r: Vec<String> = Vec::new();
        let mut i: usize = 0;
        while i < ops.len()
            invariant
                i <= ops@.len(),
                views_of(ops@) == self.ops(),
                r@.len() == i,
                forall|j: int| 0 <= j < i ==> (#[trigger] r@[j])@ == command_text(self.ops()[j]),
            decreases ops@.len() - i,
        {
            r.push(ops[i].to_command());
            i = i + 1;
        }
        r
    }
}

/// Lines that open the section of a script.
pub open spec fn banner(title: Seq<char>) -> Seq<Seq<char>> {
    seq![
        "# ============================================"@,
        "# "@ + title,
        "# ============================================"@,
        ""@,
    ]
}

/// The opening lines of a dry-run script for state `l`.
pub open spec fn script_head(l: IncusLockfile, verbose: bool) -> Seq<Seq<char>> {
    seq![
        "#!/bin/bash"@,
        "# Generated by incus-composer"@,
        "# Generated at: "@ + l.metadata.generated_at@,
        "# Generator version: "@ + l.metadata.generator_version@,
        "# Source hash: "@ + l.metadata.source_hash@,
        ""@,
        "set -e  # Exit on any error"@,
        ""@,
    ] + (if verbose {
        seq!["echo 'Starting incus-composer deployment...'"@, ""@]
    } else {
        seq![]
    }) + banner("Network Creation"@)
}

/// The script lines of directive `o`: the instance section opens before the
/// first instance creation; a role directive is a comment line; any other
/// directive is its command, announced first in verbose mode.
pub open spec fn op_lines(o: OpView, opens_section: bool, verbose: bool) -> Seq<Seq<char>> {
    (if opens_section {
        seq![""@] + banner("Instance Creation and Configuration"@)
    } else {
        seq![]
    }) + if o is RoleDirective {
        seq![command_text(o)]
    } else {
        (if verbose {
            seq!["echo 'Executing: "@ + command_text(o) + "'"@]
        } else {
            seq![]
        }) + seq![command_text(o)]
    }
}

/// Whether one of the first `k` directives creates an instance.
pub open spec fn instance_seen(ops: Seq<OpView>, k: int) -> bool {
    exists|j: int| 0 <= j < k && (#[trigger] ops[j]) is InstanceCreate
}

/// The script lines of the first `k` directives.
pub open spec fn body_lines(ops: Seq<OpView>, k: int, verbose: bool) -> Seq<Seq<char>>
    decreases k,
{
    if k <= 0 {
        seq![]
    } else {
        body_lines(ops, k - 1, verbose) + op_lines(
            ops[k - 1],
            ops[k - 1] is InstanceCreate && !instance_seen(ops, k - 1),
            verbose,
        )
    }
}

/// The whole dry-run script for state `l`, one line per entry.
pub open spec fn script_lines(l: IncusLockfile, verbose: bool) -> Seq<Seq<char>> {
    script_head(l, verbose) + body_lines(l.ops(), l.ops().len() as int, verbose) + seq![""@]
        + if verbose {
        seq!["echo 'Deployment completed successfully!'"@]
    } else {
        seq![]
    }
}

fn text_line(t: &str) -> (r: String)
    ensures
        r@ == t@,
{
    String::from_str(t)
}

fn concat_line(a: &str, b: &str) -> (r: String)
    ensures
        r@ == a@ + b@,
{
    let mut s = String::from_str(a);
    s.append(b);
    s
}

fn push_line(v: &mut Vec<String>, line: String)
    ensures
        str_views(final(v)@) == str_views(old(v)@).push(line@),
{
    let ghost before = v@;
    v.push(line);
    assert(str_views(v@) =~= str_views(before).push(line@));
}

fn push_banner(v: &mut Vec<String>, title: &str)
    ensures
        str_views(final(v)@) == str_views(old(v)@) + banner(title@),
{
    let ghost before = str_views(v@);
    proof {
        reveal_strlit("# ============================================");
        reveal_strlit("# ");
        reveal_strlit("");
    }
    push_line(v, text_line("# ============================================"));
    push_line(v, concat_line("# ", title));
    push_line(v, text_line("# ============================================"));
    push_line(v, text_line(""));
    assert(str_views(v@) =~= before + banner(title@));
}

impl IncusLockfile {
    /// The dry-run script for this state, one line per entry: a header naming
    /// the state's generation metadata, the network section, the instance
    /// section, and each directive's command line.
    pub fn dry_run_script(&self, verbose: bool) -> (r: Vec<String>)
        ensures
            str_views(r@) == script_lines(*self, verbose),
    {
        proof {
            reveal_strlit("#!/bin/bash");
            reveal_strlit("# Generated by incus-composer");
            reveal_strlit("# Generated at: ");
            reveal_strlit("# Generator version: ");
            reveal_strlit("# Source hash: ");
            reveal_strlit("");
            reveal_strlit("set -e  # Exit on any error");
            reveal_strlit("echo 'Starting incus-composer deployment...'");
            reveal_strlit("Network Creation");
        }
        let mut v: Vec<String> = Vec::new();
        push_line(&mut v, text_line("#!/bin/bash"));
        push_line(&mut v, text_line("# Generated by incus-composer"));
        push_line(&mut v, concat_line("# Generated at: ", self.metadata.generated_at.as_str()));
        push_line(&mut v, concat_line("# Generator version: ", self.metadata.generator_version.as_str()));
        push_line(&mut v, concat_line("# Source hash: ", self.metadata.source_hash.as_str()));
        push_line(&mut v, text_line(""));
        push_line(&mut v, text_line("set -e  # Exit on any error"));
        push_line(&mut v, text_line(""));
        if verbose {
            push_line(&mut v, text_line("echo 'Starting incus-composer deployment...'"));
            push_line(&mut v, text_line(""));
        }
        push_banner(&mut v, "Network Creation");
        assert(str_views(v@) =~= script_head(*self, verbose));
        let ghost head = str_views(v@);
        let ops = self.operations();
        let ghost opv = self.ops();
        let mut seen = false;
        let mut k: usize = 0;
        while k < ops.len()
            invariant
                views_of(ops@) == opv,
                opv == self.ops(),
                k <= ops@.len(),
                seen == instance_seen(opv, k as int),
                str_views(v@) == head + body_lines(opv, k as int, verbose),
            decreases ops@.len() - k,
        {
            proof {
                reveal_strlit("");
                reveal_strlit("Instance Creation and Configuration");
                reveal_strlit("echo 'Executing: ");
                reveal_strlit("'");
            }
            let ghost before = str_views(v@);
            let o = &ops[k];
            assert(opv[k as int] == o@);
            let is_create = match o {
                Operation::InstanceCreate { .. } => true,
                _ => false,
            };
            if is_create && !seen {
                push_line(&mut v, text_line(""));
                push_banner(&mut v, "Instance Creation and Configuration");
            }
            let cmd = o.to_command();
            match o {
                Operation::RoleDirective { .. } => {
                    push_line(&mut v, cmd);
                },
                _ => {
                    if verbose {
                        let mut echo = String::from_str("echo 'Executing: ");
                        echo.append(cmd.as_str());
                        echo.append("'");
                        push_line(&mut v, echo);
                    }
                    push_line(&mut v, cmd);
                },
            }
            proof {
                assert(str_views(v@) =~= before + op_lines(opv[k as int], is_create && !seen, verbose));
                if is_create {
                    assert(opv[k as int] is InstanceCreate);
                }
                assert(instance_seen(opv, k + 1) == (seen || is_create));
            }
            if is_create {
                seen = true;
            }
            k = k + 1;
        }
        proof {
            reveal_strlit("");
            reveal_strlit("echo 'Deployment completed successfully!'");
        }
        push_line(&mut v, text_line(""));
        if verbose {
            push_line(&mut v, text_line("echo 'Deployment completed successfully!'"));
        }
        assert(str_views(v@) =~= script_lines(*self, verbose));
        v
    }
}

} // verus!

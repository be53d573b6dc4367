use incus_composer::allocator::{mac_string, ordinal_string};
use incus_composer::clock::format_timestamp;
use incus_composer::engine::ComposeError;
use incus_composer::net::{ipv4_to_string, parse_cidr, Cidr};
use incus_composer::ops::Operation;
use incus_composer::schema::{
    CidrRange, CpuSpec, Defaults, Flavor, Host, IncusCompose, IncusLockfile, InstanceType,
    MemorySpec, Role, RoleConfig, Subnet, SubnetConfig,
};

fn host(name: &str, subnets: &[&str]) -> Host {
    Host {
        name: name.to_string(),
        flavor: "small".to_string(),
        image: "img".to_string(),
        floating_ip: false,
        master: false,
        is_router: false,
        roles: vec![],
        subnets: subnets.iter().map(|s| s.to_string()).collect(),
        subnet: None,
        subnet_list: None,
    }
}

fn explicit(name: &str, cidr: &str) -> Subnet {
    Subnet::Full(SubnetConfig { name: name.to_string(), cidr: Some(cidr.to_string()) })
}

fn auto(name: &str) -> Subnet {
    Subnet::Name(name.to_string())
}

fn doc(hosts: Vec<Host>, subnets: Vec<Subnet>) -> IncusCompose {
    IncusCompose {
        version: "1.0".to_string(),
        defaults: Defaults::default(),
        hosts,
        subnets,
        flavors: vec![],
        images: vec![],
    }
}

fn with_range(mut d: IncusCompose, start: &str, end: &str) -> IncusCompose {
    d.defaults.cidr4_ranges = vec![CidrRange { start: start.to_string(), end: end.to_string() }];
    d
}

fn ip_of<'a>(l: &'a IncusLockfile, host: &str, subnet: &str) -> &'a str {
    let h = l.hosts.iter().find(|h| h.name == host).unwrap();
    &h.ip_addresses.iter().find(|(n, _)| n == subnet).unwrap().1
}

fn position(commands: &[String], prefix: &str) -> usize {
    commands.iter().position(|c| c.starts_with(prefix)).unwrap()
}

#[test]
fn auto_range_subnet_scenario() {
    let d = with_range(
        doc(vec![host("web", &["frontend"])], vec![auto("frontend")]),
        "10.0.1.0/24",
        "10.0.255.0/24",
    );
    let l = d.generate_lockfile().unwrap();
    assert_eq!(l.subnets[0].cidr, "10.0.1.0/24");
    assert_eq!(l.subnets[0].gateway, "10.0.1.1");
    assert_eq!(ip_of(&l, "web", "frontend"), "10.0.1.10");
    let commands = l.generate_incus_commands();
    let net = position(&commands, "incus network create frontend");
    let inst = position(&commands, "incus create img web");
    assert!(net < inst);
}

#[test]
fn removed_host_values_are_not_reissued() {
    let first = doc(vec![host("web", &["frontend"])], vec![explicit("frontend", "10.0.1.0/24")]);
    let l1 = first.generate_lockfile().unwrap();
    let second = doc(vec![host("app", &["frontend"])], vec![explicit("frontend", "10.0.1.0/24")]);
    let l2 = second.reconcile(Some(&l1), "t".to_string()).unwrap();
    let web = &l1.hosts[0];
    let app = &l2.hosts[0];
    assert_ne!(app.id, web.id);
    assert_ne!(app.mac_address, web.mac_address);
    assert_ne!(ip_of(&l2, "app", "frontend"), ip_of(&l1, "web", "frontend"));
    assert!(l2.metadata.used_values.host_ids.contains(&web.id));
    assert!(l2.metadata.used_values.mac_addresses.contains(web.mac_address.as_ref().unwrap()));
}

fn sample() -> IncusCompose {
    let mut router = host("gw", &["frontend", "backend"]);
    router.is_router = true;
    with_range(
        doc(
            vec![router, host("web", &["frontend"]), host("db", &["backend", "frontend"])],
            vec![explicit("frontend", "10.0.1.0/24"), auto("backend")],
        ),
        "10.0.2.0/24",
        "10.0.9.0/24",
    )
}

#[test]
fn two_first_runs_agree_but_for_the_timestamp() {
    let a = sample().reconcile(None, "one".to_string()).unwrap();
    let b = sample().reconcile(None, "two".to_string()).unwrap();
    assert_eq!(format!("{:?}", a.hosts), format!("{:?}", b.hosts));
    assert_eq!(format!("{:?}", a.subnets), format!("{:?}", b.subnets));
    assert_eq!(
        format!("{:?}", a.metadata.used_values),
        format!("{:?}", b.metadata.used_values)
    );
    assert_eq!(a.metadata.source_hash, b.metadata.source_hash);
    assert_ne!(a.metadata.generated_at, b.metadata.generated_at);
}

#[test]
fn resolved_values_are_unique() {
    let l = sample().generate_lockfile().unwrap();
    let ids: Vec<&String> = l.hosts.iter().map(|h| &h.id).collect();
    assert_eq!(ids, vec!["host_001", "host_002", "host_003"]);
    let macs: Vec<&str> = l.hosts.iter().map(|h| h.mac_address.as_deref().unwrap()).collect();
    assert_eq!(macs, vec!["02:00:00:00:00:01", "02:00:00:00:00:02", "02:00:00:00:00:03"]);
    assert_eq!(l.subnets[0].id, "subnet_001");
    assert_eq!(l.subnets[1].id, "subnet_002");
    assert_eq!(l.subnets[1].cidr, "10.0.2.0/24");
    assert_eq!(ip_of(&l, "gw", "frontend"), "10.0.1.2");
    assert_eq!(ip_of(&l, "gw", "backend"), "10.0.2.2");
    assert_eq!(ip_of(&l, "web", "frontend"), "10.0.1.10");
    assert_eq!(ip_of(&l, "db", "frontend"), "10.0.1.11");
    assert_eq!(ip_of(&l, "db", "backend"), "10.0.2.10");
}

#[test]
fn unchanged_document_keeps_every_value() {
    let prior = sample().generate_lockfile().unwrap();
    let again = sample().reconcile(Some(&prior), "later".to_string()).unwrap();
    assert_eq!(format!("{:?}", again.hosts), format!("{:?}", prior.hosts));
    assert_eq!(format!("{:?}", again.subnets), format!("{:?}", prior.subnets));
    assert_eq!(
        format!("{:?}", again.metadata.used_values),
        format!("{:?}", prior.metadata.used_values)
    );
}

#[test]
fn changing_one_block_changes_only_that_subnet() {
    let before = doc(
        vec![host("a", &["one", "two"]), host("b", &["two"])],
        vec![explicit("one", "10.1.0.0/24"), explicit("two", "10.2.0.0/24")],
    );
    let prior = before.generate_lockfile().unwrap();
    let after = doc(
        vec![host("a", &["one", "two"]), host("b", &["two"])],
        vec![explicit("one", "10.9.0.0/24"), explicit("two", "10.2.0.0/24")],
    );
    let l = after.reconcile(Some(&prior), "t".to_string()).unwrap();
    assert_ne!(l.subnets[0].id, prior.subnets[0].id);
    assert_eq!(l.subnets[0].id, "subnet_003");
    assert_eq!(l.subnets[0].gateway, "10.9.0.1");
    assert_eq!(l.subnets[1].id, prior.subnets[1].id);
    assert_eq!(l.subnets[1].gateway, prior.subnets[1].gateway);
    for i in 0..2 {
        assert_eq!(l.hosts[i].id, prior.hosts[i].id);
        assert_eq!(l.hosts[i].mac_address, prior.hosts[i].mac_address);
    }
    assert_eq!(ip_of(&l, "a", "two"), ip_of(&prior, "a", "two"));
    assert_eq!(ip_of(&l, "b", "two"), ip_of(&prior, "b", "two"));
    assert_eq!(ip_of(&l, "a", "one"), "10.9.0.10");
}

#[test]
fn networks_come_before_instances() {
    let l = sample().generate_lockfile().unwrap();
    let commands = l.generate_incus_commands();
    let last_net = commands.iter().rposition(|c| c.starts_with("incus network create")).unwrap();
    let first_inst = position(&commands, "incus create ");
    assert!(last_net < first_inst);
    assert_eq!(commands.len(), l.operations().len());
}

#[test]
fn command_lines_of_one_host() {
    let mut h = host("web", &["frontend", "backend"]);
    h.roles = vec![
        Role::Name("base".to_string()),
        Role::Full(RoleConfig { name: "mon".to_string(), values: vec!["a".to_string(), "b".to_string()] }),
    ];
    let d = doc(
        vec![h],
        vec![explicit("frontend", "10.0.1.0/24"), explicit("backend", "10.0.2.0/24")],
    );
    let l = d.generate_lockfile().unwrap();
    let commands = l.generate_incus_commands();
    assert_eq!(
        commands,
        vec![
            "incus network create frontend --type=bridge",
            "incus network set frontend ipv4.address=10.0.1.1",
            "incus network set frontend ipv4.dhcp=false",
            "incus network create backend --type=bridge",
            "incus network set backend ipv4.address=10.0.2.1",
            "incus network set backend ipv4.dhcp=false",
            "incus create img web --type=container",
            "incus config set web limits.cpu=2",
            "incus config set web limits.memory=2GB",
            "incus config device add web eth0 nic network=frontend hwaddr=02:00:00:00:00:01",
            "incus config device set web eth0 ipv4.address=10.0.1.10",
            "incus config device add web eth1 nic network=backend",
            "incus config device set web eth1 ipv4.address=10.0.2.10",
            "# Apply role 'base' to web with values: []",
            "# Apply role 'mon' to web with values: [\"a\", \"b\"]",
            "incus start web",
        ]
    );
}

#[test]
fn flavor_sets_kind_and_limits() {
    let mut d = doc(vec![host("vm", &[])], vec![]);
    d.flavors = vec![(
        "small".to_string(),
        Flavor {
            name: "small".to_string(),
            description: None,
            cpu: CpuSpec { cores: 4, limit: None, allowance: None, priority: None },
            memory: MemorySpec { limit: "8GB".to_string(), swap: None, swap_priority: None },
            storage: None,
            instance_type: InstanceType::VirtualMachine,
        },
    )];
    let l = d.generate_lockfile().unwrap();
    assert_eq!(l.hosts[0].instance_type, InstanceType::VirtualMachine);
    assert_eq!(l.hosts[0].resources.cpu.cores, 4);
    assert_eq!(l.hosts[0].resources.memory.limit, "8GB");
    let commands = l.generate_incus_commands();
    assert_eq!(commands[0], "incus create img vm --type=virtual-machine");
    assert_eq!(commands[3], "incus config device add vm eth0 nic network=bridge hwaddr=02:00:00:00:00:01");
}

#[test]
fn malformed_block_is_a_parse_error() {
    let d = doc(vec![], vec![explicit("frontend", "10.0.1/24")]);
    assert!(matches!(d.generate_lockfile(), Err(ComposeError::ParseError(_))));
    let d = doc(vec![], vec![explicit("frontend", "10.0.1.0/33")]);
    assert!(matches!(d.generate_lockfile(), Err(ComposeError::ParseError(_))));
}

#[test]
fn duplicate_names_are_parse_errors() {
    let d = doc(vec![], vec![auto("a"), auto("a")]);
    assert!(matches!(d.generate_lockfile(), Err(ComposeError::ParseError(_))));
    let d = doc(vec![host("h", &[]), host("h", &[])], vec![]);
    assert!(matches!(d.generate_lockfile(), Err(ComposeError::ParseError(_))));
    let d = doc(vec![host("h", &["a", "a"])], vec![auto("a")]);
    assert!(matches!(d.generate_lockfile(), Err(ComposeError::ParseError(_))));
}

#[test]
fn unknown_references_are_reference_errors() {
    let d = doc(vec![host("h", &["nowhere"])], vec![auto("a")]);
    assert!(matches!(d.generate_lockfile(), Err(ComposeError::ReferenceError(_))));
    let mut d = doc(vec![host("h", &[])], vec![]);
    d.images = vec![(
        "other".to_string(),
        incus_composer::schema::Image {
            name: "other".to_string(),
            description: None,
            source: "images:".to_string(),
            fingerprint: None,
            architecture: "x86_64".to_string(),
            os: None,
        },
    )];
    assert!(matches!(d.generate_lockfile(), Err(ComposeError::ReferenceError(_))));
}

#[test]
fn small_blocks_run_out_of_addresses() {
    let d = doc(vec![host("h", &["tiny"])], vec![explicit("tiny", "10.0.0.0/29")]);
    assert!(matches!(d.generate_lockfile(), Err(ComposeError::AllocationExhausted(_))));
    let mut r = host("r", &["tiny"]);
    r.is_router = true;
    let d = doc(vec![r], vec![explicit("tiny", "10.0.0.0/29")]);
    let l = d.generate_lockfile().unwrap();
    assert_eq!(ip_of(&l, "r", "tiny"), "10.0.0.2");
    let d = doc(vec![], vec![explicit("p2p", "10.0.0.0/31")]);
    assert!(matches!(d.generate_lockfile(), Err(ComposeError::AllocationExhausted(_))));
}

#[test]
fn full_range_is_exhausted() {
    let d = with_range(doc(vec![], vec![auto("a"), auto("b")]), "10.0.1.0/24", "10.0.1.0/24");
    assert!(matches!(d.generate_lockfile(), Err(ComposeError::AllocationExhausted(_))));
}

#[test]
fn automatic_blocks_avoid_explicit_ones() {
    let d = with_range(
        doc(vec![], vec![auto("a"), explicit("b", "10.0.0.0/23")]),
        "10.0.0.0/24",
        "10.0.5.0/24",
    );
    let l = d.generate_lockfile().unwrap();
    assert_eq!(l.subnets[0].cidr, "10.0.2.0/24");
    let d = doc(vec![], vec![auto("a")]);
    let l = d.generate_lockfile().unwrap();
    assert_eq!(l.subnets[0].cidr, "192.168.10.0/24");
    assert_eq!(l.subnets[0].gateway, "192.168.10.1");
}

#[test]
fn wide_prefix_arithmetic() {
    let d = doc(vec![host("h", &["big"])], vec![explicit("big", "172.16.5.7/16")]);
    let l = d.generate_lockfile().unwrap();
    assert_eq!(l.subnets[0].gateway, "172.16.0.1");
    assert_eq!(ip_of(&l, "h", "big"), "172.16.0.10");
}

#[test]
fn block_text_round_trip() {
    let c = parse_cidr("192.168.100.0/24").unwrap();
    assert_eq!(c, Cidr { addr: 0xc0a8_6400, prefix: 24 });
    assert_eq!(c.to_text(), "192.168.100.0/24");
    assert_eq!(c.gateway(), 0xc0a8_6401);
    assert_eq!(c.broadcast(), 0xc0a8_64ff);
    assert!(parse_cidr("01.0.0.0/8").is_none());
    assert!(parse_cidr("256.0.0.0/8").is_none());
    assert!(parse_cidr("1.2.3.4").is_none());
    assert!(parse_cidr("1.2.3.4/24x").is_none());
    assert_eq!(ipv4_to_string(0x0a00_010a), "10.0.1.10");
}

#[test]
fn identifier_and_address_text() {
    assert_eq!(ordinal_string("host_", 1), "host_001");
    assert_eq!(ordinal_string("subnet_", 42), "subnet_042");
    assert_eq!(ordinal_string("host_", 1234), "host_1234");
    assert_eq!(mac_string(1), "02:00:00:00:00:01");
    assert_eq!(mac_string(0x1_0203_04ff), "02:01:02:03:04:ff");
}

#[test]
fn timestamps() {
    assert_eq!(format_timestamp(0), "1970-01-01T00:00:00Z");
    assert_eq!(format_timestamp(951_782_400), "2000-02-29T00:00:00Z");
    assert_eq!(format_timestamp(1_735_689_598), "2024-12-31T23:59:58Z");
    let now = incus_composer::clock::simple_timestamp();
    assert_eq!(now.len(), 20);
    assert!(now.ends_with('Z'));
}

#[test]
fn content_digest() {
    let d = doc(vec![host("web", &["frontend"])], vec![explicit("frontend", "10.0.1.0/24")]);
    assert_eq!(d.calculate_hash(), "fnv1a64:3e525e0824426c5f");
    assert_eq!(doc(vec![], vec![]).calculate_hash(), "fnv1a64:41e836f1165af057");
    let l = d.generate_lockfile().unwrap();
    assert_eq!(l.metadata.source_hash, "fnv1a64:3e525e0824426c5f");
    assert_eq!(l.metadata.generator_version, "0.1.0");
}

#[test]
fn dry_run_script_sections() {
    let d = doc(vec![host("web", &["frontend"])], vec![explicit("frontend", "10.0.1.0/24")]);
    let l = d.reconcile(None, "2024-01-01T00:00:00Z".to_string()).unwrap();
    let lines = l.dry_run_script(false);
    assert_eq!(lines[0], "#!/bin/bash");
    assert_eq!(lines[2], "# Generated at: 2024-01-01T00:00:00Z");
    let net = lines.iter().position(|x| x == "# Network Creation").unwrap();
    let inst = lines.iter().position(|x| x == "# Instance Creation and Configuration").unwrap();
    let create = lines.iter().position(|x| x.starts_with("incus create")).unwrap();
    assert!(net < inst && inst < create);
    let verbose = l.dry_run_script(true);
    assert!(verbose.contains(&"echo 'Executing: incus start web'".to_string()));
    assert_eq!(verbose.last().unwrap(), "echo 'Deployment completed successfully!'");
}

#[test]
fn operation_rendering() {
    let op = Operation::SetNicAddress {
        instance: "h".to_string(),
        index: 12,
        address: "10.0.0.2".to_string(),
    };
    assert_eq!(op.to_command(), "incus config device set h eth12 ipv4.address=10.0.0.2");
}

#[test]
fn normalize_keeps_an_existing_list() {
    let mut h = host("h", &["a"]);
    h.subnet = Some("b".to_string());
    h.subnet_list = Some(vec!["c".to_string()]);
    h.normalize();
    assert_eq!(h.subnets, vec!["a"]);
    assert!(h.subnet.is_none() && h.subnet_list.is_none());
    let mut h = host("h", &[]);
    h.subnet = Some("b".to_string());
    h.subnet_list = Some(vec!["c".to_string(), "d".to_string()]);
    h.normalize();
    assert_eq!(h.subnets, vec!["b", "c", "d"]);
}

#[test]
fn role_full_form() {
    let r = Role::Name("web".to_string()).to_full_config();
    assert_eq!(r.name, "web");
    assert!(r.values.is_empty());
    let s = Subnet::Name("x".to_string()).to_full_config();
    assert_eq!(s.name, "x");
    assert!(s.cidr.is_none());
}

#[test]
fn mac_counter_continues_past_the_ledger() {
    let empty = doc(vec![], vec![]);
    let mut prior = empty.generate_lockfile().unwrap();
    prior.metadata.used_values.mac_addresses = vec!["02:00:00:00:00:02".to_string()];
    let d = doc(vec![host("h", &[])], vec![]);
    let l = d.reconcile(Some(&prior), "t".to_string()).unwrap();
    assert_eq!(l.hosts[0].mac_address.as_deref(), Some("02:00:00:00:00:03"));
    assert_eq!(
        l.metadata.used_values.mac_addresses,
        vec!["02:00:00:00:00:02", "02:00:00:00:00:03"]
    );
}

#[test]
fn ledger_keeps_old_values_first_then_new_ones_in_order() {
    let first = doc(vec![host("web", &["frontend"])], vec![explicit("frontend", "10.0.1.0/24")]);
    let l1 = first.generate_lockfile().unwrap();
    let second = doc(
        vec![host("app", &["frontend"]), host("web", &["frontend"])],
        vec![explicit("frontend", "10.0.1.0/24")],
    );
    let l2 = second.reconcile(Some(&l1), "t".to_string()).unwrap();
    assert_eq!(l2.metadata.used_values.host_ids, vec!["host_001", "host_002"]);
    assert_eq!(
        l2.metadata.used_values.mac_addresses,
        vec!["02:00:00:00:00:01", "02:00:00:00:00:02"]
    );
    assert_eq!(
        l2.metadata.used_values.ip_addresses,
        vec![
            ("frontend".to_string(), "10.0.1.10".to_string()),
            ("frontend".to_string(), "10.0.1.11".to_string()),
        ]
    );
    assert_eq!(l2.metadata.used_values.subnet_ids, vec!["subnet_001"]);
}

#[test]
fn errors_name_what_they_are_about() {
    let d = doc(vec![host("web", &["nowhere"])], vec![auto("a")]);
    match d.generate_lockfile() {
        Err(ComposeError::ReferenceError(t)) => assert_eq!(t, "web: subnet nowhere"),
        other => panic!("unexpected {:?}", other.map(|_| ())),
    }
    let d = doc(vec![host("h", &["tiny"])], vec![explicit("tiny", "10.0.0.0/29")]);
    match d.generate_lockfile() {
        Err(ComposeError::AllocationExhausted(t)) => assert_eq!(t, "tiny"),
        other => panic!("unexpected {:?}", other.map(|_| ())),
    }
}

#[test]
fn duplicate_table_keys_are_parse_errors() {
    let mut d = doc(vec![host("h", &[])], vec![]);
    let flavor = Flavor {
        name: "small".to_string(),
        description: None,
        cpu: CpuSpec { cores: 1, limit: None, allowance: None, priority: None },
        memory: MemorySpec { limit: "1GB".to_string(), swap: None, swap_priority: None },
        storage: None,
        instance_type: InstanceType::Container,
    };
    d.flavors = vec![("small".to_string(), flavor.clone()), ("small".to_string(), flavor)];
    assert!(matches!(d.generate_lockfile(), Err(ComposeError::ParseError(_))));
}

use incus_composer::schema::{
    default_version, Defaults, Host, IncusCompose, Role, RoleConfig, Subnet, SubnetConfig,
};

fn host(name: &str, flavor: &str, image: &str) -> Host {
    Host {
        name: name.to_string(),
        flavor: flavor.to_string(),
        image: image.to_string(),
        floating_ip: false,
        master: false,
        is_router: false,
        roles: vec![],
        subnets: vec![],
        subnet: None,
        subnet_list: None,
    }
}

fn compose(hosts: Vec<Host>, subnets: Vec<Subnet>) -> IncusCompose {
    IncusCompose {
        version: default_version(),
        defaults: Defaults::default(),
        hosts,
        subnets,
        flavors: vec![],
        images: vec![],
    }
}

#[test]
fn test_deserialize_hospital_example() {
    let mut web = host("web_server", "small_flavor", "base_image");
    web.roles = vec![
        Role::Name("web".to_string()),
        Role::Full(RoleConfig {
            name: "monitoring".to_string(),
            values: vec!["prometheus".to_string()],
        }),
    ];
    web.subnet = Some("frontend".to_string());
    let mut compose = compose(
        vec![web],
        vec![
            Subnet::Full(SubnetConfig {
                name: "frontend".to_string(),
                cidr: Some("10.0.1.0/24".to_string()),
            }),
            Subnet::Name("backend".to_string()),
        ],
    );

    for host in &mut compose.hosts {
        host.normalize();
    }

    assert_eq!(compose.version, "1.0");
    assert_eq!(compose.hosts.len(), 1);
    assert_eq!(compose.subnets.len(), 2);

    let host = &compose.hosts[0];
    assert_eq!(host.name, "web_server");
    assert_eq!(host.roles.len(), 2);
    assert_eq!(host.roles[0].name(), "web");
    assert_eq!(host.roles[0].values(), &[] as &[String]);
    assert_eq!(host.roles[1].name(), "monitoring");
    assert_eq!(host.roles[1].values(), &["prometheus".to_string()]);
    assert_eq!(host.subnets, vec!["frontend"]);

    assert_eq!(compose.subnets[0].name(), "frontend");
    assert_eq!(compose.subnets[0].cidr(), Some("10.0.1.0/24"));
    assert_eq!(compose.subnets[1].name(), "backend");
    assert_eq!(compose.subnets[1].cidr(), None);
}

#[test]
fn test_router_with_multiple_subnets() {
    let mut router = host("core_router", "medium_flavor", "router_image");
    router.is_router = true;
    router.roles = vec![Role::Name("router".to_string())];
    router.subnet_list = Some(vec![
        "frontend".to_string(),
        "backend".to_string(),
        "dmz".to_string(),
    ]);
    let mut compose = compose(
        vec![router],
        vec![
            Subnet::Name("frontend".to_string()),
            Subnet::Name("backend".to_string()),
            Subnet::Name("dmz".to_string()),
        ],
    );

    for host in &mut compose.hosts {
        host.normalize();
    }

    let host = &compose.hosts[0];
    assert!(host.is_router);
    assert_eq!(host.subnets.len(), 3);
    assert_eq!(host.subnets, vec!["frontend", "backend", "dmz"]);

    assert_eq!(compose.subnets[0].name(), "frontend");
    assert_eq!(compose.subnets[1].name(), "backend");
    assert_eq!(compose.subnets[2].name(), "dmz");
    for subnet in &compose.subnets {
        assert_eq!(subnet.cidr(), None);
    }
}

#[test]
fn test_lockfile_generation() {
    let mut h = host("test_host", "small_flavor", "base_image");
    h.subnets = vec!["test_subnet".to_string()];
    let compose = compose(
        vec![h],
        vec![Subnet::Full(SubnetConfig {
            name: "test_subnet".to_string(),
            cidr: Some("192.168.100.0/24".to_string()),
        })],
    );
    let lockfile = compose.generate_lockfile().unwrap();

    assert_eq!(lockfile.hosts.len(), 1);
    assert_eq!(lockfile.subnets.len(), 1);

    let host = &lockfile.hosts[0];
    assert_eq!(host.name, "test_host");
    assert_eq!(host.id, "host_001");
    assert!(host.mac_address.is_some());
    assert_eq!(host.ip_addresses.len(), 1);

    let subnet = &lockfile.subnets[0];
    assert_eq!(subnet.name, "test_subnet");
    assert_eq!(subnet.cidr, "192.168.100.0/24");
    assert_eq!(subnet.gateway, "192.168.100.1");
}

#[test]
fn test_incus_commands_generation() {
    let mut h = host("web_server", "medium_flavor", "base_image");
    h.subnets = vec!["frontend".to_string()];
    let compose = compose(
        vec![h],
        vec![Subnet::Full(SubnetConfig {
            name: "frontend".to_string(),
            cidr: Some("10.0.1.0/24".to_string()),
        })],
    );
    let lockfile = compose.generate_lockfile().unwrap();
    let commands = lockfile.generate_incus_commands();

    assert!(!commands.is_empty());
    assert!(commands
        .iter()
        .any(|cmd| cmd.contains("incus network create frontend")));
    assert!(commands
        .iter()
        .any(|cmd| cmd.contains("incus create base_image web_server")));
    assert!(commands
        .iter()
        .any(|cmd| cmd.contains("incus start web_server")));
}

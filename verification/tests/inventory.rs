use dispatch::inventory::{
    parse_groups, parse_ssh_config_hosts, push_chosen, push_unique, push_wildcard, GroupDef,
};
use dispatch::{Config, Dispatch, Error, Inventory};

fn strings(names: &[&str]) -> Vec<String> {
    names.iter().map(|s| s.to_string()).collect()
}

fn list(name: &str, members: &[&str]) -> (String, GroupDef) {
    (name.to_string(), GroupDef::List(strings(members)))
}

fn inventory(ssh_config: &str, groups: Vec<(String, GroupDef)>) -> Inventory {
    Inventory::load(Ok(Some(ssh_config.to_string())), Ok(Some(groups))).unwrap()
}

/// Resolution of wildcards (against ssh_config) and groups (from dispatch toml),
/// plus literal pass-through — all offline, no SSH needed.
#[test]
fn resolves_wildcards_groups_and_literals() {
    let ssh = "Host orange1\n  HostName 192.168.1.1\n\
         Host orange2\n  HostName 192.168.1.2\n\
         Host web01\n  HostName 10.0.0.1\n\
         Host *\n  User root\n";
    let groups = vec![list("web", &["web01", "orange*"])];
    let client = Dispatch::new(
        Config::default(),
        Ok(Some(ssh.to_string())),
        Ok(Some(groups)),
    )
    .unwrap();

    // wildcard expands against ssh-config aliases (not the `Host *` catch-all)
    let mut hosts = client.resolve(&["orange*".into()]).unwrap();
    hosts.sort();
    assert_eq!(hosts, vec!["orange1".to_string(), "orange2".to_string()]);

    // group expands (and nested wildcard inside the group works), deduped
    let mut group = client.resolve(&["web".into()]).unwrap();
    group.sort();
    assert_eq!(
        group,
        vec![
            "orange1".to_string(),
            "orange2".to_string(),
            "web01".to_string()
        ]
    );

    // literal alias / raw IP pass through unchanged
    assert_eq!(
        client.resolve(&["10.9.9.9".into()]).unwrap(),
        vec!["10.9.9.9".to_string()]
    );

    // unknown pattern with no wildcard is treated literally
    assert_eq!(
        client.resolve(&["db-primary".into()]).unwrap(),
        vec!["db-primary".to_string()]
    );
}

/// An empty pattern set surfaces a clear error rather than silently succeeding.
#[test]
fn no_hosts_is_an_error() {
    let cfg = Config {
        ssh_config_path: Some("/nonexistent/ssh_config".into()),
        config_path: Some("/nonexistent/dispatch.toml".into()),
        ..Default::default()
    };
    // neither file exists
    let client = Dispatch::new(cfg, Ok(None), Ok(None)).unwrap();
    assert!(client.resolve(&[]).is_err());
    assert_eq!(client.resolve(&[]).unwrap_err(), Error::NoHosts);
    assert_eq!(
        client.resolve(&[]).unwrap_err().message(),
        "no hosts matched the given patterns"
    );
}

#[test]
fn a_group_without_members_is_no_host() {
    let inv = inventory("", vec![list("none", &[])]);
    assert_eq!(inv.resolve(&strings(&["none"])).unwrap_err(), Error::NoHosts);
    assert_eq!(inv.resolve(&strings(&["none", "a"])).unwrap(), strings(&["a"]));
}

#[test]
fn order_is_kept_and_repetitions_are_dropped() {
    let inv = inventory(
        "Host b a c\n",
        vec![list("g", &["c", "x", "b"]), list("h", &["x", "y"])],
    );
    let r = inv.resolve(&strings(&["z", "g", "h", "z", "?"])).unwrap();
    assert_eq!(r, strings(&["z", "c", "x", "b", "y", "a"]));
    // the hosts of the first patterns, and then the new ones of the others
    assert_eq!(inv.resolve(&strings(&["z", "g"])).unwrap(), strings(&["z", "c", "x", "b"]));
    assert_eq!(inv.resolve(&strings(&["h", "z", "?"])).unwrap(), strings(&["x", "y", "z", "b", "a", "c"]));
    // patterns given once more change nothing
    let twice = strings(&["z", "g", "h", "z", "?", "z", "g", "h", "z", "?"]);
    assert_eq!(inv.resolve(&twice).unwrap(), r);
}

#[test]
fn wildcards_match_aliases_in_their_order() {
    let inv = inventory("Host web02 web01 db1\nHost web10\n", vec![]);
    let at = |p: &str| inv.resolve(&strings(&[p])).unwrap();
    assert_eq!(at("web*"), strings(&["web02", "web01", "web10"]));
    assert_eq!(at("web0?"), strings(&["web02", "web01"]));
    assert_eq!(at("web0[1-9]"), strings(&["web02", "web01"]));
    assert_eq!(at("web0[!2]"), strings(&["web01"]));
    assert_eq!(at("*"), strings(&["web02", "web01", "db1", "web10"]));
    // what matches nothing stands for itself
    assert_eq!(at("zzz*"), strings(&["zzz*"]));
    // and so does what is no valid pattern
    assert_eq!(at("web[0"), strings(&["web[0"]));
    assert_eq!(at("***"), strings(&["***"]));
    // the whole alias has to match, in the same case
    assert_eq!(at("eb*"), strings(&["eb*"]));
    assert_eq!(at("WEB*"), strings(&["WEB*"]));
}

#[test]
fn a_group_comes_before_an_alias_and_before_a_wildcard() {
    let inv = inventory(
        "Host web01 web02\n",
        vec![list("web01", &["other"]), list("web*", &["star"])],
    );
    assert_eq!(inv.resolve(&strings(&["web01"])).unwrap(), strings(&["other"]));
    assert_eq!(inv.resolve(&strings(&["web*"])).unwrap(), strings(&["star"]));
    assert_eq!(inv.resolve(&strings(&["web0*"])).unwrap(), strings(&["web01", "web02"]));
}

#[test]
fn a_cyclic_group_is_refused() {
    let inv = inventory("", vec![list("a", &["x", "b"]), list("b", &["a"])]);
    // a, b, a, .. : the members of the ninth `a` are too deep
    let e = inv.resolve(&strings(&["a"])).unwrap_err();
    assert_eq!(e, Error::Config("group recursion too deep at 'x'".to_string()));
    let e = inv.resolve(&strings(&["b"])).unwrap_err();
    assert_eq!(e.message(), "config error: group recursion too deep at 'a'");
}

#[test]
fn groups_nest_up_to_the_limit() {
    // g0 -> g1 -> .. -> g15 -> leaf: the leaf is at depth 16
    let mut defs: Vec<(String, GroupDef)> = Vec::new();
    for i in 0..15 {
        defs.push(list(&format!("g{}", i), &[&format!("g{}", i + 1)]));
    }
    defs.push(list("g15", &["leaf"]));
    let inv = inventory("", defs);
    assert_eq!(inv.resolve(&strings(&["g0"])).unwrap(), strings(&["leaf"]));

    // one more level is one too many
    let mut defs: Vec<(String, GroupDef)> = Vec::new();
    for i in 0..16 {
        defs.push(list(&format!("g{}", i), &[&format!("g{}", i + 1)]));
    }
    defs.push(list("g16", &["leaf"]));
    let inv = inventory("", defs);
    assert_eq!(
        inv.resolve(&strings(&["g0"])).unwrap_err(),
        Error::Config("group recursion too deep at 'leaf'".to_string())
    );
    assert_eq!(inv.resolve(&strings(&["g1"])).unwrap(), strings(&["leaf"]));
}

#[test]
fn the_ssh_config_gives_concrete_aliases() {
    let text = "# Host commented\n\
                host alpha  beta\t!gamma\n\
                \tHOST  delta *.example.com w?b alpha\r\n\
                HostName not.a.host\n\
                Host\n\
                Match host zeta\n\
                Host [x]\n\
                \n\
                   # Host indented\n\
                Host=eta\n\
                Host omega";
    assert_eq!(
        parse_ssh_config_hosts(text),
        strings(&["alpha", "beta", "delta", "[x]", "omega"])
    );
    assert_eq!(parse_ssh_config_hosts(""), strings(&[]));
    assert_eq!(inventory(text, vec![]).hosts(), &strings(&["alpha", "beta", "delta", "[x]", "omega"])[..]);
}

#[test]
fn groups_are_lists_or_tables() {
    let defs = vec![
        list("web", &["a", "b"]),
        (
            "db".to_string(),
            GroupDef::Detailed { hosts: strings(&["c"]) },
        ),
        list("web", &["d"]),
    ];
    let groups = parse_groups(defs);
    assert_eq!(groups.len(), 2);
    assert_eq!(groups.key(0), "db");
    assert_eq!(groups.key(1), "web");
    assert_eq!(groups.get("db"), Some(&strings(&["c"])));
    assert_eq!(groups.get("web"), Some(&strings(&["d"])));
    assert_eq!(groups.get("we"), None);
}

#[test]
fn what_cannot_be_read_is_an_error() {
    let io = Error::Io("no access".to_string());
    let bad = Error::Config("bad groups".to_string());
    assert_eq!(
        Inventory::load(Err(io.clone()), Err(bad.clone())).unwrap_err(),
        io
    );
    assert_eq!(Inventory::load(Ok(None), Err(bad.clone())).unwrap_err(), bad);
    let client = Dispatch::new(Config::default(), Err(io), Ok(None));
    assert_eq!(client.err().unwrap().message(), "io error: no access");
}

#[test]
fn errors_read_as_expected() {
    assert_eq!(Error::Io("x".to_string()).message(), "io error: x");
    assert_eq!(Error::Ssh("y".to_string()).message(), "ssh error: y");
    assert_eq!(Error::Config("z".to_string()).message(), "config error: z");
}

#[test]
fn hosts_are_added_once() {
    let mut out = strings(&["a"]);
    push_unique(&mut out, "b");
    push_unique(&mut out, "a");
    assert_eq!(out, strings(&["a", "b"]));

    let aliases = strings(&["x", "b", "y"]);
    assert!(push_chosen(&mut out, &aliases, &vec![false, true, true]));
    assert_eq!(out, strings(&["a", "b", "y"]));
    assert!(!push_chosen(&mut out, &aliases, &vec![false, false, false]));
    assert_eq!(out, strings(&["a", "b", "y"]));

    push_wildcard(&mut out, "x*", &aliases, &vec![true, true, false]);
    assert_eq!(out, strings(&["a", "b", "y", "x"]));
    push_wildcard(&mut out, "q*", &aliases, &vec![false, false, false]);
    assert_eq!(out, strings(&["a", "b", "y", "x", "q*"]));
}

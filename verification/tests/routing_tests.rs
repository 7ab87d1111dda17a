use dvion_vpn::routing::{
    disable_full_tunnel_commands, full_tunnel_rollback, full_tunnel_step, nat_rule_args,
    nat_setup_next, parse_default_route, BypassRoute, NatAction, NatSetup, TunnelSetupAction,
};

fn strs(v: &[String]) -> Vec<&str> {
    v.iter().map(|s| s.as_str()).collect()
}

#[test]
fn default_route_parsing() {
    let out = "default via 192.168.1.1 dev eth0 proto dhcp metric 100\n";
    let (gw, dev) = parse_default_route(out).unwrap();
    assert_eq!(gw, "192.168.1.1");
    assert_eq!(dev, "eth0");
    assert!(parse_default_route("default dev wg0 scope link").is_none());
    assert!(parse_default_route("").is_none());
    let (gw, dev) = parse_default_route("default via a dev b\ndefault via c dev d").unwrap();
    assert_eq!((gw.as_str(), dev.as_str()), ("c", "d"));
    assert!(parse_default_route("default dev eth0 via").is_none());
}

#[test]
fn full_tunnel_plan_and_rollback() {
    let run = |applied: usize| match full_tunnel_step("1.2.3.4", "192.168.1.1", "eth0", "tun0", applied, false) {
        TunnelSetupAction::Run(cmd) => cmd,
        _ => panic!("expected a command"),
    };
    assert_eq!(strs(&run(0)), ["route", "add", "1.2.3.4/32", "via", "192.168.1.1", "dev", "eth0"]);
    assert_eq!(strs(&run(1)), ["route", "add", "0.0.0.0/1", "dev", "tun0"]);
    assert_eq!(strs(&run(2)), ["route", "add", "128.0.0.0/1", "dev", "tun0"]);
    match full_tunnel_step("1.2.3.4", "192.168.1.1", "eth0", "tun0", 3, false) {
        TunnelSetupAction::Done(b) => assert_eq!(b.server_ip, "1.2.3.4"),
        _ => panic!("expected the setup to be done"),
    }
    match full_tunnel_step("1.2.3.4", "192.168.1.1", "eth0", "tun0", 2, true) {
        TunnelSetupAction::Abort(undo) => {
            assert_eq!(undo.len(), 2);
            assert_eq!(strs(&undo[0]), ["route", "del", "0.0.0.0/1", "dev", "tun0"]);
            assert_eq!(strs(&undo[1]), ["route", "del", "1.2.3.4/32"]);
        }
        _ => panic!("expected a rollback"),
    }
    match full_tunnel_step("1.2.3.4", "192.168.1.1", "eth0", "tun0", 0, true) {
        TunnelSetupAction::Abort(undo) => assert!(undo.is_empty()),
        _ => panic!("expected a rollback"),
    }
    assert!(full_tunnel_rollback("1.2.3.4", "tun0", 0).is_empty());
    let r1 = full_tunnel_rollback("1.2.3.4", "tun0", 1);
    assert_eq!(r1.len(), 1);
    assert_eq!(strs(&r1[0]), ["route", "del", "1.2.3.4/32"]);
    let r2 = full_tunnel_rollback("1.2.3.4", "tun0", 2);
    assert_eq!(strs(&r2[0]), ["route", "del", "0.0.0.0/1", "dev", "tun0"]);
    assert_eq!(strs(&r2[1]), ["route", "del", "1.2.3.4/32"]);
}

#[test]
fn disable_commands() {
    let b = BypassRoute { server_ip: "1.2.3.4".to_string() };
    let cmds = disable_full_tunnel_commands(&b, "tun0");
    assert_eq!(strs(&cmds[0]), ["route", "del", "0.0.0.0/1", "dev", "tun0"]);
    assert_eq!(strs(&cmds[1]), ["route", "del", "128.0.0.0/1", "dev", "tun0"]);
    assert_eq!(strs(&cmds[2]), ["route", "del", "1.2.3.4/32"]);
}

#[test]
fn nat_rule() {
    let v = nat_rule_args(NatAction::Delete, "eth0");
    assert_eq!(
        strs(&v),
        ["-t", "nat", "-D", "POSTROUTING", "-s", "10.0.0.0/24", "-o", "eth0", "-j", "MASQUERADE"]
    );
    assert_eq!(nat_rule_args(NatAction::Check, "x")[2], "-C");
    assert_eq!(nat_rule_args(NatAction::Append, "x")[2], "-A");
}

#[test]
fn nat_setup_appends_only_when_missing() {
    let s = nat_setup_next(NatSetup::Start, false);
    assert_eq!(s, NatSetup::Checking);
    assert_eq!(nat_setup_next(NatSetup::Checking, true), NatSetup::Enabled);
    assert_eq!(nat_setup_next(NatSetup::Checking, false), NatSetup::Appending);
    assert_eq!(nat_setup_next(NatSetup::Appending, true), NatSetup::Enabled);
    assert_eq!(nat_setup_next(NatSetup::Appending, false), NatSetup::Failed);
    assert_eq!(nat_setup_next(NatSetup::Enabled, false), NatSetup::Enabled);
}

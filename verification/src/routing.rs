//! Route planning for full-tunnel mode and NAT: reading the default route
//! and the `ip` / `iptables` argument lists, with their rollbacks.
use crate::text;
use vstd::prelude::*;
use vstd::string::*;

verus! {

/// The route kept to the VPN server while all traffic goes through the tunnel.
pub struct BypassRoute {
    pub server_ip: String,
}

/// The interface the server masquerades VPN client traffic on.
pub struct NatGuard {
    pub iface: String,
}

// ── The default route ────────────────────────────────────────────────────────

/// The token after position `i`, if there is one.
pub open spec fn next_token(toks: Seq<Seq<char>>, i: int) -> Option<Seq<char>> {
    if i + 1 < toks.len() {
        Some(toks[i + 1])
    } else {
        None
    }
}

/// Reads `via <gateway>` and `dev <interface>` pairs from the tokens at and
/// after `i`, as a token iterator does: each keyword takes the next token,
/// and a later pair overrides an earlier one.
pub open spec fn route_scan(
    toks: Seq<Seq<char>>,
    i: int,
    gw: Option<Seq<char>>,
    dev: Option<Seq<char>>,
) -> (Option<Seq<char>>, Option<Seq<char>>)
    decreases toks.len() + 1 - i,
{
    if i < 0 || i >= toks.len() {
        (gw, dev)
    } else if toks[i] == seq!['v', 'i', 'a'] {
        route_scan(toks, i + 2, next_token(toks, i), dev)
    } else if toks[i] == seq!['d', 'e', 'v'] {
        route_scan(toks, i + 2, gw, next_token(toks, i))
    } else {
        route_scan(toks, i + 1, gw, dev)
    }
}

/// The gateway and interface of `ip route show default` output, when both are named.
pub open spec fn default_route(output: Seq<char>) -> Option<(Seq<char>, Seq<char>)> {
    match route_scan(text::tokens(output), 0, None, None) {
        (Some(g), Some(d)) => Some((g, d)),
        _ => None,
    }
}

/// Whether `cs[lo..hi]` spells `word` (three characters).
fn window_is(cs: &[char], lo: usize, hi: usize, w0: char, w1: char, w2: char) -> (b: bool)
    requires
        lo <= hi <= cs@.len(),
    ensures
        b == (cs@.subrange(lo as int, hi as int) == seq![w0, w1, w2]),
{
    if hi - lo != 3 {
        assert(cs@.subrange(lo as int, hi as int).len() != 3);
        return false;
    }
    let b = cs[lo] == w0 && cs[lo + 1] == w1 && cs[lo + 2] == w2;
    if b {
        assert(cs@.subrange(lo as int, hi as int) =~= seq![w0, w1, w2]);
    } else {
        assert(cs@.subrange(lo as int, hi as int) != seq![w0, w1, w2]) by {
            let t = cs@.subrange(lo as int, hi as int);
            if t == seq![w0, w1, w2] {
                assert(t[0] == w0 && t[1] == w1 && t[2] == w2);
            }
        }
    }
    b
}

/// Reads the gateway and the interface from `ip route show default` output.
pub fn parse_default_route(output: &str) -> (r: Option<(String, String)>)
    ensures
        r matches Some((g, d)) ==> default_route(output@) == Some((g@, d@)),
        r is None ==> default_route(output@) is None,
{
    let cs = text::chars_of(output);
    let bounds = text::token_bounds(cs.as_slice());
    let ghost toks = text::tokens(output@);
    let n = bounds.len();
    assert(toks.len() == n);
    let mut gw: Option<(usize, usize)> = None;
    let mut dev: Option<(usize, usize)> = None;
    let mut i: usize = 0;
    while i < n
        invariant
            cs@ == output@,
            toks == text::tokens(output@),
            text::windows(cs@, bounds@) == toks,
            text::bounds_within(bounds@, cs@.len() as int),
            n == bounds@.len(),
            i <= n,
            gw matches Some(b) ==> b.0 <= b.1 <= cs@.len(),
            dev matches Some(b) ==> b.0 <= b.1 <= cs@.len(),
            route_scan(toks, 0, None, None) == route_scan(
                toks,
                i as int,
                window_opt(cs@, gw),
                window_opt(cs@, dev),
            ),
        decreases n - i,
    {
        let (lo, hi) = bounds[i];
        assert(lo <= hi <= cs@.len()) by {
            assert(bounds@[i as int].0 <= bounds@[i as int].1 <= cs@.len());
        }
        assert(toks[i as int] == cs@.subrange(lo as int, hi as int));
        let next = if i + 1 < n {
            assert(bounds@[i + 1].0 <= bounds@[i + 1].1 <= cs@.len());
            Some(bounds[i + 1])
        } else {
            None
        };
        assert(window_opt(cs@, next) == next_token(toks, i as int));
        let skip = if i + 1 < n {
            i + 2
        } else {
            n
        };
        assert(forall|g: Option<Seq<char>>, d: Option<Seq<char>>|
            route_scan(toks, i + 2, g, d) == #[trigger] route_scan(toks, skip as int, g, d));
        if window_is(cs.as_slice(), lo, hi, 'v', 'i', 'a') {
            gw = next;
            i = skip;
        } else if window_is(cs.as_slice(), lo, hi, 'd', 'e', 'v') {
            dev = next;
            i = skip;
        } else {
            i = i + 1;
        }
    }
    match (gw, dev) {
        (Some((g0, g1)), Some((d0, d1))) => {
            let g = output.substring_char(g0, g1).to_owned();
            let d = output.substring_char(d0, d1).to_owned();
            Some((g, d))
        },
        _ => None,
    }
}

/// The text of an optional window.
pub open spec fn window_opt(s: Seq<char>, b: Option<(usize, usize)>) -> Option<Seq<char>> {
    match b {
        Some(w) => Some(s.subrange(w.0 as int, w.1 as int)),
        None => None,
    }
}


// ── Full-tunnel routes ───────────────────────────────────────────────────────

/// `route add <server>/32 via <gw> dev <iface>`: keeps the VPN server
/// reachable through the real gateway (prevents a routing loop).
pub open spec fn add_host_route(server_ip: Seq<char>, gw: Seq<char>, iface: Seq<char>) -> Seq<Seq<char>> {
    seq!["route"@, "add"@, server_ip + "/32"@, "via"@, gw, "dev"@, iface]
}

/// `route add <half> dev <tun>`: one of the two /1 routes that together cover
/// all of IPv4 with higher priority than the default /0.
pub open spec fn add_half_route(half: Seq<char>, tun: Seq<char>) -> Seq<Seq<char>> {
    seq!["route"@, "add"@, half, "dev"@, tun]
}

/// `route del <server>/32`.
pub open spec fn del_host_route(server_ip: Seq<char>) -> Seq<Seq<char>> {
    seq!["route"@, "del"@, server_ip + "/32"@]
}

/// `route del <half> dev <tun>`.
pub open spec fn del_half_route(half: Seq<char>, tun: Seq<char>) -> Seq<Seq<char>> {
    seq!["route"@, "del"@, half, "dev"@, tun]
}

/// The `ip` commands that route all traffic through the tunnel, in order.
pub open spec fn full_tunnel_plan(server_ip: Seq<char>, gw: Seq<char>, iface: Seq<char>, tun: Seq<char>) -> Seq<Seq<Seq<char>>> {
    seq![
        add_host_route(server_ip, gw, iface),
        add_half_route("0.0.0.0/1"@, tun),
        add_half_route("128.0.0.0/1"@, tun),
    ]
}

/// The `ip` commands run when command `failed` of the plan fails: the routes
/// the commands before it added are deleted, the latest first.
pub open spec fn full_tunnel_rollback_plan(server_ip: Seq<char>, tun: Seq<char>, failed: int) -> Seq<Seq<Seq<char>>> {
    if failed <= 0 {
        Seq::<Seq<Seq<char>>>::empty()
    } else if failed == 1 {
        seq![del_host_route(server_ip)]
    } else {
        seq![del_half_route("0.0.0.0/1"@, tun), del_host_route(server_ip)]
    }
}

/// The `ip` commands that restore normal routing.
pub open spec fn disable_plan(server_ip: Seq<char>, tun: Seq<char>) -> Seq<Seq<Seq<char>>> {
    seq![
        del_half_route("0.0.0.0/1"@, tun),
        del_half_route("128.0.0.0/1"@, tun),
        del_host_route(server_ip),
    ]
}

/// `a` followed by `b`.
fn concat(a: &str, b: &str) -> (s: String)
    ensures
        s@ == a@ + b@,
{
    let mut s = a.to_owned();
    s.append(b);
    s
}

fn add_host_route_args(server_ip: &str, gw: &str, iface: &str) -> (v: Vec<String>)
    ensures
        v.deep_view() == add_host_route(server_ip@, gw@, iface@),
{
    let mut v: Vec<String> = Vec::new();
    v.push("route".to_owned());
    v.push("add".to_owned());
    v.push(concat(server_ip, "/32"));
    v.push("via".to_owned());
    v.push(gw.to_owned());
    v.push("dev".to_owned());
    v.push(iface.to_owned());
    assert(v.deep_view() =~= add_host_route(server_ip@, gw@, iface@));
    v
}

fn half_route_args(verb: &str, half: &str, tun: &str) -> (v: Vec<String>)
    ensures
        v.deep_view() == seq!["route"@, verb@, half@, "dev"@, tun@],
{
    let mut v: Vec<String> = Vec::new();
    v.push("route".to_owned());
    v.push(verb.to_owned());
    v.push(half.to_owned());
    v.push("dev".to_owned());
    v.push(tun.to_owned());
    assert(v.deep_view() =~= seq!["route"@, verb@, half@, "dev"@, tun@]);
    v
}

fn del_host_route_args(server_ip: &str) -> (v: Vec<String>)
    ensures
        v.deep_view() == del_host_route(server_ip@),
{
    let mut v: Vec<String> = Vec::new();
    v.push("route".to_owned());
    v.push("del".to_owned());
    v.push(concat(server_ip, "/32"));
    assert(v.deep_view() =~= del_host_route(server_ip@));
    v
}

/// The argument lists of the `ip` commands to run when command `failed` of
/// the full-tunnel plan fails.
pub fn full_tunnel_rollback(server_ip: &str, tun: &str, failed: usize) -> (cmds: Vec<Vec<String>>)
    ensures
        cmds.deep_view() == full_tunnel_rollback_plan(server_ip@, tun@, failed as int),
{
    let mut cmds: Vec<Vec<String>> = Vec::new();
    if failed >= 2 {
        cmds.push(half_route_args("del", "0.0.0.0/1", tun));
    }
    if failed >= 1 {
        cmds.push(del_host_route_args(server_ip));
    }
    assert(cmds.deep_view() =~= full_tunnel_rollback_plan(server_ip@, tun@, failed as int));
    cmds
}

/// The argument lists of the `ip` commands that undo full-tunnel routing.
pub fn disable_full_tunnel_commands(bypass: &BypassRoute, tun: &str) -> (cmds: Vec<Vec<String>>)
    ensures
        cmds.deep_view() == disable_plan(bypass.server_ip@, tun@),
{
    let mut cmds: Vec<Vec<String>> = Vec::new();
    cmds.push(half_route_args("del", "0.0.0.0/1", tun));
    cmds.push(half_route_args("del", "128.0.0.0/1", tun));
    cmds.push(del_host_route_args(bypass.server_ip.as_str()));
    assert(cmds.deep_view() =~= disable_plan(bypass.server_ip@, tun@));
    cmds
}

/// What to do next while routing all traffic through the tunnel.
pub enum TunnelSetupAction {
    /// Run this `ip` command and report whether it succeeded.
    Run(Vec<String>),
    /// Every route is in place.
    Done(BypassRoute),
    /// A command failed: run these `ip` commands, whatever their outcome, and
    /// give up with that failure.
    Abort(Vec<Vec<String>>),
}

/// The full-tunnel setup as a sequence of decisions: `applied` commands of the
/// plan have succeeded, and `failed` says whether the command after them
/// failed. Until one fails the plan is run in order, then the setup is done;
/// a failure rolls back what was applied.
pub fn full_tunnel_step(
    server_ip: &str,
    gw: &str,
    iface: &str,
    tun: &str,
    applied: usize,
    failed: bool,
) -> (a: TunnelSetupAction)
    requires
        applied <= 3,
        failed ==> applied < 3,
    ensures
        failed ==> (a matches TunnelSetupAction::Abort(undo) && undo.deep_view()
            == full_tunnel_rollback_plan(server_ip@, tun@, applied as int)),
        !failed && applied < 3 ==> (a matches TunnelSetupAction::Run(cmd) && cmd.deep_view()
            == full_tunnel_plan(server_ip@, gw@, iface@, tun@)[applied as int]),
        !failed && applied == 3 ==> (a matches TunnelSetupAction::Done(b) && b.server_ip@
            == server_ip@),
{
    if failed {
        return TunnelSetupAction::Abort(full_tunnel_rollback(server_ip, tun, applied));
    }
    if applied == 0 {
        TunnelSetupAction::Run(add_host_route_args(server_ip, gw, iface))
    } else if applied == 1 {
        TunnelSetupAction::Run(half_route_args("add", "0.0.0.0/1", tun))
    } else if applied == 2 {
        TunnelSetupAction::Run(half_route_args("add", "128.0.0.0/1", tun))
    } else {
        TunnelSetupAction::Done(BypassRoute { server_ip: server_ip.to_owned() })
    }
}

/// A rollback deletes, latest first, exactly the routes that the commands
/// before the failed one added.
pub proof fn lemma_rollback_undoes_applied(
    server_ip: Seq<char>,
    gw: Seq<char>,
    iface: Seq<char>,
    tun: Seq<char>,
    failed: int,
)
    requires
        0 <= failed < 3,
    ensures
        ({
            let plan = full_tunnel_plan(server_ip, gw, iface, tun);
            let undo = full_tunnel_rollback_plan(server_ip, tun, failed);
            &&& undo.len() == failed
            &&& forall|j: int|
                0 <= j < failed ==> (#[trigger] undo[failed - 1 - j])[1] == "del"@ && undo[failed
                    - 1 - j][2] == plan[j][2]
        }),
{
}

/// Disabling the full tunnel deletes every route that enabling it added.
pub proof fn lemma_disable_removes_all(server_ip: Seq<char>, gw: Seq<char>, iface: Seq<char>, tun: Seq<char>)
    ensures
        ({
            let plan = full_tunnel_plan(server_ip, gw, iface, tun);
            let off = disable_plan(server_ip, tun);
            forall|j: int|
                0 <= j < plan.len() ==> exists|m: int|
                    0 <= m < off.len() && (#[trigger] off[m])[1] == "del"@ && off[m][2] == (
                    #[trigger] plan[j])[2]
        }),
{
    let plan = full_tunnel_plan(server_ip, gw, iface, tun);
    let off = disable_plan(server_ip, tun);
    assert(off[2][2] == plan[0][2]);
    assert(off[0][2] == plan[1][2]);
    assert(off[1][2] == plan[2][2]);
}

// ── NAT ──────────────────────────────────────────────────────────────────────

/// What to do with the masquerade rule.
#[derive(Debug, Clone, Copy, PartialEq, Eq, Structural)]
pub enum NatAction {
    /// `-C`: whether the rule is present.
    Check,
    /// `-A`: add the rule.
    Append,
    /// `-D`: remove the rule.
    Delete,
}

/// The `iptables` flag of an action.
pub open spec fn nat_flag(action: NatAction) -> Seq<char> {
    match action {
        NatAction::Check => "-C"@,
        NatAction::Append => "-A"@,
        NatAction::Delete => "-D"@,
    }
}

/// The `iptables` arguments for the rule that masquerades the VPN subnet
/// 10.0.0.0/24 as the address of `iface`.
pub open spec fn nat_rule(action: NatAction, iface: Seq<char>) -> Seq<Seq<char>> {
    seq![
        "-t"@,
        "nat"@,
        nat_flag(action),
        "POSTROUTING"@,
        "-s"@,
        "10.0.0.0/24"@,
        "-o"@,
        iface,
        "-j"@,
        "MASQUERADE"@,
    ]
}

/// The `iptables` argument list for `action` on the masquerade rule of `iface`.
pub fn nat_rule_args(action: NatAction, iface: &str) -> (v: Vec<String>)
    ensures
        v.deep_view() == nat_rule(action, iface@),
{
    let flag = match action {
        NatAction::Check => "-C".to_owned(),
        NatAction::Append => "-A".to_owned(),
        NatAction::Delete => "-D".to_owned(),
    };
    let mut v: Vec<String> = Vec::new();
    v.push("-t".to_owned());
    v.push("nat".to_owned());
    v.push(flag);
    v.push("POSTROUTING".to_owned());
    v.push("-s".to_owned());
    v.push("10.0.0.0/24".to_owned());
    v.push("-o".to_owned());
    v.push(iface.to_owned());
    v.push("-j".to_owned());
    v.push("MASQUERADE".to_owned());
    assert(v.deep_view() =~= nat_rule(action, iface@));
    v
}

/// Where enabling NAT on the server stands.
#[derive(Debug, Clone, Copy, PartialEq, Eq, Structural)]
pub enum NatSetup {
    /// Nothing has run yet.
    Start,
    /// The `Check` command for the masquerade rule runs next.
    Checking,
    /// The `Append` command for the masquerade rule runs next.
    Appending,
    /// The rule is in place.
    Enabled,
    /// Appending the rule failed.
    Failed,
}

/// The stage after `state`, given whether the command run in it succeeded:
/// the rule is appended only when the check does not find it.
pub open spec fn nat_setup_after(state: NatSetup, succeeded: bool) -> NatSetup {
    match state {
        NatSetup::Start => NatSetup::Checking,
        NatSetup::Checking => if succeeded {
            NatSetup::Enabled
        } else {
            NatSetup::Appending
        },
        NatSetup::Appending => if succeeded {
            NatSetup::Enabled
        } else {
            NatSetup::Failed
        },
        NatSetup::Enabled => NatSetup::Enabled,
        NatSetup::Failed => NatSetup::Failed,
    }
}

/// The next stage of enabling NAT, from the current one and whether the
/// command it ran succeeded (ignored at `Start`).
pub fn nat_setup_next(state: NatSetup, succeeded: bool) -> (next: NatSetup)
    ensures
        next == nat_setup_after(state, succeeded),
{
    match state {
        NatSetup::Start => NatSetup::Checking,
        NatSetup::Checking => if succeeded {
            NatSetup::Enabled
        } else {
            NatSetup::Appending
        },
        NatSetup::Appending => if succeeded {
            NatSetup::Enabled
        } else {
            NatSetup::Failed
        },
        NatSetup::Enabled => NatSetup::Enabled,
        NatSetup::Failed => NatSetup::Failed,
    }
}

/// Enabling NAT always begins with the check, whatever flag the first step is
/// given; it is enabled only after a check that found the rule or an append
/// that succeeded (or when it already was); it fails only after a failed
/// append (or when it already had); and the rule is appended only after a
/// check that did not find it.
pub proof fn lemma_nat_setup_order(state: NatSetup, succeeded: bool)
    ensures
        nat_setup_after(NatSetup::Start, succeeded) == NatSetup::Checking,
        nat_setup_after(state, succeeded) == NatSetup::Enabled ==> state == NatSetup::Enabled || (
        (state == NatSetup::Checking || state == NatSetup::Appending) && succeeded),
        nat_setup_after(state, succeeded) == NatSetup::Failed ==> state == NatSetup::Failed || (
        state == NatSetup::Appending && !succeeded),
        nat_setup_after(state, succeeded) == NatSetup::Appending ==> state == NatSetup::Checking
            && !succeeded,
        nat_setup_after(state, succeeded) != NatSetup::Start,
{
}

/// The rule that is appended is the rule that is checked for and the one that
/// is deleted: the argument lists of two actions differ only in the flag, and
/// every one masquerades traffic from (`-s`) the VPN subnet 10.0.0.0/24 leaving
/// through the given interface, in the `nat` table's POSTROUTING chain.
pub proof fn lemma_nat_rules_differ_only_in_flag(a: NatAction, b: NatAction, iface: Seq<char>)
    ensures
        nat_rule(a, iface).len() == 10,
        nat_rule(b, iface).len() == 10,
        forall|i: int| 0 <= i < 10 && i != 2 ==> #[trigger] nat_rule(a, iface)[i] == nat_rule(b, iface)[i],
        nat_rule(a, iface)[0] == "-t"@ && nat_rule(a, iface)[1] == "nat"@,
        nat_rule(a, iface)[3] == "POSTROUTING"@,
        nat_rule(a, iface)[4] == "-s"@ && nat_rule(a, iface)[5] == "10.0.0.0/24"@,
        nat_rule(a, iface)[6] == "-o"@ && nat_rule(a, iface)[7] == iface,
        nat_rule(a, iface)[8] == "-j"@ && nat_rule(a, iface)[9] == "MASQUERADE"@,
        a != b ==> nat_rule(a, iface)[2] != nat_rule(b, iface)[2],
{
    assert(a != b ==> nat_flag(a) != nat_flag(b)) by {
        reveal_strlit("-C");
        reveal_strlit("-A");
        reveal_strlit("-D");
        if a != b {
            assert(nat_flag(a)[1] != nat_flag(b)[1]);
        }
    }
}

} // verus!

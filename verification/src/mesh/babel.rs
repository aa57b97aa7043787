//! The routing daemon: what it is told, and how long it is kept.
use vstd::prelude::*;
use vstd::string::*;

use crate::mesh::address::address_text;
use crate::mesh::identity::MeshIdentity;
use crate::mesh::link::{link_views, LinkView, MeshLink};
use crate::text::{ended, owned, texts};

verus! {

/// The error that tells that there is no such process.
pub const ESRCH: i32 = 3;

/// What is known of the routing.
#[derive(Debug)]
pub struct RoutingState {
    pub backend: &'static str,
    pub running: bool,
    pub config_path: String,
    pub available: bool,
}

/// What came of starting the daemon, as far as it was tried.
#[derive(Clone, Copy, Debug, PartialEq, Eq, Structural)]
pub struct StartAttempt {
    pub is_installed: bool,
    pub config_written: bool,
    pub spawned: bool,
    /// The daemon, once it runs, is watched.
    pub watched: bool,
}

/// Whether the routing is one of the daemon in a state.
pub open spec fn routing_is(r: RoutingState, running: bool, available: bool) -> bool {
    &&& r.backend@ == "babeld"@
    &&& r.running == running
    &&& r.config_path@ == "/run/pocketboot-babeld.conf"@
    &&& r.available == available
}

fn routing(running: bool, available: bool) -> (r: RoutingState)
    ensures
        routing_is(r, running, available),
{
    RoutingState {
        backend: "babeld",
        running,
        config_path: owned("/run/pocketboot-babeld.conf"),
        available,
    }
}

impl RoutingState {
    /// The routing without a daemon.
    pub fn unavailable() -> (r: RoutingState)
        ensures
            routing_is(r, false, false),
    {
        routing(false, false)
    }
}

/// The routing after the start of the daemon: without links, without the daemon or without its
/// configuration there is none, nor with a daemon that nothing watches, and a daemon that did not
/// start is there but does not run.
pub fn start(links: &[MeshLink], attempt: StartAttempt) -> (r: RoutingState)
    ensures
        ({
            let available = links@.len() > 0 && attempt.is_installed && attempt.config_written && (
            attempt.spawned ==> attempt.watched);
            routing_is(r, available && attempt.spawned, available)
        }),
{
    if links.len() == 0 || !attempt.is_installed || !attempt.config_written {
        return RoutingState::unavailable();
    }
    if attempt.spawned && !attempt.watched {
        return RoutingState::unavailable();
    }
    routing(attempt.spawned, true)
}

/// What keeping the daemon takes next.
#[derive(Clone, Copy, Debug, PartialEq, Eq, Structural)]
pub enum Supervision {
    /// The daemon runs; it is looked at after a while.
    Watch,
    /// The daemon is started again after a while.
    Restart,
    GiveUp,
}

/// What keeping the daemon takes next, by whether it was started again before, whether starting it
/// again failed, and whether it ended.
pub fn supervise(restarted: bool, restart_failed: bool, ended: bool) -> (r: Supervision)
    ensures
        r == (if restart_failed {
            Supervision::GiveUp
        } else if !ended {
            Supervision::Watch
        } else if restarted {
            Supervision::GiveUp
        } else {
            Supervision::Restart
        }),
{
    if restart_failed {
        Supervision::GiveUp
    } else if !ended {
        Supervision::Watch
    } else if restarted {
        Supervision::GiveUp
    } else {
        Supervision::Restart
    }
}

/// Whether a process has ended, by what came of asking for it: one that is not ours is there.
pub fn has_ended(failure: Option<i32>) -> (r: bool)
    ensures
        r == (failure == Some(ESRCH)),
{
    match failure {
        Some(errno) => errno == ESRCH,
        None => false,
    }
}

/// The arguments of the daemon.
pub fn daemon_args(ifnames: &[String]) -> (r: Vec<String>)
    ensures
        texts(r@) == seq![
            "-c"@,
            "/run/pocketboot-babeld.conf"@,
            "-S"@,
            "/run/pocketboot-babeld.state"@,
            "-I"@,
            ""@,
        ] + texts(ifnames@),
{
    let mut out: Vec<String> = Vec::new();
    out.push(owned("-c"));
    out.push(owned("/run/pocketboot-babeld.conf"));
    out.push(owned("-S"));
    out.push(owned("/run/pocketboot-babeld.state"));
    out.push(owned("-I"));
    out.push(owned(""));
    let ghost fixed = seq![
        "-c"@,
        "/run/pocketboot-babeld.conf"@,
        "-S"@,
        "/run/pocketboot-babeld.state"@,
        "-I"@,
        ""@,
    ];
    let ghost all = texts(ifnames@);
    let mut i: usize = 0;
    assert(texts(out@) =~= fixed + all.take(0));
    while i < ifnames.len()
        invariant
            i <= ifnames@.len(),
            all == texts(ifnames@),
            texts(out@) == fixed + all.take(i as int),
        decreases ifnames@.len() - i,
    {
        let ghost before = out@;
        out.push(owned(ifnames[i].as_str()));
        assert(texts(out@) =~= texts(before).push(all[i as int]));
        i += 1;
        assert(texts(out@) =~= fixed + all.take(i as int));
    }
    assert(all.take(i as int) =~= all);
    out
}

/// A line of the configuration for a link.
pub open spec fn link_line(link: LinkView) -> Seq<char> {
    "interface "@ + link.name + " type "@ + link.kind.routing_type() + "\n"@
}

/// The lines of the configuration for the first `n` links.
pub open spec fn link_lines(links: Seq<LinkView>, n: int) -> Seq<char>
    decreases n,
{
    if n <= 0 {
        Seq::empty()
    } else {
        link_lines(links, n - 1) + link_line(links[n - 1])
    }
}

/// The configuration of the daemon: all links, the address of the device to be told, and no other.
pub open spec fn config_text(octets: Seq<u8>, links: Seq<LinkView>) -> Seq<char> {
    "# Generated by pocketboot mesh. Do not edit.\n"@ + link_lines(links, links.len() as int)
        + "\n"@ + "redistribute local ip "@ + address_text(octets) + "/128 allow\n"@
        + "redistribute local deny\n"@
}

/// The configuration of the daemon.
pub fn generate_config(identity: &MeshIdentity, links: &[MeshLink]) -> (s: String)
    requires
        identity.ula_addr.octets@[0] != 0,
    ensures
        s@ == config_text(identity.ula_addr.octets@, link_views(links@)),
{
    let mut out = owned("# Generated by pocketboot mesh. Do not edit.\n");
    let ghost views = link_views(links@);
    let ghost head = out@;
    let mut i: usize = 0;
    assert(out@ =~= head + link_lines(views, 0));
    while i < links.len()
        invariant
            i <= links@.len(),
            views == link_views(links@),
            out@ == head + link_lines(views, i as int),
        decreases links@.len() - i,
    {
        out.append("interface ");
        out.append(links[i].name.as_str());
        out.append(" type ");
        out.append(links[i].kind.babel_type());
        out.append("\n");
        i += 1;
        assert(out@ =~= head + link_lines(views, i as int));
    }
    out.append("\n");
    out.append("redistribute local ip ");
    out.append(identity.ula_addr.to_text().as_str());
    out.append("/128 allow\n");
    out.append("redistribute local deny\n");
    assert(out@ =~= config_text(identity.ula_addr.octets@, views));
    out
}

proof fn lemma_link_lines(links: Seq<LinkView>, n: int)
    requires
        0 <= n <= links.len(),
    ensures
        link_lines(links, n) == ended(
            Seq::new(
                n as nat,
                |i: int| "interface "@ + links[i].name + " type "@ + links[i].kind.routing_type(),
            ),
            '\n',
        ),
    decreases n,
{
    reveal_strlit("\n");
    let all = Seq::new(
        n as nat,
        |i: int| "interface "@ + links[i].name + " type "@ + links[i].kind.routing_type(),
    );
    if n > 0 {
        lemma_link_lines(links, n - 1);
        assert(all.drop_last() =~= Seq::new(
            (n - 1) as nat,
            |i: int| "interface "@ + links[i].name + " type "@ + links[i].kind.routing_type(),
        ));
        assert(link_line(links[n - 1]) =~= all.last().push('\n'));
    }
}

proof fn lemma_ended_more(parts: Seq<Seq<char>>, last: Seq<char>)
    ensures
        ended(parts.push(last), '\n') == ended(parts, '\n') + last.push('\n'),
{
    assert(parts.push(last).drop_last() =~= parts);
}

/// The routing daemon is told of each link, on a line of its own and in their order, with the name
/// and the type of the link; then that the address of the device is to be announced, and last that
/// nothing else is.
pub proof fn law_daemon_is_told_of_links(octets: Seq<u8>, links: Seq<LinkView>)
    ensures
        ({
            let told = Seq::new(
                links.len(),
                |i: int| "interface "@ + links[i].name + " type "@ + links[i].kind.routing_type(),
            );
            let first = "# Generated by pocketboot mesh. Do not edit."@;
            let behind = Seq::<Seq<char>>::empty().push(Seq::empty()).push(
                "redistribute local ip "@ + address_text(octets) + "/128 allow"@,
            ).push("redistribute local deny"@);
            config_text(octets, links) == ended(seq![first], '\n') + ended(told, '\n') + ended(
                behind,
                '\n',
            )
        }),
{
    reveal_strlit("\n");
    reveal_strlit("# Generated by pocketboot mesh. Do not edit.\n");
    reveal_strlit("# Generated by pocketboot mesh. Do not edit.");
    reveal_strlit("/128 allow\n");
    reveal_strlit("/128 allow");
    reveal_strlit("redistribute local deny\n");
    reveal_strlit("redistribute local deny");
    lemma_link_lines(links, links.len() as int);
    let none = Seq::<Seq<char>>::empty();
    let first = "# Generated by pocketboot mesh. Do not edit."@;
    let address = "redistribute local ip "@ + address_text(octets) + "/128 allow"@;
    let last = "redistribute local deny"@;
    lemma_ended_more(none, first);
    assert(none.push(first) =~= seq![first]);
    lemma_ended_more(none, Seq::empty());
    lemma_ended_more(none.push(Seq::empty()), address);
    lemma_ended_more(none.push(Seq::empty()).push(address), last);
    assert(ended(none, '\n') =~= Seq::<char>::empty());
    assert("# Generated by pocketboot mesh. Do not edit.\n"@ =~= first.push('\n'));
    assert("redistribute local deny\n"@ =~= last.push('\n'));
    assert("redistribute local ip "@ + address_text(octets) + "/128 allow\n"@ =~= address.push('\n'));
    assert(config_text(octets, links) =~= ended(seq![first], '\n') + link_lines(
        links,
        links.len() as int,
    ) + ended(none.push(Seq::empty()).push(address).push(last), '\n'));
}

} // verus!

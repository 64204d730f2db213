//! The dongle stack in one binary: which tool a command line asks for, and where the scripts of the
//! stack go.

use vstd::prelude::*;

use crate::names::holds;
use crate::provision::texts;
use crate::text::{join, joined, views};

verus! {

/// The names the stack runs under.
pub const TOOLS: [&'static str; 10] =
    ["seedrng", "mfid", "livi-usbproxy", "l2fwd", "mdnsd", "wifid", "btd", "iapd", "ledd", "httpd"];
pub const COMMANDS: [&'static str; 5] = ["wifi-channels", "bt-probe", "bt-mgmt", "sdp-dump", "sync-scripts"];

/// Where the scripts and pages of the stack go.
pub const SCRIPT_TARGETS: [&'static str; 6] = [
    "/script/livi/livi-link.sh",
    "/script/livi/l2fwd-watch.sh",
    "/script/livi/flash-image.sh",
    "/script/start_main_service.sh",
    "/etc/boa/cgi-bin/server.cgi",
    "/etc/boa/www/index.html",
];

fn listed<const N: usize>(list: &[&'static str; N]) -> (out: Vec<String>)
    ensures
        views(out@) == texts(*list),
{
    let ghost all = texts(*list);
    let mut out: Vec<String> = Vec::new();
    let mut i: usize = 0;
    while i < N
        invariant
            i <= N,
            all == texts(*list),
            list@.len() == N,
            out@.len() == i,
            forall|j: int| 0 <= j < i ==> (#[trigger] out@[j])@ == all[j],
        decreases N - i,
    {
        out.push(list[i].to_owned());
        i += 1;
    }
    assert(views(out@) =~= all);
    out
}

/// Whether a name is one the stack runs under.
pub fn is_tool(name: &str) -> (r: bool)
    ensures
        r == texts(TOOLS).contains(name@),
{
    holds(&listed(&TOOLS), name)
}

/// Whether a name is a command of the stack.
pub fn is_command(name: &str) -> (r: bool)
    ensures
        r == texts(COMMANDS).contains(name@),
{
    holds(&listed(&COMMANDS), name)
}

/// What a command line asks for.
pub struct Picked {
    pub tool: String,
    pub rest: Vec<String>,
}

/// Picks the tool: the name the binary was started under, or else the first argument.
pub fn pick(started_as: &str, args: &Vec<String>) -> (r: Picked)
    ensures
        ({
            let linked = texts(TOOLS).contains(started_as@);
            let all = views(args@);
            let skip: int = if linked { 1 } else { 2 };
            &&& r.tool@ == (if linked {
                started_as@
            } else if all.len() > 1 {
                all[1]
            } else {
                Seq::empty()
            })
            &&& views(r.rest@) == (if all.len() > skip { all.skip(skip) } else { Seq::empty() })
        }),
{
    let linked = is_tool(started_as);
    let ghost all = views(args@);
    let skip: usize = if linked { 1 } else { 2 };
    let tool = if linked {
        started_as.to_owned()
    } else if args.len() > 1 {
        assert(all[1] == args@[1]@);
        args[1].clone()
    } else {
        String::new()
    };
    let mut rest: Vec<String> = Vec::new();
    if args.len() > skip {
        let mut i: usize = skip;
        while i < args.len()
            invariant
                skip <= i <= args@.len(),
                skip == 1 || skip == 2,
                all == views(args@),
                rest@.len() == i - skip,
                forall|j: int| 0 <= j < i - skip ==> (#[trigger] rest@[j])@ == all[skip + j],
            decreases args@.len() - i,
        {
            assert(all[i as int] == args@[i as int]@);
            rest.push(args[i].clone());
            i += 1;
        }
        assert(views(rest@) =~= all.skip(skip as int));
    } else {
        assert(views(rest@) =~= Seq::<Seq<char>>::empty());
    }
    Picked { tool, rest }
}

/// What is said to a name that is not run here: one of the stack's runs on the dongle only, any
/// other gets the usage.
pub fn refusal(name: &str) -> (out: String)
    ensures
        out@ == (if name@.len() > 0 && (texts(TOOLS).contains(name@) || texts(COMMANDS).contains(name@)) {
            "livi-link: "@ + name@ + " runs on the dongle (linux) only"@
        } else {
            "usage: livi-link <"@ + join(texts(TOOLS), "|"@) + "|"@ + join(texts(COMMANDS), "|"@) + "> [args]"@
        }),
{
    if !name.is_empty() && (is_tool(name) || is_command(name)) {
        let mut out = "livi-link: ".to_owned();
        out.append(name);
        out.append(" runs on the dongle (linux) only");
        return out;
    }
    let mut out = "usage: livi-link <".to_owned();
    out.append(joined(&listed(&TOOLS), "|").as_str());
    out.append("|");
    out.append(joined(&listed(&COMMANDS), "|").as_str());
    out.append("> [args]");
    out
}

/// Where a script is written before it takes its place.
pub fn staged(target: &str) -> (out: String)
    ensures
        out@ == target@ + ".new"@,
{
    let mut out = target.to_owned();
    out.append(".new");
    out
}

/// Every script goes to an absolute path.
pub proof fn every_target_is_absolute(i: int)
    requires
        0 <= i < 6,
    ensures
        SCRIPT_TARGETS@[i]@.len() > 0,
        SCRIPT_TARGETS@[i]@[0] == '/',
{
    reveal_strlit("/script/livi/livi-link.sh");
    reveal_strlit("/script/livi/l2fwd-watch.sh");
    reveal_strlit("/script/livi/flash-image.sh");
    reveal_strlit("/script/start_main_service.sh");
    reveal_strlit("/etc/boa/cgi-bin/server.cgi");
    reveal_strlit("/etc/boa/www/index.html");
    assert(SCRIPT_TARGETS@[0]@ == "/script/livi/livi-link.sh"@);
    assert(SCRIPT_TARGETS@[1]@ == "/script/livi/l2fwd-watch.sh"@);
    assert(SCRIPT_TARGETS@[2]@ == "/script/livi/flash-image.sh"@);
    assert(SCRIPT_TARGETS@[3]@ == "/script/start_main_service.sh"@);
    assert(SCRIPT_TARGETS@[4]@ == "/etc/boa/cgi-bin/server.cgi"@);
    assert(SCRIPT_TARGETS@[5]@ == "/etc/boa/www/index.html"@);
}

/// Started under the name of a tool, the stack runs that tool with all its arguments. Started under any other
/// name, its first argument names the tool, and the ones behind it are the tool's.
pub proof fn which_tool_is_run(started_as: &str, args: Vec<String>, own: Seq<char>, first: Seq<char>, more: Seq<Seq<char>>, r: Picked)
    requires
        call_ensures(pick, (started_as, &args), r),
    ensures
        texts(TOOLS).contains(started_as@) && views(args@) == seq![own] + more ==> r.tool@ == started_as@
            && views(r.rest@) == more,
        !texts(TOOLS).contains(started_as@) && views(args@) == seq![own, first] + more ==> r.tool@ == first
            && views(r.rest@) == more,
        !texts(TOOLS).contains(started_as@) && views(args@) == seq![own] ==> r.tool@.len() == 0 && r.rest@.len() == 0,
{
    assert((seq![own] + more).skip(1) =~= more);
    assert((seq![own, first] + more).skip(2) =~= more);
    if more.len() == 0 {
        assert(more =~= Seq::<Seq<char>>::empty());
    }
    assert(views(r.rest@).len() == r.rest@.len());
}

} // verus!

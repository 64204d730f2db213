//! The provisioning tool: what a command line and a choice ask for, the order an installation goes
//! in, and what is printed.

use vstd::prelude::*;

use crate::detect::{Detected, DEFAULT_HOST};
use crate::payload::{line_parts, parts, BRINGUP_MARKER, BRINGUP_REMOTE};
use crate::provision::{push_sum, Plan, Report, Status};
use crate::text::{dec, decimal, gap, join, joined, put_dec, put_left, put_right, read_unsigned, same_text};
use crate::text::{trim, trim_str, unsigned, views};

verus! {

/// The light's loop while the dongle is written to. One line, because the shell on the dongle
/// reads commands by line.
pub const BLINK_LOOP: &'static str = "echo $$ > /tmp/livi-blink.pid; for g in 2 9; do [ -e /sys/class/gpio/gpio$g ] || echo $g > /sys/class/gpio/export; echo out > /sys/class/gpio/gpio$g/direction; done; while :; do echo 0 > /sys/class/gpio/gpio2/value; echo 1 > /sys/class/gpio/gpio9/value; sleep 0.25; echo 1 > /sys/class/gpio/gpio2/value; echo 0 > /sys/class/gpio/gpio9/value; sleep 0.25; done";

/// The command that starts the light's loop, detached from the shell.
pub fn blink() -> (out: String)
    ensures
        out@ == "setsid sh -c '"@ + BLINK_LOOP@ + "' </dev/null >/dev/null 2>&1 &"@,
{
    let mut out = "setsid sh -c '".to_owned();
    out.append(BLINK_LOOP);
    out.append("' </dev/null >/dev/null 2>&1 &");
    out
}

/// The command that stops the light's loop by its number and goes back to the steady light.
pub fn unblink() -> (r: &'static str)
    ensures
        r@ == "kill $(cat /tmp/livi-blink.pid 2>/dev/null) 2>/dev/null; rm -f /tmp/livi-blink.pid; echo 1 > /sys/class/gpio/gpio9/value 2>/dev/null; echo 0 > /sys/class/gpio/gpio2/value 2>/dev/null"@,
{
    "kill $(cat /tmp/livi-blink.pid 2>/dev/null) 2>/dev/null; rm -f /tmp/livi-blink.pid; echo 1 > /sys/class/gpio/gpio9/value 2>/dev/null; echo 0 > /sys/class/gpio/gpio2/value 2>/dev/null"
}

/// The command that asks whether the dongle still boots the vendor's script.
pub fn stock_question() -> (out: String)
    ensures
        out@ == "grep -q '"@ + BRINGUP_MARKER@ + "' "@ + BRINGUP_REMOTE@ + " 2>/dev/null && echo ours || echo stock"@,
{
    let mut out = "grep -q '".to_owned();
    out.append(BRINGUP_MARKER);
    out.append("' ");
    out.append(BRINGUP_REMOTE);
    out.append(" 2>/dev/null && echo ours || echo stock");
    out
}

/// Whether the dongle still boots the vendor's script, by what it answered.
pub fn is_stock(answer: &str) -> (r: bool)
    ensures
        r == (trim(answer@) == "stock"@),
{
    same_text(trim_str(answer), "stock")
}

/// The version on the dongle, if it carries one, by what its version file says.
pub fn installed_version(answer: &str) -> (r: Option<String>)
    ensures
        match r {
            Some(v) => v@ == trim(answer@) && v@.len() > 0,
            None => trim(answer@).len() == 0,
        },
{
    let t = trim_str(answer);
    if t.is_empty() { None } else { Some(t.to_owned()) }
}

/// What an installation would be called.
#[derive(PartialEq, Eq, Clone, Copy, Structural, Debug)]
pub enum Action {
    Install,
    Update,
}

impl Action {
    pub open spec fn words(self) -> Seq<char> {
        match self {
            Action::Install => "install"@,
            Action::Update => "update"@,
        }
    }

    pub fn label(&self) -> (r: &'static str)
        ensures
            r@ == self.words(),
    {
        match self {
            Action::Install => "install",
            Action::Update => "update",
        }
    }
}

/// Whether the tool would change the dongle's firmware, and what that would be called. A dongle that
/// does not answer counts as stock. One whose version carries another digest is updated.
pub fn action(stock: Option<bool>, installed: &Option<String>, ours: &str) -> (r: Option<Action>)
    ensures
        r == (if stock is None || stock == Some(true) {
            Some(Action::Install)
        } else {
            match *installed {
                Some(v) => if line_parts(v@).1 != line_parts(ours@).1 { Some(Action::Update) } else { None },
                None => None,
            }
        }),
{
    let is_stock = match stock {
        Some(s) => s,
        None => true,
    };
    if is_stock {
        return Some(Action::Install);
    }
    match installed {
        Some(v) => if same_text(parts(v.as_str()).1, parts(ours).1) { None } else { Some(Action::Update) },
        None => None,
    }
}

/// What a choice on the menu asks for.
pub enum Choice {
    /// Back the stock firmware up and flash ours.
    Provision,
    /// Install over the shell at this address.
    Install(String),
    Quit,
    Refused(String),
}

/// What the menu offers for what was found.
pub open spec fn offer(d: Detected, stock_usb: bool, what: Option<Action>) -> Option<Seq<char>> {
    match d {
        Detected::V821bStock { .. } => Some("  1  provision LIVI Link (backup current firmware first)"@),
        Detected::LiviLink { .. } => Some("  1  update LIVI Link"@),
        Detected::Cpc200 { .. } => match what {
            Some(a) => Some("  1  "@ + a.words() + " LIVI Link"@),
            None => Some("  r  reinstall LIVI Link"@),
        },
        Detected::Nothing => if stock_usb { Some("  1  bootstrap + install LIVI Link (over USB)"@) } else { None },
    }
}

/// What the menu says was found.
pub fn found_line(d: &Detected, stock_usb: bool) -> (out: String)
    ensures
        out@ == (if stock_usb {
            "Detected: CPC200-CCPA (stock, on USB — no shell yet)"@
        } else {
            "Detected: "@ + d.words()
        }),
{
    if stock_usb {
        return "Detected: CPC200-CCPA (stock, on USB — no shell yet)".to_owned();
    }
    let mut out = "Detected: ".to_owned();
    out.append(d.label().as_str());
    out
}

/// What the menu offers for what was found.
pub fn offer_line(d: &Detected, stock_usb: bool, what: Option<Action>) -> (r: Option<String>)
    ensures
        match r {
            Some(s) => offer(*d, stock_usb, what) == Some(s@),
            None => offer(*d, stock_usb, what) is None,
        },
{
    match d {
        Detected::V821bStock { .. } => Some("  1  provision LIVI Link (backup current firmware first)".to_owned()),
        Detected::LiviLink { .. } => Some("  1  update LIVI Link".to_owned()),
        Detected::Cpc200 { .. } => match what {
            Some(a) => {
                let mut out = "  1  ".to_owned();
                out.append(a.label());
                out.append(" LIVI Link");
                Some(out)
            },
            None => Some("  r  reinstall LIVI Link".to_owned()),
        },
        Detected::Nothing => if stock_usb {
            Some("  1  bootstrap + install LIVI Link (over USB)".to_owned())
        } else {
            None
        },
    }
}

/// What a line asks for.
pub enum ChoiceSpec {
    Provision,
    Install(Seq<char>),
    Quit,
    Refused(Seq<char>),
}

/// What a line asks for, with what was found and what would be done to it.
pub open spec fn chosen(line: Seq<char>, d: Detected, stock_usb: bool, what: Option<Action>) -> ChoiceSpec {
    let l = trim(line);
    if l == "q"@ || l == "quit"@ || l == ""@ {
        ChoiceSpec::Quit
    } else if l == "1"@ && d is V821bStock {
        ChoiceSpec::Provision
    } else if l == "1"@ && d is Cpc200 {
        if what is Some { ChoiceSpec::Install(d->host@) } else { ChoiceSpec::Refused("nothing to install"@) }
    } else if l == "r"@ && d is Cpc200 {
        if what is None { ChoiceSpec::Install(d->host@) } else { ChoiceSpec::Refused("nothing to reinstall"@) }
    } else if l == "1"@ && d is Nothing && stock_usb {
        ChoiceSpec::Install(DEFAULT_HOST@)
    } else if l == "1"@ && d is LiviLink {
        ChoiceSpec::Install(DEFAULT_HOST@)
    } else {
        ChoiceSpec::Refused("no such choice: "@ + l)
    }
}

/// Whether a choice is what was expected of it.
pub open spec fn is_choice(r: Choice, want: ChoiceSpec) -> bool {
    match (r, want) {
        (Choice::Provision, ChoiceSpec::Provision) => true,
        (Choice::Install(a), ChoiceSpec::Install(b)) => a@ == b,
        (Choice::Quit, ChoiceSpec::Quit) => true,
        (Choice::Refused(a), ChoiceSpec::Refused(b)) => a@ == b,
        _ => false,
    }
}

/// Reads a choice on the menu.
pub fn menu(line: &str, d: &Detected, stock_usb: bool, what: Option<Action>) -> (r: Choice)
    ensures
        is_choice(r, chosen(line@, *d, stock_usb, what)),
{
    proof {
        reveal_strlit("q");
        reveal_strlit("quit");
        reveal_strlit("");
        reveal_strlit("1");
        reveal_strlit("r");
        assert("q"@[0] != "1"@[0] && "q"@[0] != "r"@[0]);
    }
    let l = trim_str(line);
    if same_text(l, "q") || same_text(l, "quit") || same_text(l, "") {
        return Choice::Quit;
    }
    let one = same_text(l, "1");
    let again = same_text(l, "r");
    match d {
        Detected::V821bStock { .. } => {
            if one {
                return Choice::Provision;
            }
        },
        Detected::Cpc200 { host } => {
            if one {
                return if what.is_some() {
                    Choice::Install(host.clone())
                } else {
                    Choice::Refused("nothing to install".to_owned())
                };
            }
            if again {
                return if what.is_none() {
                    Choice::Install(host.clone())
                } else {
                    Choice::Refused("nothing to reinstall".to_owned())
                };
            }
        },
        Detected::LiviLink { .. } => {
            if one {
                return Choice::Install(DEFAULT_HOST.to_owned());
            }
        },
        Detected::Nothing => {
            if one && stock_usb {
                return Choice::Install(DEFAULT_HOST.to_owned());
            }
        },
    }
    let mut why = "no such choice: ".to_owned();
    why.append(l);
    Choice::Refused(why)
}

/// A step of an installation. Each one is done outside, and its answer picks the next.
#[derive(PartialEq, Eq, Clone, Copy, Structural, Debug)]
pub enum Step {
    /// Does the dongle have a shell?
    LookForShell,
    /// Write the bootstrap over USB.
    WriteBootstrap,
    /// Have the dongle unplugged and plugged in again.
    AskReplug,
    WaitForShell,
    /// Is the bootstrap still on the dongle?
    LookForHook,
    /// Take the bootstrap out again, so that a backup is the dongle's own.
    RemoveHook,
    /// From here on the dongle must not be unplugged, and says so.
    StartBlinking,
    /// Does the dongle still boot the vendor's script?
    LookForStock,
    Backup,
    /// Strip, install and start.
    Apply,
    StopBlinking,
    Reboot,
    WaitForLink,
    Verify,
    Done,
    Failed,
}

/// The step after another, by its answer: yes and no for a question, done and failed for the rest.
pub open spec fn follows(s: Step, yes: bool) -> Step {
    match s {
        Step::LookForShell => if yes { Step::LookForHook } else { Step::WriteBootstrap },
        Step::WriteBootstrap => if yes { Step::AskReplug } else { Step::Failed },
        Step::AskReplug => if yes { Step::WaitForShell } else { Step::Failed },
        Step::WaitForShell => if yes { Step::LookForHook } else { Step::Failed },
        Step::LookForHook => if yes { Step::RemoveHook } else { Step::StartBlinking },
        Step::RemoveHook => if yes { Step::StartBlinking } else { Step::Failed },
        Step::StartBlinking => Step::LookForStock,
        Step::LookForStock => if yes { Step::Backup } else { Step::Apply },
        Step::Backup => if yes { Step::Apply } else { Step::Failed },
        Step::Apply => if yes { Step::StopBlinking } else { Step::Failed },
        Step::StopBlinking => Step::Reboot,
        Step::Reboot => if yes { Step::WaitForLink } else { Step::Failed },
        Step::WaitForLink => if yes { Step::Verify } else { Step::Failed },
        Step::Verify => if yes { Step::Done } else { Step::Failed },
        Step::Done => Step::Done,
        Step::Failed => Step::Failed,
    }
}

/// The step after another, by what came of it: the answer, or nothing where it failed with an error.
/// The dongle either takes a connection or does not, and the lights are not waited for, so those
/// steps never end an installation. Every other error does.
pub open spec fn answered(s: Step, answer: Option<bool>) -> Step {
    match answer {
        Some(yes) => follows(s, yes),
        None => match s {
            Step::LookForShell => follows(s, false),
            Step::StartBlinking => follows(s, true),
            Step::StopBlinking => follows(s, true),
            Step::Done => Step::Done,
            _ => Step::Failed,
        },
    }
}

fn step_after(s: Step, yes: bool) -> (r: Step)
    ensures
        r == follows(s, yes),
{
    match s {
        Step::LookForShell => if yes { Step::LookForHook } else { Step::WriteBootstrap },
        Step::WriteBootstrap => if yes { Step::AskReplug } else { Step::Failed },
        Step::AskReplug => if yes { Step::WaitForShell } else { Step::Failed },
        Step::WaitForShell => if yes { Step::LookForHook } else { Step::Failed },
        Step::LookForHook => if yes { Step::RemoveHook } else { Step::StartBlinking },
        Step::RemoveHook => if yes { Step::StartBlinking } else { Step::Failed },
        Step::StartBlinking => Step::LookForStock,
        Step::LookForStock => if yes { Step::Backup } else { Step::Apply },
        Step::Backup => if yes { Step::Apply } else { Step::Failed },
        Step::Apply => if yes { Step::StopBlinking } else { Step::Failed },
        Step::StopBlinking => Step::Reboot,
        Step::Reboot => if yes { Step::WaitForLink } else { Step::Failed },
        Step::WaitForLink => if yes { Step::Verify } else { Step::Failed },
        Step::Verify => if yes { Step::Done } else { Step::Failed },
        Step::Done => Step::Done,
        Step::Failed => Step::Failed,
    }
}

/// The next step of an installation, by what came of the one before: a shell if the dongle has none,
/// then the backup while the dongle is untouched, then the install, the restart and the check. A
/// step that failed with an error ends it.
pub fn install(s: Step, answer: Option<bool>) -> (r: Step)
    ensures
        r == answered(s, answer),
{
    match answer {
        Some(yes) => step_after(s, yes),
        None => match s {
            Step::LookForShell => step_after(s, false),
            Step::StartBlinking => step_after(s, true),
            Step::StopBlinking => step_after(s, true),
            Step::Done => Step::Done,
            _ => Step::Failed,
        },
    }
}

/// What an installation that ended badly without an error of its own is told.
pub const NOT_BACK: &'static str = "the dongle did not come back as expected";

/// What an installation came to, once it ended: the error of the step that failed, or that the
/// dongle did not pass the check.
pub fn install_result(s: Step, error: Option<String>) -> (r: Option<Result<(), String>>)
    ensures
        match r {
            None => s != Step::Done && s != Step::Failed,
            Some(Ok(())) => s == Step::Done,
            Some(Err(why)) => s == Step::Failed && why@ == (match error {
                Some(e) => e@,
                None => NOT_BACK@,
            }),
        },
{
    match s {
        Step::Done => Some(Ok(())),
        Step::Failed => match error {
            Some(e) => Some(Err(e)),
            None => Some(Err(NOT_BACK.to_owned())),
        },
        _ => None,
    }
}

/// A dongle whose original is not saved is never stripped: it is stripped only behind a backup that
/// worked, or where it was found to be no longer stock. One that could not be asked is left alone.
pub proof fn nothing_is_stripped_without_a_backup(s: Step, answer: Option<bool>)
    ensures
        answered(s, answer) == Step::Apply ==> (s == Step::Backup && answer == Some(true))
            || (s == Step::LookForStock && answer == Some(false)),
        answered(Step::LookForStock, Some(true)) == Step::Backup,
        answered(Step::LookForStock, None) == Step::Failed,
        answered(Step::Backup, None) == Step::Failed,
{
}

/// An installation ends well only behind an install that worked and a check that passed, and is done
/// within fifteen steps.
pub proof fn an_installation_ends(s: Step, answer: Option<bool>)
    ensures
        answered(s, answer) == Step::Done ==> s == Step::Done || (s == Step::Verify && answer == Some(true)),
        answered(s, answer) == Step::StopBlinking ==> s == Step::Apply && answer == Some(true),
        answered(s, answer) == Step::Verify ==> s == Step::WaitForLink && answer == Some(true),
        answered(s, answer) == Step::WaitForLink ==> s == Step::Reboot && answer == Some(true),
        answered(s, answer) == Step::Reboot ==> s == Step::StopBlinking,
        s != Step::Done && s != Step::Failed ==> steps_left(answered(s, answer)) < steps_left(s),
{
}

/// How many steps are left at most.
pub open spec fn steps_left(s: Step) -> nat {
    match s {
        Step::LookForShell => 15,
        Step::WriteBootstrap => 14,
        Step::AskReplug => 13,
        Step::WaitForShell => 12,
        Step::LookForHook => 11,
        Step::RemoveHook => 10,
        Step::StartBlinking => 9,
        Step::LookForStock => 8,
        Step::Backup => 7,
        Step::Apply => 6,
        Step::StopBlinking => 5,
        Step::Reboot => 4,
        Step::WaitForLink => 3,
        Step::Verify => 2,
        Step::Done => 0,
        Step::Failed => 0,
    }
}

/// What a command line asks for.
pub enum Command {
    Menu,
    Plan,
    Apply { reboot: bool },
    Verify,
    Backup(Option<String>),
    Push { local: String, remote: String },
    Bootstrap,
    Sh(String),
    Detect,
    UsbScan,
    V821b(Sub),
    /// Said when the arguments of a command are wrong.
    Wrong(&'static str),
    Usage,
}

/// What is asked of a V821B.
pub enum Sub {
    Detect,
    InstallShell,
    VerifyHw,
    Selftest(u64),
    Backup(Option<String>),
    Flash(String),
    Provision(Option<String>),
}

pub const PUSH_USAGE: &'static str = "usage: push <local> <remote>";
pub const FLASH_USAGE: &'static str = "usage: v821b flash <path.lfwb>";
pub const V821B_USAGE: &'static str = "v821b: detect | install-shell | verify-hw | selftest [N] | backup [dir] | flash <lfwb> | provision [lfwb]";

/// How the tool is used.
pub fn usage() -> (r: &'static str)
    ensures
        r@ == "usage: livi-link-provision plan | apply [--reboot] | verify | backup [dir] | push <local> <remote> | sh 'CMD'"@,
{
    "usage: livi-link-provision plan | apply [--reboot] | verify | backup [dir] | push <local> <remote> | sh 'CMD'"
}

/// Whether an optional text is an argument of a place.
pub open spec fn is_arg(v: Option<String>, args: Seq<Seq<char>>, i: int) -> bool {
    match v {
        Some(s) => i < args.len() && s@ == args[i],
        None => i >= args.len(),
    }
}

/// How many bytes a self test sends.
pub open spec fn selftest_size(args: Seq<Seq<char>>) -> int {
    if args.len() > 2 && unsigned(args[2], 10, u64::MAX as int) is Some {
        unsigned(args[2], 10, u64::MAX as int)->0
    } else {
        3211264
    }
}

/// What is asked of a V821B, by the arguments.
pub open spec fn is_sub(c: Command, args: Seq<Seq<char>>) -> bool {
    let name = if args.len() > 1 { args[1] } else { Seq::empty() };
    if name == "detect"@ {
        c == Command::V821b(Sub::Detect)
    } else if name == "install-shell"@ {
        c == Command::V821b(Sub::InstallShell)
    } else if name == "verify-hw"@ {
        c == Command::V821b(Sub::VerifyHw)
    } else if name == "selftest"@ {
        c matches Command::V821b(Sub::Selftest(n)) && n == selftest_size(args)
    } else if name == "backup"@ {
        c matches Command::V821b(Sub::Backup(d)) && is_arg(d, args, 2)
    } else if name == "flash"@ {
        if args.len() > 2 {
            c matches Command::V821b(Sub::Flash(p)) && p@ == args[2]
        } else {
            c matches Command::Wrong(w) && w@ == FLASH_USAGE@
        }
    } else if name == "provision"@ {
        c matches Command::V821b(Sub::Provision(p)) && is_arg(p, args, 2)
    } else {
        c matches Command::Wrong(w) && w@ == V821B_USAGE@
    }
}

/// What a command line asks for, by its arguments.
pub open spec fn is_command(c: Command, args: Seq<Seq<char>>) -> bool {
    if args.len() == 0 {
        c is Menu
    } else if args[0] == "plan"@ {
        c is Plan
    } else if args[0] == "apply"@ {
        c == (Command::Apply { reboot: args.contains("--reboot"@) })
    } else if args[0] == "verify"@ {
        c is Verify
    } else if args[0] == "backup"@ {
        c matches Command::Backup(d) && is_arg(d, args, 1)
    } else if args[0] == "push"@ {
        if args.len() == 3 {
            c matches Command::Push { local, remote } && local@ == args[1] && remote@ == args[2]
        } else {
            c matches Command::Wrong(w) && w@ == PUSH_USAGE@
        }
    } else if args[0] == "bootstrap"@ {
        c is Bootstrap
    } else if args[0] == "sh"@ {
        c matches Command::Sh(cmd) && cmd@ == join(args.skip(1), " "@)
    } else if args[0] == "detect"@ {
        c is Detect
    } else if args[0] == "usbscan"@ {
        c is UsbScan
    } else if args[0] == "v821b"@ {
        is_sub(c, args)
    } else {
        c is Usage
    }
}

fn arg(args: &Vec<String>, i: usize) -> (r: Option<String>)
    ensures
        is_arg(r, views(args@), i as int),
{
    if i < args.len() {
        assert(views(args@)[i as int] == args@[i as int]@);
        Some(args[i].clone())
    } else {
        None
    }
}

fn sub_command(args: &Vec<String>) -> (c: Command)
    ensures
        is_sub(c, views(args@)),
{
    let ghost all = views(args@);
    let name = if args.len() > 1 {
        assert(all[1] == args@[1]@);
        args[1].clone()
    } else {
        String::new()
    };
    let n = name.as_str();
    if same_text(n, "detect") {
        Command::V821b(Sub::Detect)
    } else if same_text(n, "install-shell") {
        Command::V821b(Sub::InstallShell)
    } else if same_text(n, "verify-hw") {
        Command::V821b(Sub::VerifyHw)
    } else if same_text(n, "selftest") {
        let size: u64 = if args.len() > 2 {
            assert(all[2] == args@[2]@);
            match read_unsigned(args[2].as_str(), 10, u64::MAX) {
                Some(v) => v,
                None => 3211264,
            }
        } else {
            3211264
        };
        Command::V821b(Sub::Selftest(size))
    } else if same_text(n, "backup") {
        Command::V821b(Sub::Backup(arg(args, 2)))
    } else if same_text(n, "flash") {
        match arg(args, 2) {
            Some(p) => Command::V821b(Sub::Flash(p)),
            None => Command::Wrong(FLASH_USAGE),
        }
    } else if same_text(n, "provision") {
        Command::V821b(Sub::Provision(arg(args, 2)))
    } else {
        Command::Wrong(V821B_USAGE)
    }
}

/// Reads a command line.
pub fn command(args: &Vec<String>) -> (c: Command)
    ensures
        is_command(c, views(args@)),
{
    let ghost all = views(args@);
    if args.len() == 0 {
        return Command::Menu;
    }
    assert(all[0] == args@[0]@);
    let n = args[0].as_str();
    if same_text(n, "plan") {
        Command::Plan
    } else if same_text(n, "apply") {
        Command::Apply { reboot: crate::names::holds(args, "--reboot") }
    } else if same_text(n, "verify") {
        Command::Verify
    } else if same_text(n, "backup") {
        Command::Backup(arg(args, 1))
    } else if same_text(n, "push") {
        if args.len() == 3 {
            assert(all[1] == args@[1]@ && all[2] == args@[2]@);
            Command::Push { local: args[1].clone(), remote: args[2].clone() }
        } else {
            Command::Wrong(PUSH_USAGE)
        }
    } else if same_text(n, "bootstrap") {
        Command::Bootstrap
    } else if same_text(n, "sh") {
        let mut rest: Vec<String> = Vec::new();
        let mut i: usize = 1;
        while i < args.len()
            invariant
                1 <= i <= args@.len(),
                all == views(args@),
                rest@.len() == i - 1,
                forall|j: int| 0 <= j < i - 1 ==> (#[trigger] rest@[j])@ == all[j + 1],
            decreases args@.len() - i,
        {
            assert(all[i as int] == args@[i as int]@);
            rest.push(args[i].clone());
            i += 1;
        }
        assert(views(rest@) =~= all.skip(1));
        Command::Sh(joined(&rest, " "))
    } else if same_text(n, "detect") {
        Command::Detect
    } else if same_text(n, "usbscan") {
        Command::UsbScan
    } else if same_text(n, "v821b") {
        sub_command(args)
    } else {
        Command::Usage
    }
}

/// A path with another behind it.
pub open spec fn path_join(a: Seq<char>, b: Seq<char>) -> Seq<char> {
    if a.len() == 0 {
        b
    } else if a.last() == '/' {
        a + b
    } else {
        a + "/"@ + b
    }
}

fn join_path(a: &str, b: &str) -> (out: String)
    ensures
        out@ == path_join(a@, b@),
{
    let n: usize = a.unicode_len();
    if n == 0 {
        return b.to_owned();
    }
    let mut out = a.to_owned();
    if a.get_char(n - 1) != '/' {
        out.append("/");
    }
    out.append(b);
    out
}

/// Where backups go when no directory is given: the app's own folder, the one that also carries
/// its configuration.
pub fn backup_dir(home: Option<&str>, data_home: Option<&str>, macos: bool) -> (out: String)
    ensures
        ({
            let h = match home {
                Some(h) => h@,
                None => "."@,
            };
            out@ == path_join(
                if macos {
                    path_join(h, "Library/Application Support/LIVI/backup"@)
                } else {
                    path_join(
                        match data_home {
                            Some(d) => d@,
                            None => path_join(h, ".local/share"@),
                        },
                        "LIVI"@,
                    )
                },
                "dongle-backup"@,
            )
        }),
{
    let h = match home {
        Some(h) => h,
        None => ".",
    };
    let base = if macos {
        join_path(h, "Library/Application Support/LIVI/backup")
    } else {
        let data = match data_home {
            Some(d) => d.to_owned(),
            None => join_path(h, ".local/share"),
        };
        join_path(data.as_str(), "LIVI")
    };
    join_path(base.as_str(), "dongle-backup")
}

/// A size in KiB as text.
pub open spec fn kib_text(v: Option<u64>) -> Seq<char> {
    match v {
        Some(k) => dec(k as nat) + "K"@,
        None => "unknown"@,
    }
}

/// A size in KiB as text.
pub fn kib(v: Option<u64>) -> (out: String)
    ensures
        out@ == kib_text(v),
{
    match v {
        Some(k) => {
            let mut out = decimal(k);
            out.append("K");
            out
        },
        None => "unknown".to_owned(),
    }
}

/// The KiB a plan deletes.
pub open spec fn raw_sum(list: Seq<(String, u64)>) -> nat
    decreases list.len(),
{
    if list.len() == 0 { 0 } else { raw_sum(list.drop_last()) + (list.last().1 / 1024) as nat }
}

proof fn raw_grows(list: Seq<(String, u64)>, k: int)
    requires
        0 <= k <= list.len(),
    ensures
        raw_sum(list.take(k)) <= raw_sum(list),
    decreases list.len() - k,
{
    if k < list.len() {
        raw_grows(list.drop_last(), k);
        assert(list.drop_last().take(k) =~= list.take(k));
    } else {
        assert(list.take(k) =~= list);
    }
}

/// The lines for what a plan deletes.
pub open spec fn delete_lines(list: Seq<(String, u64)>) -> Seq<Seq<char>> {
    Seq::new(
        list.len(),
        |i: int| "   "@ + gap(dec((list[i].1 / 1024) as nat), 8) + dec((list[i].1 / 1024) as nat) + "K  "@ + list[i].0@,
    )
}

/// The lines for the libraries a plan keeps.
pub open spec fn keep_lines(list: Seq<Seq<char>>) -> Seq<Seq<char>> {
    if list.len() == 0 {
        Seq::empty()
    } else {
        seq!["== ballast libs kept — referenced by a kept ELF:"@]
            + Seq::new(list.len(), |i: int| "   keep      "@ + list[i])
    }
}

/// How a status is called.
pub open spec fn status_text(s: Status) -> Seq<char> {
    match s {
        Status::Current => "ok"@,
        Status::Update => "update"@,
        Status::Install => "install"@,
    }
}

/// The lines for the files of a plan.
pub open spec fn file_lines(files: Seq<crate::provision::FileState>) -> Seq<Seq<char>> {
    Seq::new(
        files.len(),
        |i: int| "   "@ + status_text(files[i].status) + gap(status_text(files[i].status), 7) + " "@
            + gap(dec((files[i].bytes / 1024) as nat), 7) + dec((files[i].bytes / 1024) as nat) + "K  "@
            + files[i].remote@,
    )
}

/// How many files still have to be pushed.
pub open spec fn todo_count(files: Seq<crate::provision::FileState>) -> nat
    decreases files.len(),
{
    if files.len() == 0 {
        0
    } else {
        todo_count(files.drop_last()) + (if files.last().status == Status::Current { 0nat } else { 1nat })
    }
}

/// What is printed of a plan.
pub open spec fn plan_text(p: Plan) -> Seq<Seq<char>> {
    seq![
        "== dongle: "@ + p.identity@,
        "== rootfs free: "@ + kib_text(p.free_k),
        "== ballast to delete ("@ + dec(p.delete@.len()) + " files, "@ + dec(raw_sum(p.delete@)) + "K raw):"@,
    ] + delete_lines(p.delete@) + keep_lines(views(p.keep_libs@)) + seq!["== files:"@] + file_lines(p.files@)
        + seq!["== to push: "@ + dec(todo_count(p.files@)) + " files, "@ + dec(push_sum(p.files@)) + "K"@]
}

fn put_line(out: &mut Vec<String>, line: String)
    ensures
        views(final(out)@) == views(old(out)@) + seq![line@],
{
    let ghost before = views(out@);
    let ghost text = line@;
    out.push(line);
    assert(views(out@) =~= before + seq![text]);
}

fn put_deletions(out: &mut Vec<String>, list: &Vec<(String, u64)>)
    ensures
        views(final(out)@) == views(old(out)@) + delete_lines(list@),
{
    let ghost start = views(out@);
    let ghost all = delete_lines(list@);
    let mut i: usize = 0;
    assert(views(out@) =~= start + all.take(0));
    while i < list.len()
        invariant
            i <= list@.len(),
            all == delete_lines(list@),
            views(out@) == start + all.take(i as int),
        decreases list@.len() - i,
    {
        let mut line = "   ".to_owned();
        put_right(&mut line, decimal(list[i].1 / 1024).as_str(), 8);
        line.append("K  ");
        line.append(list[i].0.as_str());
        assert(line@ == all[i as int]);
        put_line(out, line);
        i += 1;
        assert(views(out@) =~= start + all.take(i as int));
    }
    assert(all.take(i as int) =~= all);
}

fn put_kept(out: &mut Vec<String>, list: &Vec<String>)
    ensures
        views(final(out)@) == views(old(out)@) + keep_lines(views(list@)),
{
    let ghost start = views(out@);
    let ghost names = views(list@);
    if list.len() == 0 {
        assert(views(out@) =~= start + keep_lines(names));
        return;
    }
    put_line(out, "== ballast libs kept — referenced by a kept ELF:".to_owned());
    let ghost mid = views(out@);
    let ghost all = Seq::new(names.len(), |i: int| "   keep      "@ + names[i]);
    let mut i: usize = 0;
    assert(views(out@) =~= mid + all.take(0));
    while i < list.len()
        invariant
            i <= list@.len(),
            names == views(list@),
            all == Seq::new(names.len(), |i: int| "   keep      "@ + names[i]),
            views(out@) == mid + all.take(i as int),
        decreases list@.len() - i,
    {
        assert(names[i as int] == list@[i as int]@);
        let mut line = "   keep      ".to_owned();
        line.append(list[i].as_str());
        assert(line@ == all[i as int]);
        put_line(out, line);
        i += 1;
        assert(views(out@) =~= mid + all.take(i as int));
    }
    assert(all.take(i as int) =~= all);
    assert(views(out@) =~= start + keep_lines(names));
}

fn put_files(out: &mut Vec<String>, files: &Vec<crate::provision::FileState>)
    ensures
        views(final(out)@) == views(old(out)@) + file_lines(files@),
{
    let ghost start = views(out@);
    let ghost all = file_lines(files@);
    let mut i: usize = 0;
    assert(views(out@) =~= start + all.take(0));
    while i < files.len()
        invariant
            i <= files@.len(),
            all == file_lines(files@),
            views(out@) == start + all.take(i as int),
        decreases files@.len() - i,
    {
        let mut line = "   ".to_owned();
        put_left(&mut line, files[i].status.label(), 7);
        line.append(" ");
        put_right(&mut line, decimal((files[i].bytes / 1024) as u64).as_str(), 7);
        line.append("K  ");
        line.append(files[i].remote.as_str());
        assert(line@ == all[i as int]);
        put_line(out, line);
        i += 1;
        assert(views(out@) =~= start + all.take(i as int));
    }
    assert(all.take(i as int) =~= all);
}

/// What is printed of a plan: the dongle, its free space, what goes, what stays of it, and the
/// files with how they compare.
pub fn print_plan(p: &Plan) -> (out: Vec<String>)
    requires
        push_sum(p.files@) <= u64::MAX,
        raw_sum(p.delete@) <= u64::MAX,
    ensures
        views(out@) == plan_text(*p),
{
    let mut out: Vec<String> = Vec::new();
    let mut first = "== dongle: ".to_owned();
    first.append(p.identity.as_str());
    let mut second = "== rootfs free: ".to_owned();
    second.append(kib(p.free_k).as_str());
    let mut raw: u64 = 0;
    let mut i: usize = 0;
    while i < p.delete.len()
        invariant
            i <= p.delete@.len(),
            raw == raw_sum(p.delete@.take(i as int)),
            raw_sum(p.delete@) <= u64::MAX,
        decreases p.delete@.len() - i,
    {
        assert(p.delete@.take(i + 1).drop_last() =~= p.delete@.take(i as int));
        proof {
            raw_grows(p.delete@, i + 1);
        }
        raw += p.delete[i].1 / 1024;
        i += 1;
    }
    assert(p.delete@.take(i as int) =~= p.delete@);
    let mut third = "== ballast to delete (".to_owned();
    put_dec(&mut third, p.delete.len() as u64);
    third.append(" files, ");
    put_dec(&mut third, raw);
    third.append("K raw):");
    let ghost (a, b, c) = (first@, second@, third@);
    out.push(first);
    out.push(second);
    out.push(third);
    assert(views(out@) =~= seq![a, b, c]);
    put_deletions(&mut out, &p.delete);
    put_kept(&mut out, &p.keep_libs);
    put_line(&mut out, "== files:".to_owned());
    put_files(&mut out, &p.files);
    let mut todo: usize = 0;
    let mut k: usize = 0;
    while k < p.files.len()
        invariant
            k <= p.files@.len(),
            todo <= k,
            todo == todo_count(p.files@.take(k as int)),
        decreases p.files@.len() - k,
    {
        assert(p.files@.take(k + 1).drop_last() =~= p.files@.take(k as int));
        if p.files[k].status != Status::Current {
            todo += 1;
        }
        k += 1;
    }
    assert(p.files@.take(k as int) =~= p.files@);
    let mut last = "== to push: ".to_owned();
    put_dec(&mut last, todo as u64);
    last.append(" files, ");
    put_dec(&mut last, p.push_k());
    last.append("K");
    put_line(&mut out, last);
    out
}

/// The lines for the checks of a report.
pub open spec fn check_lines(checks: Seq<crate::provision::Check>) -> Seq<Seq<char>> {
    Seq::new(
        checks.len(),
        |i: int| "   "@ + (if checks[i].ok { "ok "@ } else { "BAD"@ }) + "  "@ + checks[i].what@,
    )
}

/// What is printed of a report.
pub open spec fn report_text(r: Report) -> Seq<Seq<char>> {
    check_lines(r.checks@)
        + seq!["   pair records: "@ + (if r.pair_records@.len() == 0 { "(none)"@ } else { r.pair_records@ })]
        + seq!["   rootfs free: "@ + kib_text(r.free_k)]
        + seq![if (forall|i: int| 0 <= i < r.checks@.len() ==> (#[trigger] r.checks@[i]).ok) {
            "== VERIFIED"@
        } else {
            "== PROBLEMS — see BAD lines above"@
        }]
}

/// What is printed of a report: every check, the pair records, the free space, and the verdict.
pub fn print_report(r: &Report) -> (out: Vec<String>)
    ensures
        views(out@) == report_text(*r),
{
    let mut out: Vec<String> = Vec::new();
    let ghost all = check_lines(r.checks@);
    let mut i: usize = 0;
    assert(views(out@) =~= all.take(0));
    while i < r.checks.len()
        invariant
            i <= r.checks@.len(),
            all == check_lines(r.checks@),
            views(out@) == all.take(i as int),
        decreases r.checks@.len() - i,
    {
        let mut line = "   ".to_owned();
        line.append(if r.checks[i].ok { "ok " } else { "BAD" });
        line.append("  ");
        line.append(r.checks[i].what.as_str());
        assert(line@ == all[i as int]);
        put_line(&mut out, line);
        i += 1;
        assert(views(out@) =~= all.take(i as int));
    }
    assert(all.take(i as int) =~= all);
    let mut pairs = "   pair records: ".to_owned();
    if r.pair_records.as_str().is_empty() {
        pairs.append("(none)");
    } else {
        pairs.append(r.pair_records.as_str());
    }
    put_line(&mut out, pairs);
    let mut free = "   rootfs free: ".to_owned();
    free.append(kib(r.free_k).as_str());
    put_line(&mut out, free);
    let verdict = if r.ok() { "== VERIFIED".to_owned() } else { "== PROBLEMS — see BAD lines above".to_owned() };
    put_line(&mut out, verdict);
    out
}

/// A step of flashing a V821B. Each one is done outside, and its answer picks the next.
#[derive(PartialEq, Eq, Clone, Copy, Structural, Debug)]
pub enum FlashStep {
    InstallShell,
    Connect,
    /// Is it the hardware the firmware is for?
    VerifyHardware,
    Backup,
    Flash,
    Done,
    Failed,
}

/// The step after another, by whether it worked.
pub open spec fn flash_follows(s: FlashStep, ok: bool) -> FlashStep {
    if !ok {
        if s == FlashStep::Done { FlashStep::Done } else { FlashStep::Failed }
    } else {
        match s {
            FlashStep::InstallShell => FlashStep::Connect,
            FlashStep::Connect => FlashStep::VerifyHardware,
            FlashStep::VerifyHardware => FlashStep::Backup,
            FlashStep::Backup => FlashStep::Flash,
            FlashStep::Flash => FlashStep::Done,
            FlashStep::Done => FlashStep::Done,
            FlashStep::Failed => FlashStep::Failed,
        }
    }
}

/// The next step of flashing a V821B.
pub fn flash_step(s: FlashStep, ok: bool) -> (r: FlashStep)
    ensures
        r == flash_follows(s, ok),
{
    if !ok {
        return if s == FlashStep::Done { FlashStep::Done } else { FlashStep::Failed };
    }
    match s {
        FlashStep::InstallShell => FlashStep::Connect,
        FlashStep::Connect => FlashStep::VerifyHardware,
        FlashStep::VerifyHardware => FlashStep::Backup,
        FlashStep::Backup => FlashStep::Flash,
        FlashStep::Flash => FlashStep::Done,
        FlashStep::Done => FlashStep::Done,
        FlashStep::Failed => FlashStep::Failed,
    }
}

/// A V821B is flashed only behind a backup that worked, and backed up only once its hardware was
/// found to be right.
pub proof fn nothing_is_flashed_without_a_backup(s: FlashStep, ok: bool)
    ensures
        flash_follows(s, ok) == FlashStep::Flash ==> s == FlashStep::Backup && ok,
        flash_follows(s, ok) == FlashStep::Backup ==> s == FlashStep::VerifyHardware && ok,
{
}

/// What the menu offers is what it takes: the first choice does something exactly where it is offered,
/// the reinstallation exactly where that is offered instead, and nothing else is a choice.
pub proof fn what_is_offered_is_taken(d: Detected, stock_usb: bool, what: Option<Action>, line: Seq<char>)
    ensures
        ({
            let first = chosen("1"@, d, stock_usb, what);
            let again = chosen("r"@, d, stock_usb, what);
            &&& first is Provision <==> d is V821bStock
            &&& first is Install || first is Provision <==> offer(d, stock_usb, what) is Some && !(d is Cpc200 && what is None)
            &&& again is Install <==> d is Cpc200 && what is None
            &&& d is Cpc200 && first is Install ==> first->Install_0 == d->host@
            &&& d is Cpc200 && again is Install ==> again->Install_0 == d->host@
            &&& !(d is Cpc200) && first is Install ==> first->Install_0 == DEFAULT_HOST@
            &&& !(first is Quit) && !(again is Quit) && !(again is Provision)
            &&& trim(line) == "1"@ ==> chosen(line, d, stock_usb, what) == first
            &&& trim(line) == "r"@ ==> chosen(line, d, stock_usb, what) == again
            &&& trim(line) != "1"@ && trim(line) != "r"@ ==> chosen(line, d, stock_usb, what) is Quit
                || chosen(line, d, stock_usb, what) is Refused
            &&& chosen(line, d, stock_usb, what) is Quit <==> trim(line).len() == 0 || trim(line) == "q"@ || trim(line) == "quit"@
        }),
{
    reveal_strlit("1");
    reveal_strlit("r");
    reveal_strlit("q");
    reveal_strlit("quit");
    reveal_strlit("");
    assert("1"@[0] == '1' && "r"@[0] == 'r' && "q"@[0] == 'q' && "quit"@.len() == 4);
    crate::text::untouched("1"@);
    crate::text::untouched("r"@);
    if trim(line).len() == 0 {
        assert(trim(line) =~= ""@);
    }
}

/// An installation in which everything goes well: the shell is brought up where it is missing, the
/// bootstrap is taken out where it is found, and the original is saved where it is still there.
pub proof fn how_an_installation_goes(yes: Option<bool>)
    ensures
        answered(Step::LookForShell, Some(true)) == Step::LookForHook,
        answered(Step::LookForShell, Some(false)) == Step::WriteBootstrap,
        answered(Step::LookForShell, None) == Step::WriteBootstrap,
        answered(Step::WriteBootstrap, Some(true)) == Step::AskReplug,
        answered(Step::AskReplug, Some(true)) == Step::WaitForShell,
        answered(Step::WaitForShell, Some(true)) == Step::LookForHook,
        answered(Step::LookForHook, Some(true)) == Step::RemoveHook,
        answered(Step::LookForHook, Some(false)) == Step::StartBlinking,
        answered(Step::RemoveHook, Some(true)) == Step::StartBlinking,
        answered(Step::StartBlinking, yes) == Step::LookForStock,
        answered(Step::LookForStock, Some(true)) == Step::Backup,
        answered(Step::LookForStock, Some(false)) == Step::Apply,
        answered(Step::Backup, Some(true)) == Step::Apply,
        answered(Step::Apply, Some(true)) == Step::StopBlinking,
        answered(Step::StopBlinking, yes) == Step::Reboot,
        answered(Step::Reboot, Some(true)) == Step::WaitForLink,
        answered(Step::WaitForLink, Some(true)) == Step::Verify,
        answered(Step::Verify, Some(true)) == Step::Done,
        answered(Step::Done, yes) == Step::Done,
        answered(Step::Failed, yes) == Step::Failed,
{
}

/// A step that fails ends the installation, whichever it is, but for those that ask and those that only
/// show a light.
pub proof fn a_failed_step_ends_an_installation(s: Step)
    ensures
        s != Step::LookForShell && s != Step::LookForHook && s != Step::LookForStock && s != Step::StartBlinking
            && s != Step::StopBlinking && s != Step::Done ==> answered(s, Some(false)) == Step::Failed
            && answered(s, None) == Step::Failed,
        answered(Step::LookForHook, None) == Step::Failed,
        answered(Step::LookForStock, None) == Step::Failed,
{
}

/// A command takes its arguments from where they stand: whatever they say.
pub proof fn a_command_takes_its_arguments(c: Command, a: Seq<char>, b: Seq<char>, more: Seq<Seq<char>>)
    ensures
        is_command(c, seq!["backup"@, a] + more) ==> (c matches Command::Backup(Some(d)) && d@ == a),
        is_command(c, seq!["backup"@]) ==> c == Command::Backup(None),
        is_command(c, seq!["push"@, a, b]) ==> (c matches Command::Push { local, remote } && local@ == a && remote@ == b),
        is_command(c, seq!["sh"@] + more) ==> (c matches Command::Sh(cmd) && cmd@ == join(more, " "@)),
        is_command(c, seq!["apply"@] + more) ==> c == (Command::Apply { reboot: more.contains("--reboot"@) }),
        is_command(c, seq!["v821b"@, "backup"@, a] + more) ==> (c matches Command::V821b(Sub::Backup(Some(d))) && d@ == a),
        is_command(c, seq!["v821b"@, "flash"@, a] + more) ==> (c matches Command::V821b(Sub::Flash(p)) && p@ == a),
        is_command(c, seq!["v821b"@, "provision"@, a] + more) ==> (c matches Command::V821b(Sub::Provision(Some(p))) && p@ == a),
        is_command(c, seq!["v821b"@, "provision"@]) ==> c == Command::V821b(Sub::Provision(None)),
{
    named_apart();
    let x = seq!["backup"@, a] + more;
    assert(x[0] == "backup"@ && x[1] == a);
    let y = seq!["sh"@] + more;
    assert(y[0] == "sh"@);
    assert(y.skip(1) =~= more);
    let z = seq!["apply"@] + more;
    assert(z[0] == "apply"@);
    assert(z.contains("--reboot"@) == more.contains("--reboot"@)) by {
        reveal_strlit("--reboot");
        if more.contains("--reboot"@) {
            let k = choose|k: int| 0 <= k < more.len() && more[k] == "--reboot"@;
            assert(z[k + 1] == "--reboot"@);
        }
        if z.contains("--reboot"@) {
            let k = choose|k: int| 0 <= k < z.len() && z[k] == "--reboot"@;
            assert("apply"@.len() == 5 && "--reboot"@.len() == 8);
            assert(k > 0);
            assert(more[k - 1] == "--reboot"@);
        }
    }
    let u = seq!["v821b"@, "backup"@, a] + more;
    assert(u[0] == "v821b"@ && u[1] == "backup"@ && u[2] == a);
    let v = seq!["v821b"@, "flash"@, a] + more;
    assert(v[0] == "v821b"@ && v[1] == "flash"@ && v[2] == a);
    let w = seq!["v821b"@, "provision"@, a] + more;
    assert(w[0] == "v821b"@ && w[1] == "provision"@ && w[2] == a);
}

proof fn named_apart()
    ensures
        "plan"@.len() == 4 && "apply"@.len() == 5 && "verify"@.len() == 6 && "backup"@.len() == 6 && "push"@.len() == 4,
        "plan"@[1] == 'l' && "push"@[1] == 'u' && "verify"@[0] == 'v' && "backup"@[0] == 'b',
        "bootstrap"@.len() == 9 && "sh"@.len() == 2 && "detect"@.len() == 6 && "detect"@[0] == 'd',
        "usbscan"@.len() == 7 && "v821b"@.len() == 5 && "v821b"@[0] == 'v' && "apply"@[0] == 'a',
        "install-shell"@.len() == 13 && "verify-hw"@.len() == 9 && "selftest"@.len() == 8 && "flash"@.len() == 5,
        "provision"@.len() == 9 && "provision"@[0] == 'p' && "verify-hw"@[0] == 'v',
{
    reveal_strlit("plan");
    reveal_strlit("apply");
    reveal_strlit("verify");
    reveal_strlit("backup");
    reveal_strlit("push");
    reveal_strlit("bootstrap");
    reveal_strlit("sh");
    reveal_strlit("detect");
    reveal_strlit("usbscan");
    reveal_strlit("v821b");
    reveal_strlit("install-shell");
    reveal_strlit("verify-hw");
    reveal_strlit("selftest");
    reveal_strlit("flash");
    reveal_strlit("provision");
}

/// A self test sends as many bytes as its argument writes, and a fixed number without one that can be
/// read.
pub proof fn a_self_test_sends_what_was_asked(c: Command, n: u64, more: Seq<Seq<char>>)
    ensures
        is_command(c, seq!["v821b"@, "selftest"@, dec(n as nat)] + more) ==> c == Command::V821b(Sub::Selftest(n)),
        is_command(c, seq!["v821b"@, "selftest"@]) ==> c == Command::V821b(Sub::Selftest(3211264)),
{
    named_apart();
    let v = seq!["v821b"@, "selftest"@, dec(n as nat)] + more;
    assert(v[0] == "v821b"@ && v[1] == "selftest"@ && v[2] == dec(n as nat));
    crate::text::a_number_reads_back(n as nat, 10);
}

/// Sums over a plan go file by file: each one counts on its own, whatever stands beside it. A file that
/// is current counts nothing, any other its whole kibibytes.
pub proof fn every_file_counts_once(
    a: Seq<crate::provision::FileState>,
    f: crate::provision::FileState,
    b: Seq<crate::provision::FileState>,
)
    ensures
        todo_count(a + seq![f] + b) == todo_count(a) + (if f.status == Status::Current { 0nat } else { 1nat }) + todo_count(b),
        push_sum(a + seq![f] + b) == push_sum(a) + (if f.status == Status::Current { 0nat } else { (f.bytes / 1024) as nat })
            + push_sum(b),
        todo_count(Seq::empty()) == 0,
        push_sum(Seq::empty()) == 0,
    decreases b.len(),
{
    let s = a + seq![f] + b;
    if b.len() == 0 {
        assert(s.drop_last() =~= a);
        assert(s.last() == f);
    } else {
        every_file_counts_once(a, f, b.drop_last());
        assert(s.drop_last() =~= a + seq![f] + b.drop_last());
        assert(s.last() == b.last());
    }
}

/// What goes is summed up path by path, each with its whole kibibytes.
pub proof fn every_deletion_counts_once(a: Seq<(String, u64)>, d: (String, u64), b: Seq<(String, u64)>)
    ensures
        raw_sum(a + seq![d] + b) == raw_sum(a) + (d.1 / 1024) as nat + raw_sum(b),
        raw_sum(Seq::<(String, u64)>::empty()) == 0,
    decreases b.len(),
{
    let s = a + seq![d] + b;
    if b.len() == 0 {
        assert(s.drop_last() =~= a);
        assert(s.last() == d);
    } else {
        every_deletion_counts_once(a, d, b.drop_last());
        assert(s.drop_last() =~= a + seq![d] + b.drop_last());
        assert(s.last() == b.last());
    }
}

/// A plan is printed with a line for each path that goes and for each file, in their order, between the
/// head and the sum.
pub proof fn a_plan_is_printed_line_by_line(p: Plan, i: int)
    requires
        p.keep_libs@.len() == 0,
    ensures
        ({
            let t = plan_text(p);
            let d = p.delete@.len() as int;
            let f = p.files@.len() as int;
            &&& t.len() == 5 + d + f
            &&& t[0] == "== dongle: "@ + p.identity@
            &&& 0 <= i < d ==> crate::text::ends_with(t[3 + i], "K  "@ + p.delete@[i].0@)
            &&& 0 <= i < f ==> crate::text::ends_with(t[4 + d + i], "K  "@ + p.files@[i].remote@)
            &&& t[4 + d + f] == "== to push: "@ + dec(todo_count(p.files@)) + " files, "@ + dec(push_sum(p.files@)) + "K"@
        }),
{
    let t = plan_text(p);
    let d = p.delete@.len() as int;
    let f = p.files@.len() as int;
    assert(t.len() == 5 + d + f);
    if 0 <= i < d {
        let l = delete_lines(p.delete@)[i];
        let w = "K  "@ + p.delete@[i].0@;
        assert(t[3 + i] == l);
        assert(l.skip(l.len() - w.len()) =~= w);
    }
    if 0 <= i < f {
        let l = file_lines(p.files@)[i];
        let w = "K  "@ + p.files@[i].remote@;
        assert(t[4 + d + i] == l);
        assert(l.skip(l.len() - w.len()) =~= w);
    }
}

/// A report is good exactly where no check is bad, and names the checks in their order.
pub proof fn a_report_says_what_is_bad(r: Report, i: int)
    requires
        0 <= i < r.checks@.len(),
    ensures
        report_text(r).len() == r.checks@.len() + 3,
        report_text(r)[i] == (if r.checks@[i].ok { "   "@ + "ok "@ } else { "   "@ + "BAD"@ }) + "  "@ + r.checks@[i].what@,
        report_text(r).last() == "== VERIFIED"@ ==> r.checks@[i].ok,
{
    reveal_strlit("== VERIFIED");
    reveal_strlit("== PROBLEMS — see BAD lines above");
    assert("== VERIFIED"@[3] == 'V');
    assert("== PROBLEMS — see BAD lines above"@[3] == 'P');
}

/// A dongle that is stock or does not answer is installed. One that carries our stack is updated where its
/// digest is another one, and left alone where it is the same, whatever the release.
pub proof fn what_would_be_done(stock: Option<bool>, installed: Option<String>, ours: &str, r: Option<Action>)
    requires
        call_ensures(action, (stock, &installed, ours), r),
    ensures
        stock != Some(false) ==> r == Some(Action::Install),
        stock == Some(false) && installed is None ==> r is None,
        stock == Some(false) && installed is Some ==> (r is None <==> line_parts(installed->0@).1 == line_parts(ours@).1),
        stock == Some(false) && r is Some ==> r == Some(Action::Update),
{
    match stock {
        Some(b) => {
            assert(b || stock == Some(false));
        },
        None => {},
    }
}

} // verus!

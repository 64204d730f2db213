//! Brings a dongle that already runs our shell into the LIVI Link state: what goes, what stays,
//! what is installed, and whether it worked. What the dongle answers comes in from outside.

use vstd::prelude::*;

use crate::ballast::{wanted, wants, FILES, LIBS};
use crate::names::{holds, kept, kept_are_in_both, part, push_contains};
use crate::payload::{File, BOA_CGI, BOA_LEFTOVERS, BRINGUP_MARKER, BRINGUP_REMOTE, LIVI_DIR, OBSOLETE, STACK_PORTS, STACK_PROCESSES, STOCK_BACKUP};
use crate::text::{after_prefix, contains, dec, ends, ends_with, join, joined, put_dec, replace, replaced, same_text};
use crate::text::{starts_with, trim, trim_str, views};

verus! {

/// The dongle's fallback access point, the way back in when the USB link is gone.
pub const AP_NAME: &'static str = "LIVI Link";
/// Headroom kept free on the root file system after the stack is installed.
pub const SPACE_MARGIN_K: u64 = 256;

/// How a file on the device compares.
#[derive(PartialEq, Eq, Clone, Copy, Structural, Debug)]
pub enum Status {
    /// Already on the device with the same content.
    Current,
    Update,
    Install,
}

impl Status {
    pub fn label(&self) -> (r: &'static str)
        ensures
            r@ == (match *self {
                Status::Current => "ok"@,
                Status::Update => "update"@,
                Status::Install => "install"@,
            }),
    {
        match self {
            Status::Current => "ok",
            Status::Update => "update",
            Status::Install => "install",
        }
    }
}

/// How a file compares, by the digest the device has of it.
pub open spec fn status_of(ours: Seq<char>, theirs: Option<String>) -> Status {
    match theirs {
        Some(t) => if t@ == ours { Status::Current } else { Status::Update },
        None => Status::Install,
    }
}

pub struct FileState {
    pub remote: String,
    pub bytes: usize,
    pub status: Status,
}

pub struct Plan {
    pub identity: String,
    pub free_k: Option<u64>,
    /// Ballast to delete, with the size it frees.
    pub delete: Vec<(String, u64)>,
    /// Ballast libraries a kept binary still references.
    pub keep_libs: Vec<String>,
    pub files: Vec<FileState>,
}

/// The KiB that still have to be pushed.
pub open spec fn push_sum(files: Seq<FileState>) -> nat
    decreases files.len(),
{
    if files.len() == 0 {
        0
    } else {
        push_sum(files.drop_last()) + (if files.last().status == Status::Current {
            0
        } else {
            (files.last().bytes / 1024) as nat
        })
    }
}

impl Plan {
    /// KiB that still have to be pushed.
    pub fn push_k(&self) -> (n: u64)
        requires
            push_sum(self.files@) <= u64::MAX,
        ensures
            n == push_sum(self.files@),
    {
        let mut n: u64 = 0;
        let mut i: usize = 0;
        while i < self.files.len()
            invariant
                i <= self.files@.len(),
                n == push_sum(self.files@.take(i as int)),
                push_sum(self.files@) <= u64::MAX,
            decreases self.files@.len() - i,
        {
            assert(self.files@.take(i + 1).drop_last() =~= self.files@.take(i as int));
            proof {
                push_grows(self.files@, i + 1);
            }
            if self.files[i].status != Status::Current {
                n += (self.files[i].bytes / 1024) as u64;
            }
            i += 1;
        }
        assert(self.files@.take(i as int) =~= self.files@);
        n
    }
}

proof fn push_grows(files: Seq<FileState>, k: int)
    requires
        0 <= k <= files.len(),
    ensures
        push_sum(files.take(k)) <= push_sum(files),
    decreases files.len() - k,
{
    if k < files.len() {
        push_grows(files.drop_last(), k);
        assert(files.drop_last().take(k) =~= files.take(k));
    } else {
        assert(files.take(k) =~= files);
    }
}

pub struct Check {
    pub what: String,
    pub ok: bool,
}

pub struct Report {
    pub checks: Vec<Check>,
    pub pair_records: String,
    pub free_k: Option<u64>,
}

impl Report {
    /// Whether every check passed.
    pub fn ok(&self) -> (r: bool)
        ensures
            r == (forall|i: int| 0 <= i < self.checks@.len() ==> (#[trigger] self.checks@[i]).ok),
    {
        let mut i: usize = 0;
        while i < self.checks.len()
            invariant
                i <= self.checks@.len(),
                forall|j: int| 0 <= j < i ==> (#[trigger] self.checks@[j]).ok,
            decreases self.checks@.len() - i,
        {
            if !self.checks[i].ok {
                return false;
            }
            i += 1;
        }
        true
    }
}

/// The texts of a fixed list.
pub open spec fn texts<const N: usize>(list: [&'static str; N]) -> Seq<Seq<char>> {
    Seq::new(list@.len(), |i: int| list@[i]@)
}

fn put_all<const N: usize>(out: &mut Vec<String>, list: &[&'static str; N])
    ensures
        views(final(out)@) == views(old(out)@) + texts(*list),
{
    let ghost start = views(out@);
    let ghost all = texts(*list);
    let mut i: usize = 0;
    assert(views(out@) =~= start + all.take(0));
    while i < N
        invariant
            i <= N,
            all == texts(*list),
            all.len() == N,
            list@.len() == N,
            views(out@) == start + all.take(i as int),
        decreases N - i,
    {
        let ghost before = views(out@);
        out.push(list[i].to_owned());
        assert(views(out@) =~= before.push(all[i as int]));
        i += 1;
        assert(views(out@) =~= start + all.take(i as int));
    }
    assert(all.take(i as int) =~= all);
}

/// What goes unconditionally: the vendor daemons and our own superseded builds.
pub fn listed() -> (out: Vec<String>)
    ensures
        views(out@) == texts(FILES) + texts(OBSOLETE),
{
    let mut out: Vec<String> = Vec::new();
    put_all(&mut out, &FILES);
    put_all(&mut out, &OBSOLETE);
    assert(views(out@) =~= texts(FILES) + texts(OBSOLETE));
    out
}

/// What is not asked for the libraries it references: what goes, and the vendor libraries.
pub fn excluded() -> (out: Vec<String>)
    ensures
        views(out@) == texts(FILES) + texts(OBSOLETE) + texts(LIBS),
{
    let mut out = listed();
    put_all(&mut out, &LIBS);
    out
}

/// The vendor libraries that are referenced, or those that are not, among the first `n`.
pub open spec fn libs_where(needed: Seq<Seq<char>>, kept: bool, n: nat) -> Seq<Seq<char>>
    decreases n,
{
    if n == 0 {
        Seq::empty()
    } else if wants(needed, LIBS@[n - 1]@) == kept {
        libs_where(needed, kept, (n - 1) as nat).push(LIBS@[n - 1]@)
    } else {
        libs_where(needed, kept, (n - 1) as nat)
    }
}

/// Parts the vendor libraries into those that stay, because something kept references them, and
/// those that may go.
pub fn split_libs(needed: &Vec<String>) -> (r: (Vec<String>, Vec<String>))
    ensures
        views(r.0@) == libs_where(views(needed@), true, 20),
        views(r.1@) == libs_where(views(needed@), false, 20),
{
    let mut keep: Vec<String> = Vec::new();
    let mut droppable: Vec<String> = Vec::new();
    let mut i: usize = 0;
    assert(views(keep@) =~= libs_where(views(needed@), true, 0));
    assert(views(droppable@) =~= libs_where(views(needed@), false, 0));
    while i < 20
        invariant
            i <= 20,
            views(keep@) == libs_where(views(needed@), true, i as nat),
            views(droppable@) == libs_where(views(needed@), false, i as nat),
        decreases 20 - i,
    {
        let ghost a = views(keep@);
        let ghost b = views(droppable@);
        if wanted(needed, LIBS[i]) {
            keep.push(LIBS[i].to_owned());
            assert(views(keep@) =~= a.push(LIBS@[i as int]@));
        } else {
            droppable.push(LIBS[i].to_owned());
            assert(views(droppable@) =~= b.push(LIBS@[i as int]@));
        }
        i += 1;
    }
    (keep, droppable)
}

/// A library that is still referenced is never among those that may go.
pub proof fn a_referenced_library_stays(needed: Seq<Seq<char>>, n: nat, i: int)
    requires
        0 <= i < libs_where(needed, false, n).len(),
        n <= 20,
    ensures
        !wants(needed, libs_where(needed, false, n)[i]),
    decreases n,
{
    if n > 0 {
        let front = libs_where(needed, false, (n - 1) as nat);
        if i < front.len() {
            a_referenced_library_stays(needed, (n - 1) as nat, i);
        }
    }
}

/// What the dongle answered when it was asked for a plan.
pub struct Facts {
    /// The kernel release and the software version, on lines.
    pub identity: String,
    pub free_k: Option<u64>,
    /// Which of the listed files are there.
    pub present: Vec<String>,
    /// The library names the kept binaries reference.
    pub needed: Vec<String>,
    /// Which of the libraries that may go are there.
    pub droppable: Vec<String>,
    /// Sizes by path.
    pub sizes: Vec<(String, u64)>,
    /// The digest of each payload file, where it is there.
    pub digests: Vec<Option<String>>,
}

/// The size of a path, nothing where it is not known.
pub open spec fn size_of(sizes: Seq<(String, u64)>, path: Seq<char>) -> u64
    decreases sizes.len(),
{
    if sizes.len() == 0 {
        0
    } else if sizes[0].0@ == path {
        sizes[0].1
    } else {
        size_of(sizes.skip(1), path)
    }
}

fn look_up(sizes: &Vec<(String, u64)>, path: &str) -> (n: u64)
    ensures
        n == size_of(sizes@, path@),
{
    let mut i: usize = 0;
    assert(sizes@.skip(0) =~= sizes@);
    while i < sizes.len()
        invariant
            i <= sizes@.len(),
            size_of(sizes@, path@) == size_of(sizes@.skip(i as int), path@),
        decreases sizes@.len() - i,
    {
        assert(sizes@.skip(i as int).skip(1) =~= sizes@.skip(i + 1));
        if same_text(sizes[i].0.as_str(), path) {
            return sizes[i].1;
        }
        i += 1;
    }
    0
}

/// What a plan says of deletions.
pub open spec fn deletions(list: Seq<(String, u64)>) -> Seq<(Seq<char>, u64)> {
    Seq::new(list.len(), |i: int| (list[i].0@, list[i].1))
}

/// Paths with their sizes.
pub open spec fn sized(paths: Seq<Seq<char>>, sizes: Seq<(String, u64)>) -> Seq<(Seq<char>, u64)> {
    Seq::new(paths.len(), |i: int| (paths[i], size_of(sizes, paths[i])))
}

fn put_sized(out: &mut Vec<(String, u64)>, paths: &Vec<String>, sizes: &Vec<(String, u64)>)
    ensures
        deletions(final(out)@) == deletions(old(out)@) + sized(views(paths@), sizes@),
{
    let ghost start = deletions(out@);
    let ghost all = sized(views(paths@), sizes@);
    let mut i: usize = 0;
    assert(deletions(out@) =~= start + all.take(0));
    while i < paths.len()
        invariant
            i <= paths@.len(),
            all == sized(views(paths@), sizes@),
            deletions(out@) == start + all.take(i as int),
        decreases paths@.len() - i,
    {
        let ghost before = deletions(out@);
        out.push((paths[i].clone(), look_up(sizes, paths[i].as_str())));
        assert(deletions(out@) =~= before.push(all[i as int]));
        i += 1;
        assert(deletions(out@) =~= start + all.take(i as int));
    }
    assert(all.take(i as int) =~= all);
}

/// What `apply` would do, without changing anything: the listed files that are there and the
/// unreferenced libraries that are there go, and each file of the payload is held against the
/// digest the dongle has of it. Nothing goes that is not listed, and no library that something kept
/// references, whatever the dongle was asked about.
pub fn plan(payload: &Vec<File>, facts: &Facts) -> (p: Plan)
    requires
        facts.digests@.len() == payload@.len(),
    ensures
        p.identity@ == replaced(facts.identity@, '\n', " | "@),
        p.free_k == facts.free_k,
        deletions(p.delete@) == sized(kept(views(facts.present@), texts(FILES) + texts(OBSOLETE)), facts.sizes@)
            + sized(kept(views(facts.droppable@), libs_where(views(facts.needed@), false, 20)), facts.sizes@),
        views(p.keep_libs@) == libs_where(views(facts.needed@), true, 20),
        p.files@.len() == payload@.len(),
        forall|i: int| 0 <= i < payload@.len() ==> {
            &&& (#[trigger] p.files@[i]).remote@ == payload@[i].remote@
            &&& p.files@[i].bytes == payload@[i].data@.len()
            &&& p.files@[i].status == status_of(payload@[i].md5@, facts.digests@[i])
        },
{
    let identity = replace(facts.identity.as_str(), '\n', " | ");
    let (keep_libs, may_go) = split_libs(&facts.needed);
    let (going, _others) = part(&facts.droppable, &may_go);
    let (ballast, _strangers) = part(&facts.present, &listed());
    let mut delete: Vec<(String, u64)> = Vec::new();
    assert(deletions(delete@) =~= Seq::<(Seq<char>, u64)>::empty());
    put_sized(&mut delete, &ballast, &facts.sizes);
    put_sized(&mut delete, &going, &facts.sizes);
    assert(deletions(delete@) =~= sized(views(ballast@), facts.sizes@)
        + sized(views(going@), facts.sizes@));
    let mut files: Vec<FileState> = Vec::new();
    let mut i: usize = 0;
    while i < payload.len()
        invariant
            i <= payload@.len(),
            facts.digests@.len() == payload@.len(),
            files@.len() == i,
            forall|j: int| 0 <= j < i ==> {
                &&& (#[trigger] files@[j]).remote@ == payload@[j].remote@
                &&& files@[j].bytes == payload@[j].data@.len()
                &&& files@[j].status == status_of(payload@[j].md5@, facts.digests@[j])
            },
        decreases payload@.len() - i,
    {
        let status = match &facts.digests[i] {
            Some(theirs) => if same_text(theirs.as_str(), payload[i].md5.as_str()) {
                Status::Current
            } else {
                Status::Update
            },
            None => Status::Install,
        };
        files.push(FileState { remote: payload[i].remote.clone(), bytes: payload[i].data.len(), status });
        i += 1;
    }
    Plan { identity, free_k: facts.free_k, delete, keep_libs, files }
}

/// Every path a plan deletes is a listed one, or a listed library that nothing kept references.
pub proof fn only_what_is_listed_goes(
    present: Seq<Seq<char>>,
    needed: Seq<Seq<char>>,
    droppable: Seq<Seq<char>>,
    sizes: Seq<(String, u64)>,
    i: int,
)
    requires
        ({
            let all = sized(kept(present, texts(FILES) + texts(OBSOLETE)), sizes)
                + sized(kept(droppable, libs_where(needed, false, 20)), sizes);
            0 <= i < all.len()
        }),
    ensures
        ({
            let all = sized(kept(present, texts(FILES) + texts(OBSOLETE)), sizes)
                + sized(kept(droppable, libs_where(needed, false, 20)), sizes);
            ||| (texts(FILES) + texts(OBSOLETE)).contains(all[i].0)
            ||| texts(LIBS).contains(all[i].0) && !wants(needed, all[i].0)
        }),
{
    let a = kept(present, texts(FILES) + texts(OBSOLETE));
    let b = kept(droppable, libs_where(needed, false, 20));
    if i < a.len() {
        assert(a.contains(a[i]));
        kept_are_in_both(present, texts(FILES) + texts(OBSOLETE), a[i]);
    } else {
        let lib = b[i - a.len()];
        assert(b.contains(lib));
        no_referenced_library_goes(needed, droppable, lib);
        kept_are_in_both(droppable, libs_where(needed, false, 20), lib);
        libs_are_listed(needed, false, 20, lib);
    }
}

proof fn libs_are_listed(needed: Seq<Seq<char>>, kept: bool, n: nat, lib: Seq<char>)
    requires
        n <= 20,
        libs_where(needed, kept, n).contains(lib),
    ensures
        texts(LIBS).contains(lib),
    decreases n,
{
    if n > 0 {
        let front = libs_where(needed, kept, (n - 1) as nat);
        if front.contains(lib) {
            libs_are_listed(needed, kept, (n - 1) as nat, lib);
        } else {
            push_contains(front, LIBS@[n - 1]@, lib);
            assert(texts(LIBS)[n - 1] == lib);
        }
    }
}

/// No library that something kept references is among those a plan deletes.
pub proof fn no_referenced_library_goes(needed: Seq<Seq<char>>, droppable: Seq<Seq<char>>, lib: Seq<char>)
    requires
        kept(droppable, libs_where(needed, false, 20)).contains(lib),
    ensures
        droppable.contains(lib),
        !wants(needed, lib),
{
    let may_go = libs_where(needed, false, 20);
    kept_are_in_both(droppable, may_go, lib);
    let i = choose|i: int| 0 <= i < may_go.len() && may_go[i] == lib;
    a_referenced_library_stays(needed, 20, i);
}

/// What came of keeping the stock init.
#[derive(PartialEq, Eq, Clone, Copy, Structural)]
pub enum Backup {
    Saved,
    Present,
}

/// The command that keeps the stock init, unless it is kept already or is ours.
pub fn backup_command() -> (out: String)
    ensures
        out@ == "if [ -e "@ + STOCK_BACKUP@ + " ]; then echo have; elif grep -q '"@ + BRINGUP_MARKER@ + "' "@
            + BRINGUP_REMOTE@ + " 2>/dev/null; then echo ours; else cp "@ + BRINGUP_REMOTE@ + " "@ + STOCK_BACKUP@
            + " && sync && echo saved; fi"@,
{
    let mut out = "if [ -e ".to_owned();
    out.append(STOCK_BACKUP);
    out.append(" ]; then echo have; elif grep -q '");
    out.append(BRINGUP_MARKER);
    out.append("' ");
    out.append(BRINGUP_REMOTE);
    out.append(" 2>/dev/null; then echo ours; else cp ");
    out.append(BRINGUP_REMOTE);
    out.append(" ");
    out.append(STOCK_BACKUP);
    out.append(" && sync && echo saved; fi");
    out
}

/// Reads what the dongle answered when it was to keep the stock init. Our own boot script without
/// a kept original is refused, because then the stock init only exists in a backup.
pub fn stock_backup(answer: &str) -> (r: Result<Backup, String>)
    ensures
        ({
            let a = trim(answer@);
            match r {
                Ok(Backup::Present) => a == "have"@,
                Ok(Backup::Saved) => a == "saved"@ && a != "have"@,
                Err(why) => a != "have"@ && a != "saved"@ && why@ == (if a == "ours"@ {
                    BRINGUP_REMOTE@ + " is already our boot script and "@ + STOCK_BACKUP@
                        + " is missing — restore the stock rootfs from the mtd backup first"@
                } else {
                    "could not save the stock init: "@ + a
                }),
            }
        }),
{
    let a = trim_str(answer);
    if same_text(a, "have") {
        return Ok(Backup::Present);
    }
    if same_text(a, "saved") {
        return Ok(Backup::Saved);
    }
    if same_text(a, "ours") {
        let mut why = BRINGUP_REMOTE.to_owned();
        why.append(" is already our boot script and ");
        why.append(STOCK_BACKUP);
        why.append(" is missing — restore the stock rootfs from the mtd backup first");
        return Err(why);
    }
    let mut why = "could not save the stock init: ".to_owned();
    why.append(a);
    Err(why)
}

/// The paths a plan deletes.
pub open spec fn doomed(p: Plan) -> Seq<Seq<char>> {
    Seq::new(p.delete@.len(), |i: int| p.delete@[i].0@)
}

/// The command that strips the ballast, where there is any.
pub fn strip_command(p: &Plan) -> (r: Option<String>)
    ensures
        match r {
            Some(out) => p.delete@.len() > 0 && out@ == "rm -f "@ + join(doomed(*p), " "@) + "; sync"@,
            None => p.delete@.len() == 0,
        },
{
    if p.delete.len() == 0 {
        return None;
    }
    let mut paths: Vec<String> = Vec::new();
    let mut i: usize = 0;
    while i < p.delete.len()
        invariant
            i <= p.delete@.len(),
            paths@.len() == i,
            forall|j: int| 0 <= j < i ==> (#[trigger] paths@[j])@ == p.delete@[j].0@,
        decreases p.delete@.len() - i,
    {
        paths.push(p.delete[i].0.clone());
        i += 1;
    }
    assert(views(paths@) =~= doomed(*p));
    let mut out = "rm -f ".to_owned();
    out.append(joined(&paths, " ").as_str());
    out.append("; sync");
    Some(out)
}

/// Whether a plan finds a path current.
pub open spec fn is_current(p: Plan, path: Seq<char>) -> bool {
    exists|i: int| 0 <= i < p.files@.len() && (#[trigger] p.files@[i]).status == Status::Current
        && p.files@[i].remote@ == path
}

fn found_current(p: &Plan, path: &str) -> (r: bool)
    ensures
        r == is_current(*p, path@),
{
    let mut i: usize = 0;
    while i < p.files.len()
        invariant
            i <= p.files@.len(),
            forall|j: int| 0 <= j < i ==> !((#[trigger] p.files@[j]).status == Status::Current
                && p.files@[j].remote@ == path@),
        decreases p.files@.len() - i,
    {
        if p.files[i].status == Status::Current && same_text(p.files[i].remote.as_str(), path) {
            assert(p.files@[i as int].remote@ == path@);
            return true;
        }
        i += 1;
    }
    false
}

/// What is pushed: by their place, the files of the payload that are not current.
pub open spec fn outstanding(p: Plan, payload: Seq<File>) -> Seq<usize>
    decreases payload.len(),
{
    if payload.len() == 0 {
        Seq::empty()
    } else if is_current(p, payload.last().remote@) {
        outstanding(p, payload.drop_last())
    } else {
        outstanding(p, payload.drop_last()).push((payload.len() - 1) as usize)
    }
}

/// What an install does once the ballast is gone.
pub struct Install {
    /// The files to push, by their place in the payload.
    pub push: Vec<usize>,
    /// A binary changed, so everything is started anew. A change of scripts alone keeps what runs.
    pub fresh: bool,
}

/// Whether a file is a packed binary.
pub open spec fn packed(payload: Seq<File>, at: usize) -> bool {
    at < payload.len() && ends_with(payload[at as int].remote@, ".gz"@)
}

/// Decides what to push with so much space free after the strip. Without room for the files and a
/// margin nothing is installed.
pub fn apply(p: &Plan, payload: &Vec<File>, free_k: Option<u64>) -> (r: Result<Install, String>)
    requires
        push_sum(p.files@) + SPACE_MARGIN_K <= u64::MAX,
    ensures
        ({
            let free = match free_k {
                Some(k) => k as int,
                None => 0,
            };
            let need = push_sum(p.files@) + SPACE_MARGIN_K;
            match r {
                Ok(install) => {
                    &&& free >= need
                    &&& install.push@ == outstanding(*p, payload@)
                    &&& install.fresh == (exists|i: int| 0 <= i < install.push@.len()
                        && packed(payload@, #[trigger] install.push@[i]))
                },
                Err(why) => free < need && why@ == "not enough flash for the stack: need "@ + dec(need as nat)
                    + "K, have "@ + dec(free as nat) + "K"@,
            }
        }),
{
    let need: u64 = p.push_k() + SPACE_MARGIN_K;
    let free: u64 = match free_k {
        Some(k) => k,
        None => 0,
    };
    if free < need {
        let mut why = "not enough flash for the stack: need ".to_owned();
        put_dec(&mut why, need);
        why.append("K, have ");
        put_dec(&mut why, free);
        why.append("K");
        return Err(why);
    }
    let mut push: Vec<usize> = Vec::new();
    let mut fresh = false;
    let mut i: usize = 0;
    assert(push@ =~= outstanding(*p, payload@.take(0)));
    while i < payload.len()
        invariant
            i <= payload@.len(),
            push@ == outstanding(*p, payload@.take(i as int)),
            fresh == (exists|j: int| 0 <= j < push@.len() && packed(payload@, #[trigger] push@[j])),
        decreases payload@.len() - i,
    {
        assert(payload@.take(i + 1).drop_last() =~= payload@.take(i as int));
        if !found_current(p, payload[i].remote.as_str()) {
            let ghost before = push@;
            push.push(i);
            let gz = ends(payload[i].remote.as_str(), ".gz");
            proof {
                assert(push@[before.len() as int] == i);
                assert(packed(payload@, i) == gz);
                if fresh {
                    let j = choose|j: int| 0 <= j < before.len() && packed(payload@, #[trigger] before[j]);
                    assert(push@[j] == before[j]);
                }
                if exists|j: int| 0 <= j < push@.len() && packed(payload@, #[trigger] push@[j]) {
                    let j = choose|j: int| 0 <= j < push@.len() && packed(payload@, #[trigger] push@[j]);
                    if j < before.len() {
                        assert(before[j] == push@[j]);
                    }
                }
            }
            fresh = fresh || gz;
        }
        i += 1;
    }
    assert(payload@.take(i as int) =~= payload@);
    Ok(Install { push, fresh })
}

/// Nothing that is current is pushed, and everything else is.
pub proof fn only_what_changed_is_pushed(p: Plan, payload: Seq<File>, at: int)
    requires
        0 <= at < payload.len(),
        payload.len() <= usize::MAX,
    ensures
        outstanding(p, payload).contains(at as usize) == !is_current(p, payload[at].remote@),
    decreases payload.len(),
{
    let front = payload.drop_last();
    let list = outstanding(p, payload);
    let before = outstanding(p, front);
    outstanding_below(p, front);
    if at < front.len() {
        only_what_changed_is_pushed(p, front, at);
        assert(front[at] == payload[at]);
        if before.contains(at as usize) {
            let i = choose|i: int| 0 <= i < before.len() && before[i] == at as usize;
            assert(list[i] == at as usize);
        }
        if list.contains(at as usize) {
            let i = choose|i: int| 0 <= i < list.len() && list[i] == at as usize;
            if i < before.len() {
                assert(before[i] == at as usize);
            }
        }
    } else {
        if !is_current(p, payload[at].remote@) {
            assert(list[before.len() as int] == at as usize);
        } else if list.contains(at as usize) {
            let i = choose|i: int| 0 <= i < before.len() && before[i] == at as usize;
            assert(before[i] < front.len());
        }
    }
}

proof fn outstanding_below(p: Plan, payload: Seq<File>)
    requires
        payload.len() <= usize::MAX,
    ensures
        forall|i: int| 0 <= i < outstanding(p, payload).len() ==> #[trigger] outstanding(p, payload)[i] < payload.len(),
    decreases payload.len(),
{
    if payload.len() > 0 {
        outstanding_below(p, payload.drop_last());
        let before = outstanding(p, payload.drop_last());
        assert forall|i: int| 0 <= i < outstanding(p, payload).len() implies
            #[trigger] outstanding(p, payload)[i] < payload.len() by {
            if i < before.len() {
                assert(outstanding(p, payload)[i] == before[i]);
            }
        }
    }
}

/// Where a run of `apply` is.
#[derive(PartialEq, Eq, Structural, Clone, Copy)]
pub enum Stage {
    /// Keep the vendor's init, taken from the dongle itself.
    SaveStock,
    /// Delete the ballast.
    Strip,
    /// Remove the links that pointed at what just went.
    Unlink,
    /// Is there room for what is pushed?
    Measure,
    /// Push the file at this place of the list.
    Push(usize),
    SetModes,
    ClearLeftovers,
    /// Does the dongle have an access point?
    LookForAp,
    NameAp,
    Start,
    Reboot,
    /// Wait for the dongle to come back.
    Await,
    Verify,
    Done,
    Failed,
}

/// The stage after another. A file's place in the list decides what follows its push, and behind
/// the start the dongle is restarted only where that was asked for.
pub open spec fn stage_after(s: Stage, yes: bool, ballast: bool, pushes: usize, reboot: bool) -> Stage {
    match s {
        Stage::SaveStock => if !yes { Stage::Failed } else if ballast { Stage::Strip } else { Stage::Measure },
        Stage::Strip => if yes { Stage::Unlink } else { Stage::Failed },
        Stage::Unlink => if yes { Stage::Measure } else { Stage::Failed },
        Stage::Measure => if !yes { Stage::Failed } else if pushes > 0 { Stage::Push(0) } else { Stage::SetModes },
        Stage::Push(i) => if !yes {
            Stage::Failed
        } else if i < pushes && i + 1 < pushes {
            Stage::Push((i + 1) as usize)
        } else {
            Stage::SetModes
        },
        Stage::SetModes => if yes { Stage::ClearLeftovers } else { Stage::Failed },
        Stage::ClearLeftovers => if yes { Stage::LookForAp } else { Stage::Failed },
        Stage::LookForAp => if yes { Stage::NameAp } else { Stage::Start },
        Stage::NameAp => if yes { Stage::Start } else { Stage::Failed },
        Stage::Start => if !yes { Stage::Failed } else if reboot { Stage::Reboot } else { Stage::Verify },
        Stage::Reboot => if yes { Stage::Await } else { Stage::Failed },
        Stage::Await => if yes { Stage::Verify } else { Stage::Failed },
        Stage::Verify => if yes { Stage::Done } else { Stage::Failed },
        Stage::Done => Stage::Done,
        Stage::Failed => Stage::Failed,
    }
}

/// The stage after another, by what came of it: the answer, or nothing where it failed with an
/// error, which ends the run.
pub open spec fn stage_answered(s: Stage, answer: Option<bool>, ballast: bool, pushes: usize, reboot: bool) -> Stage {
    match answer {
        Some(yes) => stage_after(s, yes, ballast, pushes, reboot),
        None => if s == Stage::Done { Stage::Done } else { Stage::Failed },
    }
}

/// The stage after another, by what came of it: yes and no for a question, done and failed for the
/// rest, and nothing where it failed with an error. There may be ballast to strip, there are so many
/// files to push, and a restart may be asked for.
pub fn next_stage(s: Stage, answer: Option<bool>, ballast: bool, pushes: usize, reboot: bool) -> (r: Stage)
    ensures
        r == stage_answered(s, answer, ballast, pushes, reboot),
{
    match answer {
        Some(yes) => follow(s, yes, ballast, pushes, reboot),
        None => if s == Stage::Done { Stage::Done } else { Stage::Failed },
    }
}

fn follow(s: Stage, yes: bool, ballast: bool, pushes: usize, reboot: bool) -> (r: Stage)
    ensures
        r == stage_after(s, yes, ballast, pushes, reboot),
{
    match s {
        Stage::SaveStock => if !yes { Stage::Failed } else if ballast { Stage::Strip } else { Stage::Measure },
        Stage::Strip => if yes { Stage::Unlink } else { Stage::Failed },
        Stage::Unlink => if yes { Stage::Measure } else { Stage::Failed },
        Stage::Measure => if !yes { Stage::Failed } else if pushes > 0 { Stage::Push(0) } else { Stage::SetModes },
        Stage::Push(i) => if !yes {
            Stage::Failed
        } else if i < pushes && i < pushes - 1 {
            Stage::Push(i + 1)
        } else {
            Stage::SetModes
        },
        Stage::SetModes => if yes { Stage::ClearLeftovers } else { Stage::Failed },
        Stage::ClearLeftovers => if yes { Stage::LookForAp } else { Stage::Failed },
        Stage::LookForAp => if yes { Stage::NameAp } else { Stage::Start },
        Stage::NameAp => if yes { Stage::Start } else { Stage::Failed },
        Stage::Start => if !yes { Stage::Failed } else if reboot { Stage::Reboot } else { Stage::Verify },
        Stage::Reboot => if yes { Stage::Await } else { Stage::Failed },
        Stage::Await => if yes { Stage::Verify } else { Stage::Failed },
        Stage::Verify => if yes { Stage::Done } else { Stage::Failed },
        Stage::Done => Stage::Done,
        Stage::Failed => Stage::Failed,
    }
}

/// Nothing is deleted before the vendor's init is kept, and nothing is pushed before there is
/// known to be room for it. A run ends well only behind a check.
pub proof fn nothing_goes_before_the_way_back_is_kept(s: Stage, answer: Option<bool>, ballast: bool, pushes: usize, reboot: bool)
    ensures
        ({
            let next = stage_answered(s, answer, ballast, pushes, reboot);
            &&& next == Stage::Strip ==> s == Stage::SaveStock && answer == Some(true)
            &&& next == Stage::Push(0) ==> s == Stage::Measure && answer == Some(true)
            &&& next == Stage::Done ==> s == Stage::Done || (s == Stage::Verify && answer == Some(true))
            &&& answer is None && s != Stage::Done ==> next == Stage::Failed
        }),
{
}

/// How many stages are left at most.
pub open spec fn stages_left(s: Stage, pushes: usize) -> int {
    match s {
        Stage::SaveStock => pushes + 14,
        Stage::Strip => pushes + 13,
        Stage::Unlink => pushes + 12,
        Stage::Measure => pushes + 11,
        Stage::Push(i) => if i < pushes { 10 + pushes - i } else { 10 },
        Stage::SetModes => 9,
        Stage::ClearLeftovers => 8,
        Stage::LookForAp => 7,
        Stage::NameAp => 6,
        Stage::Start => 5,
        Stage::Reboot => 4,
        Stage::Await => 3,
        Stage::Verify => 2,
        Stage::Done => 0,
        Stage::Failed => 0,
    }
}

/// A run that has not ended gets closer to its end with every stage, whatever the answers.
pub proof fn a_run_ends(s: Stage, answer: Option<bool>, ballast: bool, pushes: usize, reboot: bool)
    requires
        s != Stage::Done,
        s != Stage::Failed,
    ensures
        0 <= stages_left(stage_answered(s, answer, ballast, pushes, reboot), pushes) < stages_left(s, pushes),
{
}

/// Every file of the list is pushed before the stack is started: the push of one is followed by
/// that of the next, and only the last by what comes behind.
pub proof fn every_file_is_pushed(i: usize, ballast: bool, pushes: usize, reboot: bool)
    requires
        i < pushes,
    ensures
        stage_answered(Stage::Push(i), Some(true), ballast, pushes, reboot)
            == (if i + 1 < pushes { Stage::Push((i + 1) as usize) } else { Stage::SetModes }),
        forall|s: Stage, answer: Option<bool>|
            (#[trigger] stage_answered(s, answer, ballast, pushes, reboot)) == Stage::SetModes
            ==> (s matches Stage::Push(k) && k + 1 >= pushes && answer == Some(true)),
{
}

/// The command that makes what was pushed executable.
pub fn chmod_command() -> (out: String)
    ensures
        out@ == "chmod 755 "@ + LIVI_DIR@ + "/*.sh "@ + BRINGUP_REMOTE@ + " "@ + BOA_CGI@ + "; sync"@,
{
    let mut out = "chmod 755 ".to_owned();
    out.append(LIVI_DIR);
    out.append("/*.sh ");
    out.append(BRINGUP_REMOTE);
    out.append(" ");
    out.append(BOA_CGI);
    out.append("; sync");
    out
}

/// The command that removes the vendor's own pages.
pub fn leftovers_command() -> (out: String)
    ensures
        out@ == "rm -rf "@ + BOA_LEFTOVERS@ + "; sync"@,
{
    let mut out = "rm -rf ".to_owned();
    out.append(BOA_LEFTOVERS);
    out.append("; sync");
    out
}

/// Whether the dongle has an access point to name, by what it answered. Some have no radio at
/// all.
pub fn set_ap_name(answer: &str) -> (r: bool)
    ensures
        r == (trim(answer@) == "yes"@),
{
    same_text(trim_str(answer), "yes")
}

/// The command that names the fallback access point. The file is rebuilt rather than edited.
pub fn ap_name_command() -> (out: String)
    ensures
        out@ == "{ grep -v '^ssid=' /etc/hostapd.conf; echo 'ssid="@ + AP_NAME@
            + "'; } > /tmp/hostapd.conf && cp /tmp/hostapd.conf /etc/hostapd.conf && rm -f /tmp/hostapd.conf && sync"@,
{
    let mut out = "{ grep -v '^ssid=' /etc/hostapd.conf; echo 'ssid=".to_owned();
    out.append(AP_NAME);
    out.append("'; } > /tmp/hostapd.conf && cp /tmp/hostapd.conf /etc/hostapd.conf && rm -f /tmp/hostapd.conf && sync");
    out
}

/// The command that runs the stack from its persistent home, killing hand-started copies first.
pub fn start_command(fresh: bool) -> (out: String)
    ensures
        out@ == "pkill -f /usr/sbin/mfid; pkill -f livi_link_up; pkill -f /tmp/livi-usbproxy; pkill -f /tmp/l2fwd; pkill -f /tmp/seedrng; pkill -f /tmp/mdnsd; pkill -f l2fwd-watch; sleep 1; setsid sh "@
            + LIVI_DIR@ + "/livi-link.sh"@ + (if fresh { " --fresh"@ } else { ""@ })
            + " </dev/null >/tmp/livi-link.log 2>&1 & echo started"@,
{
    let mut out = "pkill -f /usr/sbin/mfid; pkill -f livi_link_up; pkill -f /tmp/livi-usbproxy; pkill -f /tmp/l2fwd; pkill -f /tmp/seedrng; pkill -f /tmp/mdnsd; pkill -f l2fwd-watch; sleep 1; setsid sh ".to_owned();
    out.append(LIVI_DIR);
    out.append("/livi-link.sh");
    out.append(if fresh { " --fresh" } else { "" });
    out.append(" </dev/null >/tmp/livi-link.log 2>&1 & echo started");
    out
}

/// What the dongle answered when it was checked.
pub struct Found {
    /// The digest of each payload file, where it is there.
    pub digests: Vec<Option<String>>,
    /// The processes that run.
    pub ps: String,
    /// Whether each port of the stack answers.
    pub ports: [bool; 2],
    pub pair_records: String,
    pub free_k: Option<u64>,
}

/// Checks the installed files and the running stack: a check for each file, each process and each
/// port.
pub fn verify(payload: &Vec<File>, found: &Found) -> (r: Report)
    requires
        found.digests@.len() == payload@.len(),
        payload@.len() + 7 <= usize::MAX,
    ensures
        r.checks@.len() == payload@.len() + 7,
        forall|i: int| 0 <= i < payload@.len() ==> {
            &&& (#[trigger] r.checks@[i]).what@ == payload@[i].remote@
            &&& r.checks@[i].ok == (found.digests@[i] matches Some(d) && d@ == payload@[i].md5@)
        },
        forall|k: int| #![trigger STACK_PROCESSES@[k]] 0 <= k < 5 ==> {
            &&& r.checks@[payload@.len() + k].what@ == "process "@ + STACK_PROCESSES@[k]@
            &&& r.checks@[payload@.len() + k].ok == contains(found.ps@, STACK_PROCESSES@[k]@)
        },
        forall|k: int| #![trigger STACK_PORTS@[k]] 0 <= k < 2 ==> {
            &&& r.checks@[payload@.len() + 5 + k].what@ == "port "@ + dec(STACK_PORTS@[k] as nat)
            &&& r.checks@[payload@.len() + 5 + k].ok == found.ports[k]
        },
        r.pair_records@ == replaced(found.pair_records@, '\n', " "@),
        r.free_k == found.free_k,
{
    let ghost n = payload@.len() as int;
    let mut checks: Vec<Check> = Vec::new();
    let mut i: usize = 0;
    while i < payload.len()
        invariant
            i <= payload@.len(),
            found.digests@.len() == payload@.len(),
            checks@.len() == i,
            forall|j: int| 0 <= j < i ==> {
                &&& (#[trigger] checks@[j]).what@ == payload@[j].remote@
                &&& checks@[j].ok == (found.digests@[j] matches Some(d) && d@ == payload@[j].md5@)
            },
        decreases payload@.len() - i,
    {
        let ok = match &found.digests[i] {
            Some(d) => same_text(d.as_str(), payload[i].md5.as_str()),
            None => false,
        };
        checks.push(Check { what: payload[i].remote.clone(), ok });
        i += 1;
    }
    let ghost first = checks@;
    let mut k: usize = 0;
    while k < 5
        invariant
            k <= 5,
            n == payload@.len(),
            first.len() == n,
            checks@.len() == n + k,
            checks@.take(n) == first,
            forall|j: int| #![trigger STACK_PROCESSES@[j]] 0 <= j < k ==> {
                &&& checks@[n + j].what@ == "process "@ + STACK_PROCESSES@[j]@
                &&& checks@[n + j].ok == contains(found.ps@, STACK_PROCESSES@[j]@)
            },
        decreases 5 - k,
    {
        let mut what = "process ".to_owned();
        what.append(STACK_PROCESSES[k]);
        let ok = crate::text::holds(found.ps.as_str(), STACK_PROCESSES[k]);
        checks.push(Check { what, ok });
        k += 1;
        assert(checks@.take(n) =~= first);
    }
    let ghost second = checks@;
    let mut m: usize = 0;
    while m < 2
        invariant
            m <= 2,
            n == payload@.len(),
            second.len() == n + 5,
            checks@.len() == n + 5 + m,
            checks@.take(n + 5) == second,
            forall|j: int| #![trigger STACK_PORTS@[j]] 0 <= j < m ==> {
                &&& checks@[n + 5 + j].what@ == "port "@ + dec(STACK_PORTS@[j] as nat)
                &&& checks@[n + 5 + j].ok == found.ports[j]
            },
        decreases 2 - m,
    {
        let mut what = "port ".to_owned();
        put_dec(&mut what, STACK_PORTS[m] as u64);
        checks.push(Check { what, ok: found.ports[m] });
        m += 1;
        assert(checks@.take(n + 5) =~= second);
    }
    assert forall|j: int| 0 <= j < n + 5 implies #[trigger] checks@[j] == second[j] by {
        assert(checks@.take(n + 5)[j] == checks@[j]);
    }
    assert forall|j: int| 0 <= j < n implies #[trigger] second[j] == first[j] by {
        assert(second.take(n)[j] == second[j]);
    }
    Report { checks, pair_records: replace(found.pair_records.as_str(), '\n', " "), free_k: found.free_k }
}

/// A path with the home directory written short: a tilde for the home itself, or in front of what
/// lies in it. A longer name that merely starts the same is not the home.
pub open spec fn short_path(text: Seq<char>, home: Option<Seq<char>>) -> Seq<char> {
    match home {
        Some(h) => if h.len() == 0 || !starts_with(text, h) {
            text
        } else if text.len() == h.len() {
            "~"@
        } else if text[h.len() as int] == '/' {
            "~"@ + text.skip(h.len() as int)
        } else {
            text
        },
        None => text,
    }
}

/// Writes a path short.
pub fn shorten(text: &str, home: Option<&str>) -> (out: String)
    ensures
        out@ == short_path(
            text@,
            match home {
                Some(h) => Some(h@),
                None => None,
            },
        ),
{
    let h = match home {
        Some(h) => h,
        None => {
            return text.to_owned();
        },
    };
    if h.is_empty() {
        return text.to_owned();
    }
    match after_prefix(text, h) {
        Some(rest) => {
            if rest.as_str().is_empty() {
                "~".to_owned()
            } else if rest.as_str().get_char(0) == '/' {
                let mut out = "~".to_owned();
                out.append(rest.as_str());
                out
            } else {
                text.to_owned()
            }
        },
        None => text.to_owned(),
    }
}

/// Every vendor library is either kept or may go: it is kept exactly where something that stays
/// references it.
pub proof fn a_library_stays_or_may_go(needed: Seq<Seq<char>>, k: int)
    requires
        0 <= k < 20,
    ensures
        wants(needed, LIBS@[k]@) ==> libs_where(needed, true, 20).contains(LIBS@[k]@),
        !wants(needed, LIBS@[k]@) ==> libs_where(needed, false, 20).contains(LIBS@[k]@),
        libs_where(needed, true, 20).len() + libs_where(needed, false, 20).len() == 20,
{
    parted(needed, k, 20);
}

proof fn parted(needed: Seq<Seq<char>>, k: int, n: nat)
    requires
        n <= 20,
    ensures
        0 <= k < n ==> libs_where(needed, wants(needed, LIBS@[k]@), n).contains(LIBS@[k]@),
        libs_where(needed, true, n).len() + libs_where(needed, false, n).len() == n,
    decreases n,
{
    if n > 0 {
        parted(needed, k, (n - 1) as nat);
        let on = wants(needed, LIBS@[k]@);
        let front = libs_where(needed, on, (n - 1) as nat);
        let all = libs_where(needed, on, n);
        if k == n - 1 {
            assert(all == front.push(LIBS@[k]@));
            assert(all[all.len() - 1] == LIBS@[k]@);
        } else if 0 <= k < n {
            let m = choose|m: int| 0 <= m < front.len() && front[m] == LIBS@[k]@;
            assert(all[m] == LIBS@[k]@);
        }
    }
}

/// The size of a path is the one it was first listed with, and nothing where it was not listed.
pub proof fn sizes_are_looked_up(sizes: Seq<(String, u64)>, path: Seq<char>, k: int)
    requires
        0 <= k <= sizes.len(),
        forall|j: int| 0 <= j < k ==> (#[trigger] sizes[j]).0@ != path,
        k < sizes.len() ==> sizes[k].0@ == path,
    ensures
        size_of(sizes, path) == (if k < sizes.len() { sizes[k].1 } else { 0 }),
    decreases sizes.len(),
{
    if k > 0 {
        let tail = sizes.skip(1);
        assert(sizes[0].0@ != path);
        assert forall|j: int| 0 <= j < k - 1 implies (#[trigger] tail[j]).0@ != path by {
            assert(tail[j] == sizes[j + 1]);
        }
        sizes_are_looked_up(tail, path, k - 1);
    }
}

/// What is pushed is pushed in the order of the payload, each file once.
pub proof fn files_are_pushed_in_order(p: Plan, payload: Seq<File>, i: int, j: int)
    requires
        payload.len() <= usize::MAX,
        0 <= i < j < outstanding(p, payload).len(),
    ensures
        outstanding(p, payload)[i] < outstanding(p, payload)[j] < payload.len(),
    decreases payload.len(),
{
    outstanding_below(p, payload);
    outstanding_below(p, payload.drop_last());
    let front = outstanding(p, payload.drop_last());
    if is_current(p, payload.last().remote@) || j < front.len() {
        files_are_pushed_in_order(p, payload.drop_last(), i, j);
    } else {
        assert(outstanding(p, payload)[i] == front[i]);
    }
}

/// A run in which everything goes well.
pub proof fn how_a_run_goes(ballast: bool, pushes: usize, reboot: bool)
    ensures
        stage_answered(Stage::SaveStock, Some(true), true, pushes, reboot) == Stage::Strip,
        stage_answered(Stage::SaveStock, Some(true), false, pushes, reboot) == Stage::Measure,
        stage_answered(Stage::Strip, Some(true), ballast, pushes, reboot) == Stage::Unlink,
        stage_answered(Stage::Unlink, Some(true), ballast, pushes, reboot) == Stage::Measure,
        pushes > 0 ==> stage_answered(Stage::Measure, Some(true), ballast, pushes, reboot) == Stage::Push(0),
        pushes == 0 ==> stage_answered(Stage::Measure, Some(true), ballast, pushes, reboot) == Stage::SetModes,
        stage_answered(Stage::SetModes, Some(true), ballast, pushes, reboot) == Stage::ClearLeftovers,
        stage_answered(Stage::ClearLeftovers, Some(true), ballast, pushes, reboot) == Stage::LookForAp,
        stage_answered(Stage::LookForAp, Some(true), ballast, pushes, reboot) == Stage::NameAp,
        stage_answered(Stage::LookForAp, Some(false), ballast, pushes, reboot) == Stage::Start,
        stage_answered(Stage::NameAp, Some(true), ballast, pushes, reboot) == Stage::Start,
        stage_answered(Stage::Start, Some(true), ballast, pushes, true) == Stage::Reboot,
        stage_answered(Stage::Start, Some(true), ballast, pushes, false) == Stage::Verify,
        stage_answered(Stage::Reboot, Some(true), ballast, pushes, reboot) == Stage::Await,
        stage_answered(Stage::Await, Some(true), ballast, pushes, reboot) == Stage::Verify,
        stage_answered(Stage::Verify, Some(true), ballast, pushes, reboot) == Stage::Done,
{
}

/// A stage that fails ends the run, whichever it is. Only the question for an access point may be
/// answered with no.
pub proof fn a_failed_stage_ends_a_run(s: Stage, ballast: bool, pushes: usize, reboot: bool)
    ensures
        s != Stage::LookForAp && s != Stage::Done ==> stage_answered(s, Some(false), ballast, pushes, reboot) == Stage::Failed,
        s != Stage::Done ==> stage_answered(s, None, ballast, pushes, reboot) == Stage::Failed,
        stage_answered(Stage::Done, Some(false), ballast, pushes, reboot) == Stage::Done,
{
}

/// The home directory is written as a tilde, on its own or in front of what lies in it, and nothing
/// else is changed: written out again, a path is what it was.
pub proof fn a_home_is_a_tilde(home: Seq<char>, rest: Seq<char>)
    requires
        home.len() > 0,
    ensures
        short_path(home, Some(home)) == seq!['~'],
        short_path(home + seq!['/'] + rest, Some(home)) == seq!['~', '/'] + rest,
        rest.len() > 0 && rest[0] != '/' ==> short_path(home + rest, Some(home)) == home + rest,
        !starts_with(rest, home) ==> short_path(rest, Some(home)) == rest,
        short_path(rest, None) == rest,
        short_path(rest, Some(Seq::empty())) == rest,
{
    reveal_strlit("~");
    assert("~"@ =~= seq!['~']);
    assert(home.take(home.len() as int) =~= home);
    let t = home + seq!['/'] + rest;
    assert(t.take(home.len() as int) =~= home);
    assert("~"@ + t.skip(home.len() as int) =~= seq!['~', '/'] + rest);
    let u = home + rest;
    assert(u.take(home.len() as int) =~= home);
    if rest.len() > 0 {
        assert(u[home.len() as int] == rest[0]);
    }
}

/// Nothing is installed without room for what is pushed and a quarter of a megabyte more, and with that room
/// everything that is not current is.
pub proof fn room_is_kept_free(p: Plan, payload: Vec<File>, free: u64, r: Result<Install, String>)
    requires
        call_ensures(apply, (&p, &payload, Some(free)), r),
        push_sum(p.files@) + 256 <= u64::MAX,
    ensures
        r is Ok <==> free >= push_sum(p.files@) + 256,
        r matches Ok(install) ==> install.push@ == outstanding(p, payload@),
{
}

/// The vendor's init is kept where it was kept before or is now, and anything else is refused.
pub proof fn the_way_back_is_kept(answer: &str, r: Result<Backup, String>)
    requires
        call_ensures(stock_backup, (answer,), r),
    ensures
        trim(answer@) == "have"@ ==> r == Ok::<Backup, String>(Backup::Present),
        trim(answer@) == "saved"@ ==> r == Ok::<Backup, String>(Backup::Saved),
        trim(answer@) != "have"@ && trim(answer@) != "saved"@ ==> r is Err,
{
    reveal_strlit("have");
    reveal_strlit("saved");
    assert("have"@.len() == 4 && "saved"@.len() == 5);
}

} // verus!

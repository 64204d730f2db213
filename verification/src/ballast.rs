//! The vendor userspace our init never starts, and the libraries that belong to it.
//!
//! Binaries go unconditionally. A library only goes when no binary we keep still references it,
//! measured on the device by scanning the kept binaries for library names.

use vstd::prelude::*;

use crate::names::{holds, push_contains};
use crate::text::{after_last, behind_last, find, join, joined, place_of, same_text, views, words, words_of};

verus! {

/// Vendor daemons; none of them is started by our bring-up.
pub const FILES: [&'static str; 18] = [
    "/usr/sbin/ARMAndroidAuto",
    "/usr/sbin/AppleCarPlay",
    "/usr/sbin/ARMadb-driver",
    "/usr/sbin/ARMiPhoneIAP2",
    "/usr/sbin/bluetoothDaemon",
    "/usr/sbin/mdnsd",
    "/usr/sbin/hfpd",
    "/usr/sbin/dbus-daemon",
    "/usr/sbin/hcid",
    "/usr/sbin/ARMHiCar",
    "/usr/sbin/ARMandroid_Mirror",
    "/usr/sbin/usbmuxd",
    "/usr/sbin/boxNetworkService",
    "/usr/sbin/AutomaticTest",
    "/usr/sbin/colorLightDaemon",
    "/etc/BoxHelper.apk",
    "/etc/boa/cgi-bin/upload.cgi",
    "/usr/sbin/mfid",
];

/// Their shared libraries. Deleted only when nothing we keep needs them.
pub const LIBS: [&'static str; 20] = [
    "/usr/lib/libxml2.so.2.9.2",
    "/usr/lib/libfdk-aac.so.1.0.0",
    "/usr/lib/libdmsdpplatform.so",
    "/usr/lib/libdmsdp.so",
    "/usr/lib/libHwKeystoreSDK.so",
    "/usr/lib/libHisightSink.so",
    "/usr/lib/libnearby.so",
    "/usr/lib/libHwDeviceAuthSDK.so",
    "/usr/lib/libdmsdpdvaudio.so",
    "/usr/lib/libdmsdpaudiohandler.so",
    "/usr/lib/libauthagent.so",
    "/usr/lib/libhicar.so",
    "/usr/lib/libdmsdpdvcamera.so",
    "/usr/lib/libmanagement.so",
    "/usr/lib/libsecurec.so",
    "/usr/lib/libdmsdpsec.so",
    "/usr/lib/libdbus-1.so.3.2.0",
    "/usr/lib/libusb-1.0.so.0.1.0",
    "/usr/lib/libcrypto.so.1.1",
    "/usr/lib/libssl.so.1.1",
];

/// The file name of a library up to and with its `.so`, the whole file name where it has none.
pub open spec fn stem_of(name: Seq<char>) -> Seq<char> {
    let base = after_last(name, '/');
    match place_of(base, ".so"@, 0) {
        Some(i) => base.take(i + 3),
        None => base,
    }
}

/// `libxml2.so.2.9.2` and `libxml2.so.2` both reduce to `libxml2.so`, so a file name and the name
/// a binary carries compare equal.
pub fn stem(name: &str) -> (r: &str)
    ensures
        r@ == stem_of(name@),
{
    let base = behind_last(name, '/');
    match find(base, ".so") {
        Some(i) => {
            proof {
                reveal_strlit(".so");
            }
            let n: usize = base.unicode_len();
            assert(i + 3 <= n);
            assert(base@.subrange(0, i + 3) =~= base@.take(i + 3));
            base.substring_char(0, i + 3)
        },
        None => base,
    }
}

/// Whether some names reference a library.
pub open spec fn wants(needed: Seq<Seq<char>>, lib: Seq<char>) -> bool {
    exists|i: int| 0 <= i < needed.len() && stem_of(#[trigger] needed[i]) == stem_of(lib)
}

/// Whether some names reference a library.
pub fn wanted(needed: &Vec<String>, lib: &str) -> (r: bool)
    ensures
        r == wants(views(needed@), lib@),
{
    let ghost all = views(needed@);
    let want = stem(lib);
    let mut i: usize = 0;
    while i < needed.len()
        invariant
            i <= needed@.len(),
            all == views(needed@),
            want@ == stem_of(lib@),
            forall|j: int| 0 <= j < i ==> stem_of(#[trigger] all[j]) != stem_of(lib@),
        decreases needed@.len() - i,
    {
        assert(all[i as int] == needed@[i as int]@);
        if same_text(stem(needed[i].as_str()), want) {
            return true;
        }
        i += 1;
    }
    false
}

/// The command that lists the library names in the binaries that are kept.
pub fn first_scan(excluded: &Vec<String>) -> (out: String)
    ensures
        out@ == "for f in /usr/sbin/* /bin/* /sbin/* /usr/bin/* /etc/boa/cgi-bin/*; do [ -f \"$f\" ] && [ ! -L \"$f\" ] || continue; case \" "@
            + join(views(excluded@), " "@)
            + " \" in *\" $f \"*) continue;; esac; grep -a -o -E 'lib[A-Za-z0-9_+.-]*\\.so[.0-9]*' \"$f\"; done 2>/dev/null | sort -u"@,
{
    let mut out = "for f in /usr/sbin/* /bin/* /sbin/* /usr/bin/* /etc/boa/cgi-bin/*; do [ -f \"$f\" ] && [ ! -L \"$f\" ] || continue; case \" ".to_owned();
    out.append(joined(excluded, " ").as_str());
    out.append(" \" in *\" $f \"*) continue;; esac; grep -a -o -E 'lib[A-Za-z0-9_+.-]*\\.so[.0-9]*' \"$f\"; done 2>/dev/null | sort -u");
    out
}

/// The command that lists the library names in some libraries.
pub fn next_scan(todo: &Vec<String>) -> (out: String)
    ensures
        out@ == "for f in "@ + join(views(todo@), " "@)
            + "; do [ -L \"$f\" ] && continue; grep -a -o -E 'lib[A-Za-z0-9_+.-]*\\.so[.0-9]*' \"$f\"; done 2>/dev/null | sort -u"@,
{
    let mut out = "for f in ".to_owned();
    out.append(joined(todo, " ").as_str());
    out.append("; do [ -L \"$f\" ] && continue; grep -a -o -E 'lib[A-Za-z0-9_+.-]*\\.so[.0-9]*' \"$f\"; done 2>/dev/null | sort -u");
    out
}

/// The library names the kept binaries reference, followed through kept libraries as well.
pub struct Needed {
    pub needed: Vec<String>,
    pub scanned: Vec<String>,
}

/// A list with the names of another that it did not hold yet, each once.
pub open spec fn extended(list: Seq<Seq<char>>, more: Seq<Seq<char>>) -> Seq<Seq<char>>
    decreases more.len(),
{
    if more.len() == 0 {
        list
    } else {
        let front = extended(list, more.drop_last());
        if front.contains(more.last()) { front } else { front.push(more.last()) }
    }
}

fn extend(list: &mut Vec<String>, more: &Vec<String>)
    ensures
        views(final(list)@) == extended(views(old(list)@), views(more@)),
{
    let ghost start = views(list@);
    let ghost all = views(more@);
    let mut i: usize = 0;
    assert(all.take(0) =~= Seq::<Seq<char>>::empty());
    while i < more.len()
        invariant
            i <= more@.len(),
            all == views(more@),
            views(list@) == extended(start, all.take(i as int)),
        decreases more@.len() - i,
    {
        assert(all[i as int] == more@[i as int]@);
        assert(all.take(i + 1).drop_last() =~= all.take(i as int));
        let ghost before = views(list@);
        if !holds(list, more[i].as_str()) {
            list.push(more[i].clone());
            assert(views(list@) =~= before.push(all[i as int]));
        }
        i += 1;
    }
    assert(all.take(i as int) =~= all);
}

/// A list holds what it held and what was added.
pub proof fn extended_holds_both(list: Seq<Seq<char>>, more: Seq<Seq<char>>, name: Seq<char>)
    ensures
        extended(list, more).contains(name) == (list.contains(name) || more.contains(name)),
    decreases more.len(),
{
    if more.len() > 0 {
        let front = more.drop_last();
        extended_holds_both(list, front, name);
        push_contains(extended(list, front), more.last(), name);
        push_contains(front, more.last(), name);
        assert(front.push(more.last()) =~= more);
    }
}

/// The libraries still to be scanned: referenced, not going anyway, not scanned yet.
pub open spec fn pending(n: Needed, libs: Seq<Seq<char>>, excluded: Seq<Seq<char>>) -> Seq<Seq<char>>
    decreases libs.len(),
{
    if libs.len() == 0 {
        Seq::empty()
    } else {
        let front = pending(n, libs.drop_last(), excluded);
        let l = libs.last();
        if !excluded.contains(l) && !views(n.scanned@).contains(l) && wants(views(n.needed@), l) {
            front.push(l)
        } else {
            front
        }
    }
}

impl Needed {
    /// What the first scan found.
    pub fn start(output: &str) -> (r: Self)
        ensures
            views(r.needed@) == extended(Seq::empty(), words(output@)),
            views(r.scanned@) == Seq::<Seq<char>>::empty(),
    {
        let mut needed: Vec<String> = Vec::new();
        let found = words_of(output);
        assert(views(needed@) =~= Seq::<Seq<char>>::empty());
        extend(&mut needed, &found);
        let scanned: Vec<String> = Vec::new();
        assert(views(scanned@) =~= Seq::<Seq<char>>::empty());
        Needed { needed, scanned }
    }

    /// The libraries still to be scanned. Where there are none, all that is needed is known.
    pub fn todo(&self, libs: &Vec<String>, excluded: &Vec<String>) -> (out: Vec<String>)
        ensures
            views(out@) == pending(*self, views(libs@), views(excluded@)),
    {
        let ghost all = views(libs@);
        let mut out: Vec<String> = Vec::new();
        let mut i: usize = 0;
        assert(views(out@) =~= pending(*self, all.take(0), views(excluded@)));
        while i < libs.len()
            invariant
                i <= libs@.len(),
                all == views(libs@),
                views(out@) == pending(*self, all.take(i as int), views(excluded@)),
            decreases libs@.len() - i,
        {
            assert(all[i as int] == libs@[i as int]@);
            assert(all.take(i + 1).drop_last() =~= all.take(i as int));
            let ghost before = views(out@);
            let l = libs[i].as_str();
            if !holds(excluded, l) && !holds(&self.scanned, l) && wanted(&self.needed, l) {
                out.push(libs[i].clone());
                assert(views(out@) =~= before.push(all[i as int]));
            }
            i += 1;
        }
        assert(all.take(i as int) =~= all);
        out
    }

    /// Some libraries were scanned, with this output.
    pub fn learn(&mut self, todo: &Vec<String>, output: &str)
        ensures
            views(final(self).needed@) == extended(views(old(self).needed@), words(output@)),
            views(final(self).scanned@) == extended(views(old(self).scanned@), views(todo@)),
    {
        extend(&mut self.scanned, todo);
        let found = words_of(output);
        extend(&mut self.needed, &found);
    }
}

/// What a look at the scans so far comes to.
pub enum ScanStep {
    /// All that is needed is known.
    Done(Vec<String>),
    /// These libraries are scanned next.
    Scan(Vec<String>),
}

/// The library names the kept binaries reference, once every kept library they reach was scanned,
/// or else the libraries to scan next.
pub fn needed_libs(n: &Needed, libs: &Vec<String>, excluded: &Vec<String>) -> (r: ScanStep)
    ensures
        ({
            let left = pending(*n, views(libs@), views(excluded@));
            match r {
                ScanStep::Done(names) => left.len() == 0 && views(names@) == views(n.needed@),
                ScanStep::Scan(todo) => left.len() > 0 && views(todo@) == left,
            }
        }),
{
    let todo = n.todo(libs, excluded);
    assert(views(todo@).len() == todo@.len());
    if todo.len() > 0 {
        return ScanStep::Scan(todo);
    }
    let ghost all = views(n.needed@);
    let mut names: Vec<String> = Vec::new();
    let mut i: usize = 0;
    while i < n.needed.len()
        invariant
            i <= n.needed@.len(),
            all == views(n.needed@),
            names@.len() == i,
            forall|j: int| 0 <= j < i ==> (#[trigger] names@[j])@ == all[j],
        decreases n.needed@.len() - i,
    {
        assert(all[i as int] == n.needed@[i as int]@);
        names.push(n.needed[i].clone());
        i += 1;
    }
    assert(views(names@) =~= all);
    ScanStep::Done(names)
}

/// What is still to be scanned is exactly the libraries that are referenced, not going anyway and
/// not scanned yet.
pub proof fn pending_holds(n: Needed, libs: Seq<Seq<char>>, excluded: Seq<Seq<char>>, name: Seq<char>)
    ensures
        pending(n, libs, excluded).contains(name) == (libs.contains(name) && !excluded.contains(name)
            && !views(n.scanned@).contains(name) && wants(views(n.needed@), name)),
    decreases libs.len(),
{
    if libs.len() > 0 {
        let front = libs.drop_last();
        pending_holds(n, front, excluded, name);
        push_contains(pending(n, front, excluded), libs.last(), name);
        push_contains(front, libs.last(), name);
        assert(front.push(libs.last()) =~= libs);
    }
}

/// No library is scanned twice: what was scanned is never to be scanned again, so the scanning
/// ends.
pub proof fn nothing_is_scanned_twice(
    before: Needed,
    after: Needed,
    libs: Seq<Seq<char>>,
    excluded: Seq<Seq<char>>,
    name: Seq<char>,
)
    requires
        views(after.scanned@) == extended(views(before.scanned@), pending(before, libs, excluded)),
        pending(before, libs, excluded).contains(name) || views(before.scanned@).contains(name),
    ensures
        !pending(after, libs, excluded).contains(name),
{
    extended_holds_both(views(before.scanned@), pending(before, libs, excluded), name);
    pending_holds(after, libs, excluded, name);
}

/// Once nothing is to be scanned any more, every library that is referenced and kept was scanned.
pub proof fn the_end_of_the_scan_is_complete(n: Needed, libs: Seq<Seq<char>>, excluded: Seq<Seq<char>>, name: Seq<char>)
    requires
        pending(n, libs, excluded).len() == 0,
        libs.contains(name),
        wants(views(n.needed@), name),
        !excluded.contains(name),
    ensures
        views(n.scanned@).contains(name),
{
    pending_holds(n, libs, excluded, name);
    if !views(n.scanned@).contains(name) {
        assert(pending(n, libs, excluded).contains(name));
    }
}

/// Whether some names reference a library.
pub open spec fn reach(names: Set<Seq<char>>, lib: Seq<char>) -> bool {
    exists|n: Seq<char>| #[trigger] names.contains(n) && stem_of(n) == stem_of(lib)
}

/// Whether some names are closed: they hold the names the kept binaries reference, and with every
/// library they reference that is there and kept, the names that library references. `refs` says
/// which those are.
pub open spec fn closed_under(
    names: Set<Seq<char>>,
    first: Seq<Seq<char>>,
    libs: Seq<Seq<char>>,
    excluded: Seq<Seq<char>>,
    refs: spec_fn(Seq<char>) -> Set<Seq<char>>,
) -> bool {
    &&& forall|n: Seq<char>| #[trigger] first.contains(n) ==> names.contains(n)
    &&& forall|lib: Seq<char>, n: Seq<char>| #![trigger libs.contains(lib), refs(lib).contains(n)]
        libs.contains(lib) && !excluded.contains(lib) && reach(names, lib) && refs(lib).contains(n)
            ==> names.contains(n)
}

/// Whether a scan is on its way to the least closed names: it holds the first names and those of
/// every library it scanned, and no name that some closed names do without.
pub open spec fn on_the_way(
    n: Needed,
    first: Seq<Seq<char>>,
    libs: Seq<Seq<char>>,
    excluded: Seq<Seq<char>>,
    refs: spec_fn(Seq<char>) -> Set<Seq<char>>,
) -> bool {
    &&& forall|name: Seq<char>| #[trigger] first.contains(name) ==> views(n.needed@).contains(name)
    &&& forall|lib: Seq<char>, name: Seq<char>|
        #![trigger views(n.scanned@).contains(lib), refs(lib).contains(name)]
        views(n.scanned@).contains(lib) && refs(lib).contains(name) ==> views(n.needed@).contains(name)
    &&& forall|names: Set<Seq<char>>, name: Seq<char>|
        #![trigger closed_under(names, first, libs, excluded, refs), names.contains(name)]
        closed_under(names, first, libs, excluded, refs) && views(n.needed@).contains(name) ==> names.contains(name)
}

/// A scan starts on its way to the least closed names.
pub proof fn a_scan_starts_on_its_way(
    n: Needed,
    first: Seq<Seq<char>>,
    libs: Seq<Seq<char>>,
    excluded: Seq<Seq<char>>,
    refs: spec_fn(Seq<char>) -> Set<Seq<char>>,
)
    requires
        views(n.needed@) == extended(Seq::empty(), first),
        views(n.scanned@) == Seq::<Seq<char>>::empty(),
    ensures
        on_the_way(n, first, libs, excluded, refs),
{
    assert forall|name: Seq<char>| views(n.needed@).contains(name) == #[trigger] first.contains(name) by {
        extended_holds_both(Seq::empty(), first, name);
    }
    assert forall|names: Set<Seq<char>>, name: Seq<char>|
        #![trigger closed_under(names, first, libs, excluded, refs), names.contains(name)]
        closed_under(names, first, libs, excluded, refs) && views(n.needed@).contains(name) implies names.contains(name) by {
        assert(first.contains(name));
    }
}

/// A scan of the libraries that are due, which finds the names they reference and no others, keeps
/// it on its way.
pub proof fn a_scan_stays_on_its_way(
    before: Needed,
    after: Needed,
    output: Seq<Seq<char>>,
    first: Seq<Seq<char>>,
    libs: Seq<Seq<char>>,
    excluded: Seq<Seq<char>>,
    refs: spec_fn(Seq<char>) -> Set<Seq<char>>,
)
    requires
        on_the_way(before, first, libs, excluded, refs),
        forall|name: Seq<char>| #[trigger] output.contains(name) <==> exists|lib: Seq<char>|
            #[trigger] pending(before, libs, excluded).contains(lib) && refs(lib).contains(name),
        views(after.needed@) == extended(views(before.needed@), output),
        views(after.scanned@) == extended(views(before.scanned@), pending(before, libs, excluded)),
    ensures
        on_the_way(after, first, libs, excluded, refs),
{
    let due = pending(before, libs, excluded);
    assert forall|name: Seq<char>| #[trigger] views(after.needed@).contains(name)
        == (views(before.needed@).contains(name) || output.contains(name)) by {
        extended_holds_both(views(before.needed@), output, name);
    }
    assert forall|lib: Seq<char>, name: Seq<char>|
        #![trigger views(after.scanned@).contains(lib), refs(lib).contains(name)]
        views(after.scanned@).contains(lib) && refs(lib).contains(name) implies views(after.needed@).contains(name) by {
        extended_holds_both(views(before.scanned@), due, lib);
        if !views(before.scanned@).contains(lib) {
            assert(due.contains(lib));
            assert(output.contains(name));
        }
    }
    assert forall|names: Set<Seq<char>>, name: Seq<char>|
        #![trigger closed_under(names, first, libs, excluded, refs), names.contains(name)]
        closed_under(names, first, libs, excluded, refs) && views(after.needed@).contains(name) implies names.contains(name) by {
        if !views(before.needed@).contains(name) {
            assert(output.contains(name));
            let lib = choose|lib: Seq<char>| #[trigger] due.contains(lib) && refs(lib).contains(name);
            pending_holds(before, libs, excluded, lib);
            let needed = views(before.needed@);
            let i = choose|i: int| 0 <= i < needed.len() && stem_of(#[trigger] needed[i]) == stem_of(lib);
            assert(needed.contains(needed[i]));
            assert(names.contains(needed[i]));
            assert(reach(names, lib));
            assert(libs.contains(lib) && refs(lib).contains(name));
        }
    }
}

/// Once nothing is to be scanned any more, the names found are the least closed ones: they are
/// closed, and every closed names hold them.
pub proof fn the_names_found_are_the_least_closed(
    n: Needed,
    first: Seq<Seq<char>>,
    libs: Seq<Seq<char>>,
    excluded: Seq<Seq<char>>,
    refs: spec_fn(Seq<char>) -> Set<Seq<char>>,
    names: Set<Seq<char>>,
)
    requires
        on_the_way(n, first, libs, excluded, refs),
        pending(n, libs, excluded).len() == 0,
    ensures
        closed_under(views(n.needed@).to_set(), first, libs, excluded, refs),
        closed_under(names, first, libs, excluded, refs) ==> views(n.needed@).to_set().subset_of(names),
{
    let needed = views(n.needed@);
    let all = needed.to_set();
    assert forall|name: Seq<char>| #[trigger] all.contains(name) == needed.contains(name) by {}
    assert forall|lib: Seq<char>, name: Seq<char>| #![trigger libs.contains(lib), refs(lib).contains(name)]
        libs.contains(lib) && !excluded.contains(lib) && reach(all, lib) && refs(lib).contains(name)
        implies all.contains(name) by {
        let m = choose|m: Seq<char>| #[trigger] all.contains(m) && stem_of(m) == stem_of(lib);
        assert(needed.contains(m));
        let i = choose|i: int| 0 <= i < needed.len() && needed[i] == m;
        assert(stem_of(needed[i]) == stem_of(lib));
        the_end_of_the_scan_is_complete(n, libs, excluded, lib);
    }
    if closed_under(names, first, libs, excluded, refs) {
        assert forall|name: Seq<char>| #[trigger] all.contains(name) implies names.contains(name) by {
            assert(needed.contains(name));
        }
    }
}

/// A library is known by its file name up to and with its first `.so`, wherever it lies and whatever its
/// version.
pub proof fn a_library_is_known_by_its_stem(dir: Seq<char>, base: Seq<char>, rest: Seq<char>)
    requires
        !base.contains('/'),
        !rest.contains('/'),
        forall|j: int| 0 <= j < base.len() ==> !#[trigger] crate::text::stands_at(base + ".so"@ + rest, ".so"@, j),
    ensures
        stem_of(base + ".so"@ + rest) == base + ".so"@,
        stem_of(dir + seq!['/'] + (base + ".so"@ + rest)) == base + ".so"@,
{
    reveal_strlit(".so");
    let name = base + ".so"@ + rest;
    assert(name.subrange(base.len() as int, base.len() as int + 3) =~= ".so"@);
    assert(crate::text::stands_at(name, ".so"@, base.len() as int));
    crate::text::the_first_place_is_found(name, ".so"@, 0);
    match place_of(name, ".so"@, 0) {
        Some(i) => {
            assert(crate::text::stands_at(name, ".so"@, i));
            assert(i >= base.len());
            assert(!(i > base.len()));
        },
        None => {
            assert(!crate::text::stands_at(name, ".so"@, base.len() as int));
        },
    }
    assert(name.take(base.len() as int + 3) =~= base + ".so"@);
    assert(!name.contains('/')) by {
        if name.contains('/') {
            let k = choose|k: int| 0 <= k < name.len() && name[k] == '/';
            if k < base.len() {
                assert(base.contains(base[k]));
            } else if k >= base.len() + 3 {
                assert(rest.contains(rest[k - base.len() - 3]));
            } else {
                assert(name[k] == ".so"@[k - base.len()]);
            }
        }
    }
    crate::text::what_follows_the_last(name, '/');
    last_piece(dir, name);
}

proof fn last_piece(dir: Seq<char>, name: Seq<char>)
    requires
        !name.contains('/'),
    ensures
        after_last(dir + seq!['/'] + name, '/') == name,
{
    let s = dir + seq!['/'] + name;
    let n = dir.len() as int;
    crate::text::what_follows_the_last(s, '/');
    assert(s[n] == '/');
    assert(s.contains('/'));
    let t = after_last(s, '/');
    let w = seq!['/'] + t;
    assert(s.skip(s.len() - w.len()) == w);
    let at = s.len() - w.len();
    assert(s[at] == s.skip(at)[0]);
    assert(s[at] == '/');
    if at < n {
        assert(s[n] == s.skip(at)[n - at]);
        assert(w[n - at] == t[n - at - 1]);
        assert(t.contains(t[n - at - 1]));
    } else if at > n {
        assert(s[at] == name[at - n - 1]);
        assert(name.contains(name[at - n - 1]));
    }
    assert(t =~= w.skip(1));
    assert(w.skip(1) =~= s.skip(n + 1));
    assert(s.skip(n + 1) =~= name);
}

/// A file name without `.so` is its own stem.
pub proof fn other_names_are_their_own_stem(name: Seq<char>)
    requires
        !name.contains('/'),
        !crate::text::contains(name, ".so"@),
    ensures
        stem_of(name) == name,
{
    crate::text::what_follows_the_last(name, '/');
    crate::text::the_first_place_is_found(name, ".so"@, 0);
    match place_of(name, ".so"@, 0) {
        Some(i) => {
            assert(crate::text::stands_at(name, ".so"@, i));
        },
        None => {},
    }
}

/// What is to be scanned keeps the order of the libraries.
pub proof fn scans_keep_the_order(n: Needed, libs: Seq<Seq<char>>, excluded: Seq<Seq<char>>)
    ensures
        pending(n, libs, excluded) == libs.filter(
            |l: Seq<char>| !excluded.contains(l) && !views(n.scanned@).contains(l) && wants(views(n.needed@), l),
        ),
    decreases libs.len(),
{
    reveal(Seq::filter);
    if libs.len() > 0 {
        scans_keep_the_order(n, libs.drop_last(), excluded);
    } else {
        assert(pending(n, libs, excluded) =~= libs.filter(
            |l: Seq<char>| !excluded.contains(l) && !views(n.scanned@).contains(l) && wants(views(n.needed@), l),
        ));
    }
}

/// A list that is extended keeps what it held in front, and holds nothing twice that it did not.
pub proof fn a_list_grows_at_its_end(list: Seq<Seq<char>>, more: Seq<Seq<char>>)
    ensures
        list.len() <= extended(list, more).len() <= list.len() + more.len(),
        extended(list, more).take(list.len() as int) == list,
        list.no_duplicates() ==> extended(list, more).no_duplicates(),
    decreases more.len(),
{
    if more.len() > 0 {
        let front = extended(list, more.drop_last());
        a_list_grows_at_its_end(list, more.drop_last());
        if !front.contains(more.last()) {
            assert(front.push(more.last()).take(list.len() as int) =~= front.take(list.len() as int));
            if list.no_duplicates() {
                crate::names::one_more(front, more.last());
            }
        }
    } else {
        assert(list.take(list.len() as int) =~= list);
    }
}

} // verus!

//! What the dongle carries, each file with its digest, and the version that names them all.

use vstd::prelude::*;
use md5::{Digest, Md5};
use vstd::string::StringSliceAdditionalSpecFns;
use vstd::utf8::encode_utf8;

use crate::bytes::copy;
use crate::text::{find_char, first, first_at, hex_of, hex_text, hex_text_len, hex_text_plain, is_space, trim, trim_end, trim_start, trim_str};

verus! {

/// Where the stack lives on the dongle.
pub const LIVI_DIR: &'static str = "/script/livi";
/// Run at boot.
pub const BRINGUP_REMOTE: &'static str = "/script/start_main_service.sh";
/// The vendor init, kept so the web page can boot it again instead of ours.
pub const STOCK_BACKUP: &'static str = "/script/start_main_service.sh.orig";
/// The dongle's own web tools, installed where a restart keeps them.
pub const BOA_CGI: &'static str = "/etc/boa/cgi-bin/server.cgi";
pub const BOA_INDEX: &'static str = "/etc/boa/www/index.html";
/// Vendor web assets our page replaces.
pub const BOA_LEFTOVERS: &'static str =
    "/etc/boa/www/js /etc/boa/www/lang /etc/boa/www/static /etc/boa/www/index.html.gz";
/// What is installed, so an old dongle can be told from a current one.
pub const VERSION_FILE: &'static str = "/script/livi/version";
/// Recognises our own boot script, so it is never mistaken for the stock one.
pub const BRINGUP_MARKER: &'static str = "LIVI bridge bring-up";
/// Superseded builds, removed so a dongle carries only what it runs.
pub const OBSOLETE: [&'static str; 7] = [
    "/script/livi/seedrng.gz",
    "/script/livi/mfid.gz",
    "/script/livi/livi-usbproxy.gz",
    "/script/livi/l2fwd.gz",
    "/script/livi/mdnsd.gz",
    "/script/livi/carkit_tunnel.gz",
    "/script/livi/livi-link.gz",
];
/// Ports the stack answers on once it runs.
pub const STACK_PORTS: [u16; 2] = [5000, 5003];
/// Processes that must be running afterwards.
pub const STACK_PROCESSES: [&'static str; 5] = ["seedrng", "mfid", "livi-usbproxy", "l2fwd-watch", "mdnsd"];

/// Where each file goes, the binary first.
pub const TARGETS: [&'static str; 7] = [
    "/script/livi/cpc200-ccpa.gz",
    "/script/livi/livi-link.sh",
    "/script/livi/l2fwd-watch.sh",
    "/script/livi/flash-image.sh",
    "/script/start_main_service.sh",
    "/etc/boa/cgi-bin/server.cgi",
    "/etc/boa/www/index.html",
];

/// The MD5 digest of some bytes.
pub uninterp spec fn md5_of(data: Seq<u8>) -> Seq<u8>;

/// `md5::Md5::digest`: sixteen bytes that depend on the data alone.
#[verifier::external_body]
fn md5(data: &[u8]) -> (d: Vec<u8>)
    ensures
        d@ == md5_of(data@),
        d@.len() == 16,
{
    Md5::digest(data).to_vec()
}

/// The digest of some bytes in hexadecimal.
pub fn md5_hex(data: &[u8]) -> (out: String)
    ensures
        out@ == hex_text(md5_of(data@)),
        out@.len() == 32,
{
    let d = md5(data);
    proof {
        hex_text_len(d@);
    }
    hex_of(&d)
}

/// One file of the payload.
pub struct File {
    pub remote: String,
    pub data: Vec<u8>,
    pub md5: String,
}

/// What a file is: where it goes and what it holds.
pub open spec fn contents(files: Seq<File>) -> Seq<(Seq<char>, Seq<u8>)> {
    Seq::new(files.len(), |i: int| (files[i].remote@, files[i].data@))
}

/// Whether every file carries its own digest.
pub open spec fn digested(files: Seq<File>) -> bool {
    forall|i: int| 0 <= i < files.len() ==> (#[trigger] files[i]).md5@ == hex_text(md5_of(files[i].data@))
}

impl File {
    /// A file with its digest.
    pub fn new(remote: String, data: Vec<u8>) -> (r: Self)
        ensures
            r.remote == remote,
            r.data == data,
            r.md5@ == hex_text(md5_of(data@)),
    {
        let md5 = md5_hex(&data);
        File { remote, data, md5 }
    }
}

/// The contents the installer brings along, in the order of their targets.
pub struct Assets {
    pub stack: Vec<u8>,
    pub link: Vec<u8>,
    pub l2fwd_watch: Vec<u8>,
    pub flash_image: Vec<u8>,
    pub bringup: Vec<u8>,
    pub server_cgi: Vec<u8>,
    pub index_html: Vec<u8>,
}

/// The files that are installed, but for the version.
pub open spec fn carried(a: Assets) -> Seq<(Seq<char>, Seq<u8>)> {
    seq![
        (TARGETS@[0]@, a.stack@),
        (TARGETS@[1]@, a.link@),
        (TARGETS@[2]@, a.l2fwd_watch@),
        (TARGETS@[3]@, a.flash_image@),
        (TARGETS@[4]@, a.bringup@),
        (TARGETS@[5]@, a.server_cgi@),
        (TARGETS@[6]@, a.index_html@),
    ]
}

/// The digests of some files, one after the other.
pub open spec fn digests(files: Seq<(Seq<char>, Seq<u8>)>) -> Seq<char>
    decreases files.len(),
{
    if files.len() == 0 {
        Seq::empty()
    } else {
        digests(files.drop_last()) + hex_text(md5_of(files.last().1))
    }
}

/// The version line: the release and a short digest of everything it installs.
pub open spec fn version_line(release: Seq<char>, digest: Seq<char>) -> Seq<char> {
    release + " "@ + hex_text(md5_of(encode_utf8(digest))).take(8) + "\n"@
}

/// The version line of some assets.
pub open spec fn version_of(a: Assets, release: Seq<char>) -> Seq<char> {
    version_line(release, digests(carried(a)))
}

/// The release that is installed: the one that is given, else the version of the program itself.
pub fn release(given: Option<&'static str>, own: &'static str) -> (r: &'static str)
    ensures
        r@ == (match given {
            Some(g) => g@,
            None => own@,
        }),
{
    match given {
        Some(g) => g,
        None => own,
    }
}

/// Whether a text is one word, with no white space in it.
pub open spec fn is_word(s: Seq<char>) -> bool {
    s.len() > 0 && forall|i: int| 0 <= i < s.len() ==> !is_space(#[trigger] s[i])
}

/// The version and a short digest of everything it installs, so a dongle that carries the same
/// string carries the same files. The line splits again into the two, as long as the release is a
/// word.
pub fn version(release: &str, digest: &str) -> (out: String)
    ensures
        out@ == version_line(release@, digest@),
        is_word(release@) ==> line_parts(out@)
            == (release@, hex_text(md5_of(encode_utf8(digest@))).take(8)),
{
    let sum = md5_hex(digest.as_bytes());
    let mut out = release.to_owned();
    out.append(" ");
    assert(sum@.subrange(0, 8) =~= sum@.take(8));
    out.append(sum.as_str().substring_char(0, 8));
    out.append("\n");
    proof {
        if is_word(release@) {
            a_line_splits_again(release@, md5_of(encode_utf8(digest@)));
        }
    }
    out
}

fn carry(files: &mut Vec<File>, target: &str, data: &Vec<u8>)
    requires
        digested(old(files)@),
    ensures
        digested(final(files)@),
        contents(final(files)@) == contents(old(files)@).push((target@, data@)),
{
    let ghost before = contents(files@);
    files.push(File::new(target.to_owned(), copy(data)));
    assert(contents(files@) =~= before.push((target@, data@)));
}

/// The digests of some files, one after the other.
fn digest_all(files: &Vec<File>) -> (out: String)
    requires
        digested(files@),
    ensures
        out@ == digests(contents(files@)),
{
    let ghost all = contents(files@);
    let mut out = String::new();
    let mut i: usize = 0;
    assert(out@ =~= digests(all.take(0)));
    while i < files.len()
        invariant
            i <= files@.len(),
            digested(files@),
            all == contents(files@),
            out@ == digests(all.take(i as int)),
        decreases files@.len() - i,
    {
        assert(files@[i as int].md5@ == hex_text(md5_of(files@[i as int].data@)));
        assert(all.take(i + 1).drop_last() =~= all.take(i as int));
        out.append(files[i].md5.as_str());
        i += 1;
    }
    assert(all.take(i as int) =~= all);
    out
}

/// Everything but the version.
fn carried_files(a: &Assets) -> (files: Vec<File>)
    ensures
        contents(files@) == carried(*a),
        digested(files@),
{
    let mut files: Vec<File> = Vec::new();
    carry(&mut files, TARGETS[0], &a.stack);
    carry(&mut files, TARGETS[1], &a.link);
    carry(&mut files, TARGETS[2], &a.l2fwd_watch);
    carry(&mut files, TARGETS[3], &a.flash_image);
    carry(&mut files, TARGETS[4], &a.bringup);
    carry(&mut files, TARGETS[5], &a.server_cgi);
    carry(&mut files, TARGETS[6], &a.index_html);
    assert(contents(files@) =~= carried(*a));
    files
}

/// Everything the device should carry, the binary first, and the version last, because it names
/// what the others add up to.
pub fn files(a: &Assets, release: &str) -> (files: Vec<File>)
    ensures
        contents(files@) == carried(*a).push((VERSION_FILE@, encode_utf8(version_of(*a, release@)))),
        digested(files@),
{
    let mut files = carried_files(a);
    let digest = digest_all(&files);
    let line = version(release, digest.as_str());
    let data = copy(line.as_str().as_bytes());
    carry(&mut files, VERSION_FILE, &data);
    files
}

/// The release and the digest a version line is made of.
pub open spec fn line_parts(line: Seq<char>) -> (Seq<char>, Seq<char>) {
    let l = trim(line);
    let at = first(l, ' ') as int;
    if at < l.len() { (l.take(at), l.skip(at + 1)) } else { (l, Seq::empty()) }
}

/// The release and the digest a version line is made of.
pub fn parts(line: &str) -> (r: (&str, &str))
    ensures
        (r.0@, r.1@) == line_parts(line@),
{
    let l = trim_str(line);
    let n: usize = l.unicode_len();
    match find_char(l, ' ') {
        Some(at) => {
            assert(l@.subrange(0, at as int) =~= l@.take(at as int));
            assert(l@.subrange(at + 1, n as int) =~= l@.skip(at + 1));
            (l.substring_char(0, at), l.substring_char(at + 1, n))
        },
        None => {
            assert(l@.subrange(n as int, n as int) =~= Seq::<char>::empty());
            (l, l.substring_char(n, n))
        },
    }
}

/// What the version file of the current assets says.
pub fn current_version(a: &Assets, release: &str) -> (out: String)
    ensures
        out@ == version_of(*a, release@),
{
    let files = carried_files(a);
    let digest = digest_all(&files);
    version(release, digest.as_str())
}

/// The same assets under the same release always have the same version, and its digest part does
/// not depend on the release.
pub proof fn the_version_follows_the_assets(a: Assets, b: Assets, one: Seq<char>, other: Seq<char>)
    requires
        carried(a) == carried(b),
    ensures
        version_of(a, one) == version_of(b, one),
        version_of(a, one).skip(one.len() as int) == version_of(b, other).skip(other.len() as int),
{
    let tail = " "@ + hex_text(md5_of(encode_utf8(digests(carried(a))))).take(8) + "\n"@;
    assert(version_of(a, one).skip(one.len() as int) =~= tail);
    assert(version_of(b, other).skip(other.len() as int) =~= tail);
}

/// A line of a release and a short digest splits into the two.
proof fn a_line_splits_again(release: Seq<char>, sum: Seq<u8>)
    requires
        is_word(release),
        hex_text(sum).len() == 32,
    ensures
        line_parts(release + " "@ + hex_text(sum).take(8) + "\n"@) == (release, hex_text(sum).take(8)),
{
    reveal_strlit(" ");
    reveal_strlit("\n");
    hex_text_len(sum);
    let short = hex_text(sum).take(8);
    let body = release + " "@ + short;
    let line = body + "\n"@;
    assert(line =~= body.push('\n'));
    hex_text_plain(sum, 7);
    assert(body.last() == hex_text(sum)[7]);
    assert(line[0] == release[0]);
    assert(trim_start(line) == line);
    assert(line.drop_last() =~= body);
    assert(trim_end(body) == body);
    assert(trim(line) == body);
    assert forall|i: int| 0 <= i < release.len() implies body[i] != ' ' by {
        assert(body[i] == release[i]);
    }
    first_at(body, ' ', release.len() as int);
    assert(body.take(release.len() as int) =~= release);
    assert(body.skip(release.len() as int + 1) =~= short);
}

/// Each asset goes to its own place on the dongle, the binary first.
pub proof fn where_the_assets_go(a: Assets)
    ensures
        carried(a) == seq![
            ("/script/livi/cpc200-ccpa.gz"@, a.stack@),
            ("/script/livi/livi-link.sh"@, a.link@),
            ("/script/livi/l2fwd-watch.sh"@, a.l2fwd_watch@),
            ("/script/livi/flash-image.sh"@, a.flash_image@),
            ("/script/start_main_service.sh"@, a.bringup@),
            ("/etc/boa/cgi-bin/server.cgi"@, a.server_cgi@),
            ("/etc/boa/www/index.html"@, a.index_html@),
        ],
{
}

/// The digest of every file goes into the version, in the order of the files, whatever stands beside it.
pub proof fn every_file_goes_into_the_version(
    a: Seq<(Seq<char>, Seq<u8>)>,
    f: (Seq<char>, Seq<u8>),
    b: Seq<(Seq<char>, Seq<u8>)>,
)
    ensures
        digests(a + seq![f] + b) == digests(a) + hex_text(md5_of(f.1)) + digests(b),
        digests(Seq::empty()).len() == 0,
    decreases b.len(),
{
    let s = a + seq![f] + b;
    if b.len() == 0 {
        assert(s.drop_last() =~= a);
        assert(s.last() == f);
        assert(digests(s) =~= digests(a) + hex_text(md5_of(f.1)) + digests(b));
    } else {
        every_file_goes_into_the_version(a, f, b.drop_last());
        assert(s.drop_last() =~= a + seq![f] + b.drop_last());
        assert(s.last() == b.last());
        assert(digests(s) =~= digests(a) + hex_text(md5_of(f.1)) + digests(b));
    }
}

/// A version line falls into the word in front of its space and the word behind it, and a line of one word
/// has nothing behind it.
pub proof fn a_version_line_falls_apart(release: Seq<char>, digest: Seq<char>)
    requires
        is_word(release),
        is_word(digest),
    ensures
        line_parts(release + seq![' '] + digest + seq!['\n']) == (release, digest),
        line_parts(release + seq![' '] + digest) == (release, digest),
        line_parts(release) == (release, Seq::<char>::empty()),
{
    let l = release + seq![' '] + digest;
    let s = l + seq!['\n'];
    let n = release.len() as int;
    assert(l[0] == release[0] && l.last() == digest[digest.len() - 1]);
    crate::text::untouched(l);
    assert(is_space('\n'));
    assert(s[0] == l[0]);
    assert(trim_start(s) == s);
    assert(s.drop_last() =~= l);
    assert(s.last() == '\n');
    assert(trim_end(s) == trim_end(l));
    assert(trim_end(l) == l);
    assert(trim(s) == l);
    assert forall|i: int| 0 <= i < n implies l[i] != ' ' by {
        assert(l[i] == release[i]);
        assert(!is_space(release[i]));
    }
    assert(l[n] == ' ');
    first_at(l, ' ', n);
    assert(l.take(n) =~= release);
    assert(l.skip(n + 1) =~= digest);
    assert(!is_space(release[n - 1]));
    crate::text::untouched(release);
    assert forall|i: int| 0 <= i < n implies release[i] != ' ' by {
        assert(!is_space(release[i]));
    }
    first_at(release, ' ', n);
}

} // verus!

//! Gets a shell onto a stock dongle. The wire writes files with no execute bit, so the bootstrap
//! rides on a profile that is sourced at boot rather than executed.

use vstd::prelude::*;
use vstd::string::StringSliceAdditionalSpecFns;
use vstd::utf8::encode_utf8;

use crate::bytes::{append, copy, integers_read_back, le32, put_le32, u32_le};
use crate::dongle::{is_dongle, is_livi_link, message, message_bytes, LINK_PRODUCT, PRODUCTS, VENDOR};

verus! {

pub const TYPE_OPEN: u32 = 0x01;
pub const TYPE_SEND_FILE: u32 = 0x99;

pub const CARRIER: &'static str = "/etc/profile";
pub const BOOT_HOOK: &'static str = "/script/livi-boot.sh";
/// What the carrier says besides its own, so that the boot sources the bootstrap.
pub const HOOK_LINE: &'static str = "\ncase \"$0\" in */rcS) sh /script/livi-boot.sh ;; esac\n";

/// The geometry the dongle wants before it accepts messages.
pub open spec fn geometry() -> Seq<u8> {
    le32(800) + le32(480) + le32(30) + le32(5) + le32(49152) + le32(2) + le32(2)
}

/// The geometry the dongle wants before it accepts messages.
pub fn open_payload() -> (out: Vec<u8>)
    ensures
        out@ == geometry(),
        out@.len() == 28,
{
    let mut out: Vec<u8> = Vec::new();
    put_le32(&mut out, 800);
    assert(out@ =~= le32(800));
    put_le32(&mut out, 480);
    put_le32(&mut out, 30);
    put_le32(&mut out, 5);
    put_le32(&mut out, 49152);
    put_le32(&mut out, 2);
    put_le32(&mut out, 2);
    out
}

/// A file on the wire: `[nameLen][name\0][contentLen][content]`
pub open spec fn file_bytes(path: Seq<u8>, content: Seq<u8>) -> Seq<u8> {
    le32(((path.len() + 1) % 0x1_0000_0000) as u32) + path + seq![0u8]
        + le32((content.len() % 0x1_0000_0000) as u32) + content
}

/// A length as it is told: its lower 32 bits.
fn told(n: usize) -> (r: u32)
    ensures
        r == (n as int % 0x1_0000_0000) as u32,
{
    (n as u64 % 0x1_0000_0000) as u32
}

/// The length of a path with the zero that closes it, as it is told.
fn told_closed(n: usize) -> (r: u32)
    ensures
        r == ((n as int + 1) % 0x1_0000_0000) as u32,
{
    let low: u64 = n as u64 % 0x1_0000_0000;
    ((low + 1) % 0x1_0000_0000) as u32
}

/// A file on the wire.
pub fn send_file_payload(path: &str, content: &[u8]) -> (out: Vec<u8>)
    ensures
        out@ == file_bytes(path.spec_bytes(), content@),
{
    let name = path.as_bytes();
    let first: u32 = told_closed(name.len());
    let second: u32 = told(content.len());
    let mut out: Vec<u8> = Vec::new();
    put_le32(&mut out, first);
    assert(out@ =~= le32(first));
    append(&mut out, name);
    let ghost front = out@;
    out.push(0u8);
    assert(out@ =~= front + seq![0u8]);
    put_le32(&mut out, second);
    append(&mut out, content);
    out
}

/// Where the parts of a file on the wire stand.
proof fn parts_stand(a: Seq<u8>, path: Seq<u8>, c: Seq<u8>, content: Seq<u8>)
    requires
        a.len() == 4,
        c.len() == 4,
    ensures
        ({
            let b = a + path + seq![0u8] + c + content;
            let n = path.len() as int;
            &&& b.subrange(0, 4) == a
            &&& b.subrange(4, 4 + n) == path
            &&& b[4 + n] == 0
            &&& b.subrange(5 + n, 9 + n) == c
            &&& b.skip(9 + n) == content
        }),
{
    let b = a + path + seq![0u8] + c + content;
    let n = path.len() as int;
    assert(b.subrange(0, 4) =~= a);
    assert(b.subrange(4, 4 + n) =~= path);
    assert(b.subrange(5 + n, 9 + n) =~= c);
    assert(b.skip(9 + n) =~= content);
}

/// A file on the wire carries its path and its bytes, each with its length in front.
pub proof fn a_file_carries_its_path_and_its_bytes(path: Seq<u8>, content: Seq<u8>)
    requires
        path.len() < 0xffff_ffff,
        content.len() <= 0xffff_ffff,
    ensures
        ({
            let b = file_bytes(path, content);
            let n = path.len() as int;
            &&& u32_le(b, 0) == n + 1
            &&& b.subrange(4, 4 + n) == path
            &&& b[4 + n] == 0
            &&& u32_le(b, 5 + n) == content.len()
            &&& b.skip(9 + n) == content
        }),
{
    let b = file_bytes(path, content);
    let n = path.len() as int;
    let first = ((path.len() + 1) % 0x1_0000_0000) as u32;
    let second = (content.len() % 0x1_0000_0000) as u32;
    assert(first == n + 1 && second == content.len());
    parts_stand(le32(first), path, le32(second), content);
    integers_read_back(b, 0, 0, first);
    integers_read_back(b, 5 + n, 0, second);
}

/// The two messages that write one file to a stock dongle.
pub fn write_messages(path: &str, content: &[u8]) -> (r: (Vec<u8>, Vec<u8>))
    ensures
        r.0@ == message_bytes(TYPE_OPEN, geometry()),
        r.1@ == message_bytes(TYPE_SEND_FILE, file_bytes(path.spec_bytes(), content@)),
{
    (message(TYPE_OPEN, &open_payload()), message(TYPE_SEND_FILE, &send_file_payload(path, content)))
}

/// The scripts the bootstrap is made of.
pub struct BootAssets {
    pub bootstrap: String,
    /// The carrier's own text.
    pub carrier: String,
}

/// A file to write to the dongle.
pub struct BootFile {
    pub path: &'static str,
    pub content: Vec<u8>,
}

/// What is written so that the next boot runs the bootstrap: the bootstrap itself, then the carrier
/// with the hook behind its own text.
pub fn boot_hook(a: &BootAssets) -> (r: [BootFile; 2])
    ensures
        r@.len() == 2,
        r@[0].path@ == BOOT_HOOK@,
        r@[0].content@ == encode_utf8(a.bootstrap@),
        r@[1].path@ == CARRIER@,
        r@[1].content@ == encode_utf8(a.carrier@ + HOOK_LINE@),
{
    let mut hooked = a.carrier.clone();
    hooked.append(HOOK_LINE);
    [
        BootFile { path: BOOT_HOOK, content: copy(a.bootstrap.as_str().as_bytes()) },
        BootFile { path: CARRIER, content: copy(hooked.as_str().as_bytes()) },
    ]
}

/// What the carrier has to say again once the bootstrap has done its job.
pub fn carrier_body(a: &BootAssets) -> (r: &str)
    ensures
        r@ == a.carrier@,
{
    a.carrier.as_str()
}

/// Whether a device on the bus is a stock dongle, and not the LIVI Link.
pub fn is_stock_dongle(vendor: u16, product: u16, name: Option<&str>) -> (r: bool)
    ensures
        r == (vendor == VENDOR && PRODUCTS@.contains(product) && !(name matches Some(n) && n@ == LINK_PRODUCT@)),
{
    is_dongle(vendor, product) && !is_livi_link(name)
}

/// The geometry the dongle is told: width, height, frame rate, format, packet size, version and mode, four
/// bytes each.
pub proof fn the_geometry_reads_back()
    ensures
        geometry().len() == 28,
        u32_le(geometry(), 0) == 800,
        u32_le(geometry(), 4) == 480,
        u32_le(geometry(), 8) == 30,
        u32_le(geometry(), 12) == 5,
        u32_le(geometry(), 16) == 49152,
        u32_le(geometry(), 20) == 2,
        u32_le(geometry(), 24) == 2,
{
    let g = geometry();
    assert(g.subrange(0, 4) =~= le32(800));
    assert(g.subrange(4, 8) =~= le32(480));
    assert(g.subrange(8, 12) =~= le32(30));
    assert(g.subrange(12, 16) =~= le32(5));
    assert(g.subrange(16, 20) =~= le32(49152));
    assert(g.subrange(20, 24) =~= le32(2));
    assert(g.subrange(24, 28) =~= le32(2));
    integers_read_back(g, 0, 0, 800);
    integers_read_back(g, 4, 0, 480);
    integers_read_back(g, 8, 0, 30);
    integers_read_back(g, 12, 0, 5);
    integers_read_back(g, 16, 0, 49152);
    integers_read_back(g, 20, 0, 2);
    integers_read_back(g, 24, 0, 2);
}

} // verus!

//! The firmware bundle of the V821B dongle, and the rules around reading, checking and flashing
//! it.

use vstd::prelude::*;

use crate::bytes::{append, copy_range, get_le32, integers_read_back, le32, put_le32, same, u32_le};
use crate::crc::{checksum, crc32};
use crate::text::{contains, dec, holds, lines, lines_of, put_dec, put_padded, read_unsigned, same_text, stands_at};
use crate::text::{trim, trimmed, unsigned, views, zero_pad};

verus! {

pub const MTD1_SIZE: u64 = 0x0031_0000;
pub const MTD3_SIZE: u64 = 0x0048_0000;

/// `LFWB`
pub const BUNDLE_MAGIC: [u8; 4] = [0x4c, 0x46, 0x57, 0x42];

/// What describes one partition of a bundle: its kind, its length and its checksum.
pub open spec fn descriptor(kind: u8, data: Seq<u8>) -> Seq<u8> {
    seq![kind, 0u8, 0u8, 0u8] + le32((data.len() % 0x1_0000_0000) as u32) + le32(checksum(data))
}

/// A bundle of two partitions: the head, a descriptor each, then their bytes.
pub open spec fn bundle(mtd1: Seq<u8>, mtd3: Seq<u8>) -> Seq<u8> {
    BUNDLE_MAGIC@ + seq![1u8, 2u8, 0u8, 0u8] + descriptor(1, mtd1) + descriptor(3, mtd3) + mtd1 + mtd3
}

fn put_descriptor(out: &mut Vec<u8>, kind: u8, data: &[u8])
    ensures
        final(out)@ == old(out)@ + descriptor(kind, data@),
{
    let ghost start = out@;
    out.push(kind);
    out.push(0);
    out.push(0);
    out.push(0);
    put_le32(out, (data.len() as u64 % 0x1_0000_0000) as u32);
    put_le32(out, crc32(data));
    assert(out@ =~= start + descriptor(kind, data@));
}

/// Packs two partitions into a bundle.
pub fn pack_lfwb(mtd1: &[u8], mtd3: &[u8]) -> (out: Vec<u8>)
    ensures
        out@ == bundle(mtd1@, mtd3@),
{
    let mut out: Vec<u8> = Vec::new();
    append(&mut out, &BUNDLE_MAGIC);
    let head = [1u8, 2u8, 0u8, 0u8];
    assert(head@ =~= seq![1u8, 2u8, 0u8, 0u8]);
    append(&mut out, &head);
    assert(out@ =~= BUNDLE_MAGIC@ + seq![1u8, 2u8, 0u8, 0u8]);
    put_descriptor(&mut out, 1, mtd1);
    put_descriptor(&mut out, 3, mtd3);
    append(&mut out, mtd1);
    append(&mut out, mtd3);
    out
}

/// Why a bundle is refused.
#[derive(Clone, Copy, PartialEq, Eq, Structural, Debug)]
pub enum BundleError {
    NotABundle,
    NoMtd1,
    NoMtd3,
}

impl BundleError {
    /// The failure in words.
    pub fn text(&self) -> (out: String)
        ensures
            out@ == (match *self {
                BundleError::NotABundle => "not an LFWB bundle"@,
                BundleError::NoMtd1 => "no mtd1 payload in bundle"@,
                BundleError::NoMtd3 => "no mtd3 payload in bundle"@,
            }),
    {
        match self {
            BundleError::NotABundle => "not an LFWB bundle".to_owned(),
            BundleError::NoMtd1 => "no mtd1 payload in bundle".to_owned(),
            BundleError::NoMtd3 => "no mtd3 payload in bundle".to_owned(),
        }
    }
}

/// Whether some bytes start as a bundle does.
pub open spec fn is_bundle(b: Seq<u8>) -> bool {
    b.len() >= 8 && b.subrange(0, 4) == BUNDLE_MAGIC@
}

/// Where the `i`th descriptor starts.
pub open spec fn slot(i: int) -> int {
    8 + 12 * i
}

/// The length the `i`th descriptor says.
pub open spec fn part_len(b: Seq<u8>, i: int) -> int {
    u32_le(b, slot(i) + 4) as int
}

/// Where the bytes of the `i`th partition start.
pub open spec fn part_at(b: Seq<u8>, i: int) -> int
    decreases i,
{
    if i <= 0 { slot(b[5] as int) } else { part_at(b, i - 1) + part_len(b, i - 1) }
}

/// Whether the descriptors and the partitions a bundle counts are all there.
pub open spec fn whole(b: Seq<u8>) -> bool {
    is_bundle(b) ==> b[5] == 0 || (slot(b[5] as int) <= b.len() && part_at(b, b[5] as int) <= b.len())
}

/// The last partition of a kind among the first `n`.
pub open spec fn last_of(b: Seq<u8>, kind: u8, n: int) -> Option<Seq<u8>>
    decreases n,
{
    if n <= 0 {
        None
    } else if b[slot(n - 1)] == kind {
        Some(b.subrange(part_at(b, n - 1), part_at(b, n)))
    } else {
        last_of(b, kind, n - 1)
    }
}

proof fn parts_grow(b: Seq<u8>, i: int, j: int)
    requires
        0 <= i <= j,
    ensures
        part_at(b, i) <= part_at(b, j),
        slot(b[5] as int) <= part_at(b, i),
    decreases j,
{
    if i < j {
        parts_grow(b, i, j - 1);
    } else if i > 0 {
        parts_grow(b, i - 1, i - 1);
    }
}

/// Whether a bundle is whole. One that is not cannot be unpacked.
pub fn bundle_is_whole(b: &[u8]) -> (r: bool)
    ensures
        r == whole(b@),
{
    if b.len() < 8 {
        return true;
    }
    let magic = copy_range(b, 0, 4);
    if !same(&magic, &BUNDLE_MAGIC) {
        return true;
    }
    let count: usize = b[5] as usize;
    if count == 0 {
        return true;
    }
    if b.len() < 8 + 12 * count {
        return false;
    }
    let mut at: usize = 8 + 12 * count;
    let mut i: usize = 0;
    while i < count
        invariant
            i <= count <= 255,
            is_bundle(b@),
            count > 0,
            count == b@[5],
            8 + 12 * count <= b@.len(),
            b@.len() == b.len(),
            at == part_at(b@, i as int),
            at <= b@.len(),
        decreases count - i,
    {
        let len: usize = get_le32(b, 8 + 12 * i + 4) as usize;
        proof {
            parts_grow(b@, i + 1, count as int);
        }
        if len > b.len() - at {
            return false;
        }
        at = at + len;
        i += 1;
    }
    true
}

/// Takes the two partitions out of a bundle. Of several descriptors of one kind the last counts,
/// and other kinds are passed over.
pub fn unpack_lfwb(b: &[u8]) -> (r: Result<(Vec<u8>, Vec<u8>), BundleError>)
    requires
        whole(b@),
    ensures
        ({
            let one = last_of(b@, 1, b@[5] as int);
            let three = last_of(b@, 3, b@[5] as int);
            match r {
                Ok((mtd1, mtd3)) => is_bundle(b@) && one == Some(mtd1@) && three == Some(mtd3@),
                Err(BundleError::NotABundle) => !is_bundle(b@),
                Err(BundleError::NoMtd1) => is_bundle(b@) && one is None,
                Err(BundleError::NoMtd3) => is_bundle(b@) && one is Some && three is None,
            }
        }),
{
    if b.len() < 8 {
        return Err(BundleError::NotABundle);
    }
    let magic = copy_range(b, 0, 4);
    if !same(&magic, &BUNDLE_MAGIC) {
        return Err(BundleError::NotABundle);
    }
    let count: usize = b[5] as usize;
    let mut mtd1: Option<Vec<u8>> = None;
    let mut mtd3: Option<Vec<u8>> = None;
    if count > 0 {
        let mut at: usize = 8 + 12 * count;
        let mut i: usize = 0;
        while i < count
            invariant
                i <= count <= 255,
                count == b@[5],
                count > 0,
                8 + 12 * count <= b@.len(),
                part_at(b@, count as int) <= b@.len(),
                b@.len() == b.len(),
                at == part_at(b@, i as int),
                at <= b@.len(),
                match mtd1 {
                    Some(d) => last_of(b@, 1, i as int) == Some(d@),
                    None => last_of(b@, 1, i as int) is None,
                },
                match mtd3 {
                    Some(d) => last_of(b@, 3, i as int) == Some(d@),
                    None => last_of(b@, 3, i as int) is None,
                },
            decreases count - i,
        {
            proof {
                parts_grow(b@, i + 1, count as int);
            }
            let kind: u8 = b[8 + 12 * i];
            let len: usize = get_le32(b, 8 + 12 * i + 4) as usize;
            if kind == 1 {
                mtd1 = Some(copy_range(b, at, at + len));
            } else if kind == 3 {
                mtd3 = Some(copy_range(b, at, at + len));
            }
            at = at + len;
            i += 1;
        }
    }
    match (mtd1, mtd3) {
        (Some(a), Some(c)) => Ok((a, c)),
        (None, _) => Err(BundleError::NoMtd1),
        (Some(_), None) => Err(BundleError::NoMtd3),
    }
}

/// What was packed is unpacked again.
pub proof fn a_bundle_gives_its_parts_back(mtd1: Seq<u8>, mtd3: Seq<u8>)
    requires
        mtd1.len() <= 0xffff_ffff,
        mtd3.len() <= 0xffff_ffff,
    ensures
        is_bundle(bundle(mtd1, mtd3)),
        whole(bundle(mtd1, mtd3)),
        last_of(bundle(mtd1, mtd3), 1, bundle(mtd1, mtd3)[5] as int) == Some(mtd1),
        last_of(bundle(mtd1, mtd3), 3, bundle(mtd1, mtd3)[5] as int) == Some(mtd3),
{
    let b = bundle(mtd1, mtd3);
    let d1 = descriptor(1, mtd1);
    let d3 = descriptor(3, mtd3);
    let head = BUNDLE_MAGIC@ + seq![1u8, 2u8, 0u8, 0u8];
    laid_out(head, d1, d3, mtd1, mtd3);
    assert(head.subrange(0, 4) =~= BUNDLE_MAGIC@);
    assert(head[5] == 2);
    assert(d1.subrange(4, 8) =~= le32(mtd1.len() as u32));
    assert(d3.subrange(4, 8) =~= le32(mtd3.len() as u32));
    integers_read_back(b, 12, 0, mtd1.len() as u32);
    integers_read_back(b, 24, 0, mtd3.len() as u32);
    two_parts(b, mtd1, mtd3);
}

/// Where the parts of a bundle stand.
proof fn laid_out(head: Seq<u8>, d1: Seq<u8>, d3: Seq<u8>, mtd1: Seq<u8>, mtd3: Seq<u8>)
    requires
        head.len() == 8,
        d1.len() == 12,
        d3.len() == 12,
    ensures
        ({
            let b = head + d1 + d3 + mtd1 + mtd3;
            &&& b.len() == 32 + mtd1.len() + mtd3.len()
            &&& b.subrange(0, 4) == head.subrange(0, 4)
            &&& b[5] == head[5]
            &&& b[8] == d1[0]
            &&& b[20] == d3[0]
            &&& b.subrange(12, 16) == d1.subrange(4, 8)
            &&& b.subrange(24, 28) == d3.subrange(4, 8)
            &&& b.subrange(32, 32 + mtd1.len() as int) == mtd1
            &&& b.subrange(32 + mtd1.len() as int, 32 + mtd1.len() as int + mtd3.len()) == mtd3
        }),
{
    let b = head + d1 + d3 + mtd1 + mtd3;
    assert(b.subrange(0, 4) =~= head.subrange(0, 4));
    assert(b.subrange(12, 16) =~= d1.subrange(4, 8));
    assert(b.subrange(24, 28) =~= d3.subrange(4, 8));
    assert(b.subrange(32, 32 + mtd1.len() as int) =~= mtd1);
    assert(b.subrange(32 + mtd1.len() as int, 32 + mtd1.len() as int + mtd3.len()) =~= mtd3);
}

/// A bundle of two partitions holds them both.
proof fn two_parts(b: Seq<u8>, mtd1: Seq<u8>, mtd3: Seq<u8>)
    requires
        b.len() == 32 + mtd1.len() + mtd3.len(),
        b.subrange(0, 4) == BUNDLE_MAGIC@,
        b[5] == 2,
        b[8] == 1,
        b[20] == 3,
        u32_le(b, 12) == mtd1.len(),
        u32_le(b, 24) == mtd3.len(),
        b.subrange(32, 32 + mtd1.len() as int) == mtd1,
        b.subrange(32 + mtd1.len() as int, 32 + mtd1.len() as int + mtd3.len()) == mtd3,
    ensures
        is_bundle(b),
        whole(b),
        last_of(b, 1, 2) == Some(mtd1),
        last_of(b, 3, 2) == Some(mtd3),
{
    assert(part_at(b, 0) == 32);
    assert(part_at(b, 1) == 32 + mtd1.len());
    assert(part_at(b, 2) == 32 + mtd1.len() + mtd3.len());
    assert(last_of(b, 1, 1) == Some(mtd1));
    assert(last_of(b, 3, 2) == Some(mtd3));
}

/// What a dongle says about its hardware.
pub struct HardwareInfo {
    pub cpuinfo_head: String,
    pub proc_mtd: String,
    pub aic_modules: String,
}

/// How often a text occurs in another from a place on, without overlaps.
pub open spec fn occurrences(s: Seq<char>, p: Seq<char>, from: int) -> nat
    decreases s.len() - from,
{
    if from < 0 || p.len() == 0 || from + p.len() > s.len() {
        0
    } else if stands_at(s, p, from) {
        1 + occurrences(s, p, from + p.len())
    } else {
        occurrences(s, p, from + 1)
    }
}

fn count_in(s: &str, p: &str) -> (n: usize)
    requires
        p@.len() > 0,
    ensures
        n == occurrences(s@, p@, 0),
{
    let len: usize = s.unicode_len();
    let plen: usize = p.unicode_len();
    let mut n: usize = 0;
    let mut from: usize = 0;
    while from < len && plen <= len - from
        invariant
            len == s@.len(),
            plen == p@.len(),
            plen > 0,
            from <= len,
            n <= from,
            occurrences(s@, p@, 0) == n + occurrences(s@, p@, from as int),
        decreases len - from,
    {
        if same_text(s.substring_char(from, from + plen), p) {
            n += 1;
            from += plen;
        } else {
            from += 1;
        }
    }
    n
}

impl HardwareInfo {
    /// Whether the dongle is the one this firmware is for: its processor, at least eight flash
    /// partitions by the table, and its radio.
    pub fn looks_like_v821b_aic8800d80(&self) -> (r: bool)
        ensures
            r == (contains(self.cpuinfo_head@, "rv32"@) && occurrences(self.proc_mtd@, "mtd"@, 0) >= 8
                && contains(self.aic_modules@, "aic8800"@)),
    {
        proof {
            reveal_strlit("mtd");
        }
        let rv32 = holds(self.cpuinfo_head.as_str(), "rv32");
        let mtd_layout = count_in(self.proc_mtd.as_str(), "mtd") >= 8;
        let aic = holds(self.aic_modules.as_str(), "aic8800");
        rv32 && mtd_layout && aic
    }
}

/// A stamp for a file name: the days since the epoch, then hours and minutes.
pub fn chrono_now(secs: u64) -> (out: String)
    ensures
        out@ == dec((secs / 86400) as nat) + "_"@ + zero_pad(dec((secs % 86400 / 3600) as nat), 2)
            + zero_pad(dec((secs % 86400 % 3600 / 60) as nat), 2),
{
    let day: u64 = secs % 86400;
    let mut out = crate::text::decimal(secs / 86400);
    out.append("_");
    put_padded(&mut out, day / 3600, 10, 2);
    put_padded(&mut out, day % 3600 / 60, 10, 2);
    out
}

/// The command that writes bytes from its input to a node, and no more of them.
pub fn write_command(node: &str, size: usize) -> (out: String)
    ensures
        out@ == "head -c "@ + dec(size as nat) + " 2>/dev/null | dd of="@ + node@
            + " bs=64k conv=fsync 2>/dev/null; sync"@,
{
    let mut out = "head -c ".to_owned();
    put_dec(&mut out, size as u64);
    out.append(" 2>/dev/null | dd of=");
    out.append(node);
    out.append(" bs=64k conv=fsync 2>/dev/null; sync");
    out
}

/// The next number of a simple generator.
pub open spec fn stirred(s: u64) -> u64 {
    let a = s ^ (s << 13);
    let b = a ^ (a >> 7);
    b ^ (b << 17)
}

/// The generator after some steps.
pub open spec fn stirred_by(seed: u64, n: nat) -> u64
    decreases n,
{
    if n == 0 { seed | 1 } else { stirred(stirred_by(seed, (n - 1) as nat)) }
}

/// The bytes a self test sends: the low byte of each step.
pub fn test_bytes(seed: u64, size: usize) -> (data: Vec<u8>)
    ensures
        data@.len() == size,
        forall|i: int| 0 <= i < size ==> #[trigger] data@[i] == (stirred_by(seed, (i + 1) as nat) & 0xff) as u8,
{
    let mut data: Vec<u8> = Vec::new();
    let mut s: u64 = seed | 1;
    let mut i: usize = 0;
    while i < size
        invariant
            i <= size,
            data@.len() == i,
            s == stirred_by(seed, i as nat),
            forall|j: int| 0 <= j < i ==> #[trigger] data@[j] == (stirred_by(seed, (j + 1) as nat) & 0xff) as u8,
        decreases size - i,
    {
        let a: u64 = s ^ (s << 13);
        let b: u64 = a ^ (a >> 7);
        s = b ^ (b << 17);
        data.push((s & 0xff) as u8);
        i += 1;
    }
    data
}

/// The line at a place, or a fallback.
pub open spec fn line_or(out: Seq<char>, i: int, fallback: Seq<char>) -> Seq<char> {
    if i < lines(out).len() { lines(out)[i] } else { fallback }
}

/// The size a self test's dongle reports.
pub open spec fn reported_size(out: Seq<char>) -> int {
    match unsigned(trim(line_or(out, 1, "0"@)), 10, u64::MAX as int) {
        Some(n) => n,
        None => 0,
    }
}

/// Holds what a dongle reports of the bytes it got against what was sent: the checksum on the
/// first line, the size on the second.
pub fn selftest_verdict(out: &str, size: usize, host_md5: &str) -> (r: Result<(), String>)
    ensures
        ({
            let md5 = trim(line_or(out@, 0, ""@));
            match r {
                Ok(()) => reported_size(out@) == size && md5 == host_md5@,
                Err(why) => if reported_size(out@) != size {
                    why@ == "selftest size mismatch: got "@ + dec(reported_size(out@) as nat) + ", want "@ + dec(size as nat)
                } else {
                    md5 != host_md5@
                        && why@ == "selftest md5 mismatch: dongle "@ + md5 + ", host "@ + host_md5@
                },
            }
        }),
{
    let all = lines_of(out);
    let ghost ls = lines(out@);
    assert(views(all@) == ls);
    assert(ls.len() == all@.len());
    let md5 = if all.len() > 0 {
        assert(ls[0] == all@[0]@);
        trimmed(all[0].as_str())
    } else {
        proof {
            reveal_strlit("");
        }
        trimmed("")
    };
    let second = if all.len() > 1 {
        assert(ls[1] == all@[1]@);
        trimmed(all[1].as_str())
    } else {
        trimmed("0")
    };
    let got: u64 = match read_unsigned(second.as_str(), 10, u64::MAX) {
        Some(n) => n,
        None => 0,
    };
    if got != size as u64 {
        let mut why = "selftest size mismatch: got ".to_owned();
        put_dec(&mut why, got);
        why.append(", want ");
        put_dec(&mut why, size as u64);
        return Err(why);
    }
    if !same_text(md5.as_str(), host_md5) {
        let mut why = "selftest md5 mismatch: dongle ".to_owned();
        why.append(md5.as_str());
        why.append(", host ");
        why.append(host_md5);
        return Err(why);
    }
    Ok(())
}

/// A bundle is its magic, its version, how many parts it has and two bytes in reserve, then what each
/// part is, how long it is and its checksum, then the parts one after the other.
pub proof fn a_bundle_is_laid_out(mtd1: Seq<u8>, mtd3: Seq<u8>)
    requires
        mtd1.len() <= 0xffff_ffff,
        mtd3.len() <= 0xffff_ffff,
    ensures
        ({
            let b = bundle(mtd1, mtd3);
            let n = mtd1.len() as int;
            &&& b.len() == 32 + mtd1.len() + mtd3.len()
            &&& b.subrange(0, 8) == seq![0x4cu8, 0x46u8, 0x57u8, 0x42u8, 1u8, 2u8, 0u8, 0u8]
            &&& b.subrange(8, 12) == seq![1u8, 0u8, 0u8, 0u8]
            &&& u32_le(b, 12) == mtd1.len()
            &&& u32_le(b, 16) == checksum(mtd1)
            &&& b.subrange(20, 24) == seq![3u8, 0u8, 0u8, 0u8]
            &&& u32_le(b, 24) == mtd3.len()
            &&& u32_le(b, 28) == checksum(mtd3)
            &&& b.subrange(32, 32 + n) == mtd1
            &&& b.skip(32 + n) == mtd3
        }),
{
    let b = bundle(mtd1, mtd3);
    let n = mtd1.len() as int;
    let head = BUNDLE_MAGIC@ + seq![1u8, 2u8, 0u8, 0u8];
    let d1 = descriptor(1, mtd1);
    let d3 = descriptor(3, mtd3);
    assert(head =~= seq![0x4cu8, 0x46u8, 0x57u8, 0x42u8, 1u8, 2u8, 0u8, 0u8]);
    described(1, mtd1);
    described(3, mtd3);
    placed(head, d1, d3, mtd1, mtd3);
    assert(b == head + d1 + d3 + mtd1 + mtd3);
    integers_read_back(b, 12, 0, mtd1.len() as u32);
    integers_read_back(b, 16, 0, checksum(mtd1));
    integers_read_back(b, 24, 0, mtd3.len() as u32);
    integers_read_back(b, 28, 0, checksum(mtd3));
}

proof fn described(kind: u8, data: Seq<u8>)
    requires
        data.len() <= 0xffff_ffff,
    ensures
        ({
            let d = descriptor(kind, data);
            &&& d.len() == 12
            &&& d.subrange(0, 4) == seq![kind, 0u8, 0u8, 0u8]
            &&& d.subrange(4, 8) == le32(data.len() as u32)
            &&& d.subrange(8, 12) == le32(checksum(data))
        }),
{
    let d = descriptor(kind, data);
    assert(d.subrange(0, 4) =~= seq![kind, 0u8, 0u8, 0u8]);
    assert(d.subrange(4, 8) =~= le32(data.len() as u32));
    assert(d.subrange(8, 12) =~= le32(checksum(data)));
}

proof fn placed(head: Seq<u8>, d1: Seq<u8>, d3: Seq<u8>, mtd1: Seq<u8>, mtd3: Seq<u8>)
    requires
        head.len() == 8,
        d1.len() == 12,
        d3.len() == 12,
    ensures
        ({
            let b = head + d1 + d3 + mtd1 + mtd3;
            &&& b.len() == 32 + mtd1.len() + mtd3.len()
            &&& b.subrange(0, 8) == head
            &&& b.subrange(8, 12) == d1.subrange(0, 4)
            &&& b.subrange(12, 16) == d1.subrange(4, 8)
            &&& b.subrange(16, 20) == d1.subrange(8, 12)
            &&& b.subrange(20, 24) == d3.subrange(0, 4)
            &&& b.subrange(24, 28) == d3.subrange(4, 8)
            &&& b.subrange(28, 32) == d3.subrange(8, 12)
            &&& b.subrange(32, 32 + mtd1.len() as int) == mtd1
            &&& b.skip(32 + mtd1.len() as int) == mtd3
        }),
{
    let b = head + d1 + d3 + mtd1 + mtd3;
    assert(b.subrange(0, 8) =~= head);
    assert(b.subrange(8, 12) =~= d1.subrange(0, 4));
    assert(b.subrange(12, 16) =~= d1.subrange(4, 8));
    assert(b.subrange(16, 20) =~= d1.subrange(8, 12));
    assert(b.subrange(20, 24) =~= d3.subrange(0, 4));
    assert(b.subrange(24, 28) =~= d3.subrange(4, 8));
    assert(b.subrange(28, 32) =~= d3.subrange(8, 12));
    assert(b.subrange(32, 32 + mtd1.len() as int) =~= mtd1);
    assert(b.skip(32 + mtd1.len() as int) =~= mtd3);
}

/// How many bytes some parts hold together.
pub open spec fn all_of(parts: Seq<(u8, Seq<u8>)>) -> nat
    decreases parts.len(),
{
    if parts.len() == 0 { 0 } else { all_of(parts.drop_last()) + parts.last().1.len() }
}

/// Whether a bundle counts these parts, describes each in its place and holds their bytes in order.
#[verifier::opaque]
pub open spec fn holds_parts(b: Seq<u8>, parts: Seq<(u8, Seq<u8>)>) -> bool {
    &&& b.len() >= 8 + 12 * parts.len() + all_of(parts)
    &&& b[5] == parts.len()
    &&& forall|i: int| 0 <= i < parts.len() ==> {
        let start = 8 + 12 * parts.len() as int + all_of(parts.take(i)) as int;
        &&& b[8 + 12 * i] == (#[trigger] parts[i]).0
        &&& u32_le(b, 12 + 12 * i) == parts[i].1.len()
        &&& b.subrange(start, start + parts[i].1.len() as int) == parts[i].1
    }
}

/// Of the parts of a bundle, in whatever order and however many, the last one of a kind is the one that
/// is taken, with exactly its bytes, and none is taken where there is none of the kind.
pub proof fn the_last_part_of_a_kind_is_taken(b: Seq<u8>, parts: Seq<(u8, Seq<u8>)>, kind: u8, k: int)
    requires
        holds_parts(b, parts),
        0 <= k <= parts.len(),
        k < parts.len() ==> parts[k].0 == kind,
        forall|j: int| k < j < parts.len() ==> (#[trigger] parts[j]).0 != kind,
        k == parts.len() ==> forall|j: int| 0 <= j < parts.len() ==> (#[trigger] parts[j]).0 != kind,
    ensures
        whole(b),
        k < parts.len() ==> last_of(b, kind, parts.len() as int) == Some(parts[k].1),
        k == parts.len() ==> last_of(b, kind, parts.len() as int) is None,
{
    parts_start(b, parts, parts.len() as int);
    assert(parts.take(parts.len() as int) =~= parts);
    taken(b, parts, kind, k, parts.len() as int);
}

proof fn parts_start(b: Seq<u8>, parts: Seq<(u8, Seq<u8>)>, i: int)
    requires
        holds_parts(b, parts),
        0 <= i <= parts.len(),
    ensures
        part_at(b, i) == 8 + 12 * parts.len() + all_of(parts.take(i)),
        b.len() >= 8 + 12 * parts.len() + all_of(parts),
        b[5] == parts.len(),
    decreases i,
{
    reveal(holds_parts);
    if i > 0 {
        parts_start(b, parts, i - 1);
        assert(parts.take(i).drop_last() =~= parts.take(i - 1));
        assert(parts.take(i).last() == parts[i - 1]);
        assert(slot(i - 1) + 4 == 12 + 12 * (i - 1));
    } else {
        assert(parts.take(0).len() == 0);
    }
}

proof fn part_stands(b: Seq<u8>, parts: Seq<(u8, Seq<u8>)>, i: int)
    requires
        holds_parts(b, parts),
        0 <= i < parts.len(),
    ensures
        b[slot(i)] == parts[i].0,
        b.subrange(part_at(b, i), part_at(b, i + 1)) == parts[i].1,
{
    parts_start(b, parts, i);
    parts_start(b, parts, i + 1);
    assert(parts.take(i + 1).drop_last() =~= parts.take(i));
    assert(parts.take(i + 1).last() == parts[i]);
    reveal(holds_parts);
}

proof fn taken(b: Seq<u8>, parts: Seq<(u8, Seq<u8>)>, kind: u8, k: int, n: int)
    requires
        holds_parts(b, parts),
        0 <= n <= parts.len(),
        0 <= k < n || k == parts.len(),
        k < parts.len() ==> parts[k].0 == kind,
        forall|j: int| k < j < parts.len() ==> (#[trigger] parts[j]).0 != kind,
        k == parts.len() ==> forall|j: int| 0 <= j < parts.len() ==> (#[trigger] parts[j]).0 != kind,
    ensures
        k < parts.len() ==> last_of(b, kind, n) == Some(parts[k].1),
        k == parts.len() ==> last_of(b, kind, n) is None,
    decreases n,
{
    if n > 0 {
        part_stands(b, parts, n - 1);
        if k == n - 1 {
            assert(last_of(b, kind, n) == Some(b.subrange(part_at(b, n - 1), part_at(b, n))));
        } else {
            assert(last_of(b, kind, n) == last_of(b, kind, n - 1));
            taken(b, parts, kind, k, n - 1);
        }
    }
}

/// A text is counted once where it stands, and the count goes on behind it. It is counted never where it
/// does not occur.
pub proof fn occurrences_are_counted(front: Seq<char>, p: Seq<char>, back: Seq<char>)
    requires
        p.len() > 0,
    ensures
        occurrences(p + back, p, 0) == 1 + occurrences(back, p, 0),
        !contains(front, p) ==> occurrences(front, p, 0) == 0,
        occurrences(front, p, 0) == 0 ==> !contains(front, p),
{
    let s = p + back;
    assert(s.subrange(0, p.len() as int) =~= p);
    assert(stands_at(s, p, 0));
    counted_behind(p, back, p, 0);
    never_counted(front, p, 0);
}

proof fn counted_behind(a: Seq<char>, s: Seq<char>, p: Seq<char>, from: int)
    requires
        from >= 0,
    ensures
        occurrences(a + s, p, a.len() + from) == occurrences(s, p, from),
    decreases s.len() - from,
{
    if p.len() > 0 && from + p.len() <= s.len() {
        assert((a + s).subrange(a.len() + from, a.len() + from + p.len()) =~= s.subrange(from, from + p.len()));
        if stands_at(s, p, from) {
            counted_behind(a, s, p, from + p.len());
        } else {
            counted_behind(a, s, p, from + 1);
        }
    }
}

proof fn never_counted(s: Seq<char>, p: Seq<char>, from: int)
    requires
        p.len() > 0,
        from >= 0,
    ensures
        !contains(s, p) ==> occurrences(s, p, from) == 0,
        occurrences(s, p, from) == 0 ==> forall|i: int| from <= i ==> !#[trigger] stands_at(s, p, i),
    decreases s.len() - from,
{
    if from + p.len() <= s.len() {
        if !stands_at(s, p, from) {
            never_counted(s, p, from + 1);
        }
    }
}

} // verus!

//! The boot image of the V821B dongle: an Android header with the device tree descriptor of its
//! boot loader, the compressed kernel, the device tree, all filling one flash partition.

use vstd::prelude::*;
use flate2::write::GzEncoder;
use flate2::Compression;
use std::io::Write;

use crate::bytes::{append, append_zeros, copy_range, le32, put_le32, same, zeros};
use crate::text::{dec, hex, put_dec};

verus! {

pub const PART_SIZE: usize = 0x310000;
pub const PAGE_SIZE: usize = 0x800;
pub const KERNEL_ADDR: u32 = 0x8000_0000;
pub const RAMDISK_ADDR: u32 = 0x8100_0000;
pub const SECOND_ADDR: u32 = 0x80f0_0000;
pub const TAGS_ADDR: u32 = 0x8000_0100;
pub const AW_DTB_TAG: u32 = 0x0000_067c;
pub const AW_DTB_LOAD: u32 = 0x8090_0000;

/// `ANDROID!`
pub const ANDROID: [u8; 8] = [0x41, 0x4e, 0x44, 0x52, 0x4f, 0x49, 0x44, 0x21];
/// `sun300i_riscv32`, closed by a zero.
pub const BOARD: [u8; 16] =
    [0x73, 0x75, 0x6e, 0x33, 0x30, 0x30, 0x69, 0x5f, 0x72, 0x69, 0x73, 0x63, 0x76, 0x33, 0x32, 0];
/// `RISCV` and three zeros, where a kernel image carries it.
pub const RISCV: [u8; 8] = [0x52, 0x49, 0x53, 0x43, 0x56, 0, 0, 0];
pub const FDT: [u8; 4] = [0xd0, 0x0d, 0xfe, 0xed];

/// What `flate2` writes for some bytes at its best compression, as a gzip member without a file
/// name and without a time. Nothing where it refuses them.
pub uninterp spec fn gzip_best(data: Seq<u8>) -> Option<Seq<u8>>;

/// `flate2::write::GzEncoder` over a growing buffer at `Compression::best`. Whether it writes a
/// member, and which, depends on the bytes alone. How a failure is put into words is left open.
#[verifier::external_body]
fn gzip(data: &[u8]) -> (r: Result<Vec<u8>, String>)
    ensures
        match r {
            Ok(v) => gzip_best(data@) == Some(v@),
            Err(_) => gzip_best(data@) is None,
        },
{
    let mut e = GzEncoder::new(Vec::new(), Compression::best());
    match e.write_all(data) {
        Ok(()) => e.finish().map_err(|e| format!("gzip finish: {e}")),
        Err(e) => Err(format!("gzip: {e}")),
    }
}

/// Why no image was made.
pub enum BootError {
    /// The kernel carries no RISC-V magic.
    NotRiscv,
    /// The device tree carries no magic.
    NoFdt,
    Gzip(String),
    /// The image is this many bytes larger than its partition.
    TooLarge(usize),
}

impl BootError {
    /// The failure in words.
    pub fn text(&self) -> (out: String)
        ensures
            out@ == (match *self {
                BootError::NotRiscv => "Image is not a RISC-V kernel (missing magic at offset 48)"@,
                BootError::NoFdt => "DTB has no FDT magic"@,
                BootError::Gzip(why) => why@,
                BootError::TooLarge(n) => "bootimg is "@ + dec(n as nat)
                    + " B larger than the mtd1 slot (0x"@ + hex(PART_SIZE as nat) + ")"@,
            }),
    {
        match self {
            BootError::NotRiscv => "Image is not a RISC-V kernel (missing magic at offset 48)".to_owned(),
            BootError::NoFdt => "DTB has no FDT magic".to_owned(),
            BootError::Gzip(why) => why.clone(),
            BootError::TooLarge(n) => {
                let mut out = "bootimg is ".to_owned();
                put_dec(&mut out, *n as u64);
                out.append(" B larger than the mtd1 slot (0x");
                crate::text::put_number(&mut out, PART_SIZE as u64, 16);
                out.append(")");
                out
            },
        }
    }
}

/// Whether an image is a RISC-V kernel.
pub open spec fn is_kernel(image: Seq<u8>) -> bool {
    image.len() >= 56 && image.subrange(48, 56) == RISCV@
}

/// Whether a blob is a device tree.
pub open spec fn is_tree(dtb: Seq<u8>) -> bool {
    dtb.len() >= 4 && dtb.subrange(0, 4) == FDT@
}

/// The header page: the sizes and load addresses, the board, and behind a gap the descriptor of
/// the device tree.
pub open spec fn header_page(kernel_len: u32, dtb_len: u32) -> Seq<u8> {
    ANDROID@ + le32(kernel_len) + le32(KERNEL_ADDR) + le32(0) + le32(RAMDISK_ADDR) + le32(0)
        + le32(SECOND_ADDR) + le32(TAGS_ADDR) + le32(PAGE_SIZE as u32) + le32(2) + le32(0) + BOARD@
        + zeros(1580) + le32(AW_DTB_TAG) + le32(dtb_len) + le32(AW_DTB_LOAD) + zeros(392)
}

/// How many bytes fill a length up to whole blocks.
pub open spec fn padding(len: int, block: int) -> int {
    if len % block == 0 { 0 } else { block - len % block }
}

/// Header, kernel up to a whole page, device tree.
pub open spec fn image_bytes(kernel: Seq<u8>, dtb: Seq<u8>) -> Seq<u8> {
    header_page(kernel.len() as u32, dtb.len() as u32) + kernel
        + zeros(padding((PAGE_SIZE + kernel.len()) as int, PAGE_SIZE as int) as nat) + dtb
}

/// Fills a buffer up to whole blocks with zeros.
pub fn pad_to(buf: &mut Vec<u8>, block: usize)
    requires
        block > 0,
    ensures
        final(buf)@ == old(buf)@ + zeros(padding(old(buf)@.len() as int, block as int) as nat),
{
    let r: usize = buf.len() % block;
    if r != 0 {
        assert(0 <= buf@.len() as int % block as int) by (nonlinear_arith)
            requires block > 0, buf@.len() >= 0;
        assert(r < block) by (nonlinear_arith)
            requires r == buf@.len() as int % block as int, block > 0;
        append_zeros(buf, block - r);
    } else {
        assert(buf@ =~= buf@ + zeros(0));
    }
}

/// Writes the header page.
fn write_header(kernel_len: u32, dtb_len: u32) -> (hdr: Vec<u8>)
    ensures
        hdr@ == header_page(kernel_len, dtb_len),
        hdr@.len() == PAGE_SIZE,
{
    let mut hdr: Vec<u8> = Vec::new();
    append(&mut hdr, &ANDROID);
    assert(hdr@ =~= ANDROID@);
    put_le32(&mut hdr, kernel_len);
    put_le32(&mut hdr, KERNEL_ADDR);
    put_le32(&mut hdr, 0);
    put_le32(&mut hdr, RAMDISK_ADDR);
    put_le32(&mut hdr, 0);
    put_le32(&mut hdr, SECOND_ADDR);
    put_le32(&mut hdr, TAGS_ADDR);
    put_le32(&mut hdr, PAGE_SIZE as u32);
    put_le32(&mut hdr, 2);
    put_le32(&mut hdr, 0);
    append(&mut hdr, &BOARD);
    append_zeros(&mut hdr, 1580);
    put_le32(&mut hdr, AW_DTB_TAG);
    put_le32(&mut hdr, dtb_len);
    put_le32(&mut hdr, AW_DTB_LOAD);
    append_zeros(&mut hdr, 392);
    hdr
}

/// Puts header, compressed kernel and device tree one behind the other.
pub fn assemble(kernel: &[u8], dtb: &[u8]) -> (buf: Vec<u8>)
    ensures
        buf@ == image_bytes(kernel@, dtb@),
{
    let mut buf: Vec<u8> = write_header(kernel.len() as u32, dtb.len() as u32);
    append(&mut buf, kernel);
    pad_to(&mut buf, PAGE_SIZE);
    append(&mut buf, dtb);
    buf
}

/// What an image is once it fills its partition, and nothing where it is larger.
pub open spec fn filled(image: Seq<u8>) -> Option<Seq<u8>> {
    if image.len() <= PART_SIZE {
        Some(image + zeros((PART_SIZE - image.len()) as nat))
    } else {
        None
    }
}

/// Fills an image up to the size of its partition, or says by how much it misses it.
pub fn fill(image: Vec<u8>) -> (r: Result<Vec<u8>, BootError>)
    ensures
        match r {
            Ok(v) => filled(image@) == Some(v@) && v@.len() == PART_SIZE,
            Err(e) => filled(image@) is None && e == BootError::TooLarge((image@.len() - PART_SIZE) as usize),
        },
{
    let mut buf: Vec<u8> = image;
    if buf.len() > PART_SIZE {
        return Err(BootError::TooLarge(buf.len() - PART_SIZE));
    }
    let missing: usize = PART_SIZE - buf.len();
    append_zeros(&mut buf, missing);
    Ok(buf)
}

/// Lays a compressed kernel and a device tree out, filling the partition, or says by how much
/// they miss it.
pub fn lay_out(kernel: &[u8], dtb: &[u8]) -> (r: Result<Vec<u8>, BootError>)
    ensures
        match r {
            Ok(v) => filled(image_bytes(kernel@, dtb@)) == Some(v@) && v@.len() == PART_SIZE,
            Err(e) => filled(image_bytes(kernel@, dtb@)) is None
                && e == BootError::TooLarge((image_bytes(kernel@, dtb@).len() - PART_SIZE) as usize),
        },
{
    fill(assemble(kernel, dtb))
}

/// Checks a kernel image and a device tree for their magic and compresses the kernel.
pub fn compress(image: &[u8], dtb: &[u8]) -> (r: Result<Vec<u8>, BootError>)
    ensures
        r is Ok <==> is_kernel(image@) && is_tree(dtb@) && gzip_best(image@) is Some,
        match r {
            Ok(kernel) => gzip_best(image@) == Some(kernel@),
            Err(BootError::NotRiscv) => !is_kernel(image@),
            Err(BootError::NoFdt) => is_kernel(image@) && !is_tree(dtb@),
            Err(BootError::Gzip(_)) => is_kernel(image@) && is_tree(dtb@),
            Err(BootError::TooLarge(_)) => false,
        },
{
    if image.len() < 56 {
        return Err(BootError::NotRiscv);
    }
    let magic = copy_range(image, 48, 56);
    if !same(&magic, &RISCV) {
        return Err(BootError::NotRiscv);
    }
    if dtb.len() < 4 {
        return Err(BootError::NoFdt);
    }
    let tree = copy_range(dtb, 0, 4);
    if !same(&tree, &FDT) {
        return Err(BootError::NoFdt);
    }
    match gzip(image) {
        Ok(kernel) => Ok(kernel),
        Err(why) => Err(BootError::Gzip(why)),
    }
}

/// Makes the boot image of a kernel image and a device tree: both are checked for their magic,
/// the kernel is compressed, and the parts are laid out.
pub fn make_image(image: &[u8], dtb: &[u8]) -> (r: Result<Vec<u8>, BootError>)
    ensures
        match r {
            Ok(v) => is_kernel(image@) && is_tree(dtb@) && gzip_best(image@) is Some
                && filled(image_bytes(gzip_best(image@)->0, dtb@)) == Some(v@),
            Err(BootError::NotRiscv) => !is_kernel(image@),
            Err(BootError::NoFdt) => is_kernel(image@) && !is_tree(dtb@),
            Err(BootError::Gzip(_)) => is_kernel(image@) && is_tree(dtb@) && gzip_best(image@) is None,
            Err(BootError::TooLarge(n)) => {
                &&& is_kernel(image@) && is_tree(dtb@) && gzip_best(image@) is Some
                &&& filled(image_bytes(gzip_best(image@)->0, dtb@)) is None
                &&& n == (image_bytes(gzip_best(image@)->0, dtb@).len() - PART_SIZE) as usize
            },
        },
{
    match compress(image, dtb) {
        Ok(kernel) => lay_out(&kernel, dtb),
        Err(e) => Err(e),
    }
}

/// The kernel starts on the page behind the header, and the device tree on a page of its own.
pub proof fn parts_start_on_pages(kernel: Seq<u8>, dtb: Seq<u8>)
    ensures
        ({
            let at = image_bytes(kernel, dtb).len() - dtb.len();
            &&& at % (PAGE_SIZE as int) == 0
            &&& image_bytes(kernel, dtb).subrange(PAGE_SIZE as int, PAGE_SIZE + kernel.len()) == kernel
            &&& image_bytes(kernel, dtb).skip(at) == dtb
        }),
{
    let page = header_page(kernel.len() as u32, dtb.len() as u32);
    assert(page.len() == PAGE_SIZE);
    let gap = zeros(padding((PAGE_SIZE + kernel.len()) as int, PAGE_SIZE as int) as nat);
    parts_in_place(page, kernel, gap, dtb);
}

proof fn parts_in_place(page: Seq<u8>, kernel: Seq<u8>, gap: Seq<u8>, dtb: Seq<u8>)
    ensures
        (page + kernel + gap + dtb).subrange(page.len() as int, (page.len() + kernel.len()) as int) == kernel,
        (page + kernel + gap + dtb).skip((page.len() + kernel.len() + gap.len()) as int) == dtb,
{
    let all = page + kernel + gap + dtb;
    assert(all.subrange(page.len() as int, (page.len() + kernel.len()) as int) =~= kernel);
    assert(all.skip((page.len() + kernel.len() + gap.len()) as int) =~= dtb);
}

/// Where the fields of the header page stand: the magic, the kernel's length and address, the ramdisk's and
/// the second stage's, the tags, the page size and the version, the board, and far behind them the tag of the
/// device tree with its length and its address. All else is zero.
#[verifier::rlimit(40)]
pub proof fn the_header_is_laid_out(kernel_len: u32, dtb_len: u32)
    ensures
        ({
            let h = header_page(kernel_len, dtb_len);
            &&& h.len() == 2048
            &&& h.subrange(0, 8) == seq![0x41u8, 0x4eu8, 0x44u8, 0x52u8, 0x4fu8, 0x49u8, 0x44u8, 0x21u8]
            &&& h.subrange(8, 12) == le32(kernel_len)
            &&& h.subrange(12, 16) == le32(0x8000_0000)
            &&& h.subrange(16, 20) == le32(0)
            &&& h.subrange(20, 24) == le32(0x8100_0000)
            &&& h.subrange(24, 28) == le32(0)
            &&& h.subrange(28, 32) == le32(0x80f0_0000)
            &&& h.subrange(32, 36) == le32(0x8000_0100)
            &&& h.subrange(36, 40) == le32(2048)
            &&& h.subrange(40, 44) == le32(2)
            &&& h.subrange(44, 48) == le32(0)
            &&& h.subrange(48, 64) == BOARD@
            &&& h.subrange(64, 1644) == zeros(1580)
            &&& h.subrange(1644, 1648) == le32(0x067c)
            &&& h.subrange(1648, 1652) == le32(dtb_len)
            &&& h.subrange(1652, 1656) == le32(0x8090_0000)
            &&& h.subrange(1656, 2048) == zeros(392)
        }),
{
    let p = ANDROID@ + le32(kernel_len) + le32(KERNEL_ADDR) + le32(0) + le32(RAMDISK_ADDR) + le32(0)
        + le32(SECOND_ADDR) + le32(TAGS_ADDR) + le32(PAGE_SIZE as u32) + le32(2) + le32(0);
    head_fields(kernel_len);
    let h = header_page(kernel_len, dtb_len);
    let tag = le32(AW_DTB_TAG);
    let load = le32(AW_DTB_LOAD);
    tail_fields(p, BOARD@, zeros(1580), tag, le32(dtb_len), load, zeros(392));
    assert(h.subrange(0, 48) == p);
    cut_again(h, p, 0, 8);
    cut_again(h, p, 8, 12);
    cut_again(h, p, 12, 16);
    cut_again(h, p, 16, 20);
    cut_again(h, p, 20, 24);
    cut_again(h, p, 24, 28);
    cut_again(h, p, 28, 32);
    cut_again(h, p, 32, 36);
    cut_again(h, p, 36, 40);
    cut_again(h, p, 40, 44);
    cut_again(h, p, 44, 48);
}

proof fn cut_again(h: Seq<u8>, p: Seq<u8>, i: int, j: int)
    requires
        h.len() >= 48,
        h.subrange(0, 48) == p,
        0 <= i <= j <= 48,
    ensures
        h.subrange(i, j) == p.subrange(i, j),
{
    assert(h.subrange(0, 48).subrange(i, j) =~= h.subrange(i, j));
}

proof fn head_fields(kernel_len: u32)
    ensures
        ({
            let p = ANDROID@ + le32(kernel_len) + le32(KERNEL_ADDR) + le32(0) + le32(RAMDISK_ADDR) + le32(0)
                + le32(SECOND_ADDR) + le32(TAGS_ADDR) + le32(PAGE_SIZE as u32) + le32(2) + le32(0);
            &&& p.len() == 48
            &&& p.subrange(0, 8) == seq![0x41u8, 0x4eu8, 0x44u8, 0x52u8, 0x4fu8, 0x49u8, 0x44u8, 0x21u8]
            &&& p.subrange(8, 12) == le32(kernel_len)
            &&& p.subrange(12, 16) == le32(0x8000_0000)
            &&& p.subrange(16, 20) == le32(0)
            &&& p.subrange(20, 24) == le32(0x8100_0000)
            &&& p.subrange(24, 28) == le32(0)
            &&& p.subrange(28, 32) == le32(0x80f0_0000)
            &&& p.subrange(32, 36) == le32(0x8000_0100)
            &&& p.subrange(36, 40) == le32(2048)
            &&& p.subrange(40, 44) == le32(2)
            &&& p.subrange(44, 48) == le32(0)
        }),
{
    let a = ANDROID@ + le32(kernel_len) + le32(KERNEL_ADDR) + le32(0) + le32(RAMDISK_ADDR) + le32(0);
    four_each(ANDROID@, le32(kernel_len), le32(KERNEL_ADDR), le32(0), le32(RAMDISK_ADDR), le32(0));
    four_each(a, le32(SECOND_ADDR), le32(TAGS_ADDR), le32(PAGE_SIZE as u32), le32(2), le32(0));
    assert(ANDROID@ =~= seq![0x41u8, 0x4eu8, 0x44u8, 0x52u8, 0x4fu8, 0x49u8, 0x44u8, 0x21u8]);
    let p = a + le32(SECOND_ADDR) + le32(TAGS_ADDR) + le32(PAGE_SIZE as u32) + le32(2) + le32(0);
    assert(p.subrange(0, 28) == a);
    assert(p.subrange(0, 8) =~= a.subrange(0, 8));
    assert(p.subrange(8, 12) =~= a.subrange(8, 12));
    assert(p.subrange(12, 16) =~= a.subrange(12, 16));
    assert(p.subrange(16, 20) =~= a.subrange(16, 20));
    assert(p.subrange(20, 24) =~= a.subrange(20, 24));
    assert(p.subrange(24, 28) =~= a.subrange(24, 28));
}

proof fn four_each(a: Seq<u8>, b: Seq<u8>, c: Seq<u8>, d: Seq<u8>, e: Seq<u8>, f: Seq<u8>)
    requires
        b.len() == 4,
        c.len() == 4,
        d.len() == 4,
        e.len() == 4,
        f.len() == 4,
    ensures
        ({
            let s = a + b + c + d + e + f;
            let n = a.len() as int;
            &&& s.len() == n + 20
            &&& s.subrange(0, n) == a
            &&& s.subrange(n, n + 4) == b
            &&& s.subrange(n + 4, n + 8) == c
            &&& s.subrange(n + 8, n + 12) == d
            &&& s.subrange(n + 12, n + 16) == e
            &&& s.subrange(n + 16, n + 20) == f
        }),
{
    let s = a + b + c + d + e + f;
    let n = a.len() as int;
    assert(s.subrange(0, n) =~= a);
    assert(s.subrange(n, n + 4) =~= b);
    assert(s.subrange(n + 4, n + 8) =~= c);
    assert(s.subrange(n + 8, n + 12) =~= d);
    assert(s.subrange(n + 12, n + 16) =~= e);
    assert(s.subrange(n + 16, n + 20) =~= f);
}

proof fn tail_fields(p: Seq<u8>, board: Seq<u8>, gap: Seq<u8>, tag: Seq<u8>, len: Seq<u8>, load: Seq<u8>, end: Seq<u8>)
    requires
        p.len() == 48,
        board.len() == 16,
        gap.len() == 1580,
        tag.len() == 4,
        len.len() == 4,
        load.len() == 4,
        end.len() == 392,
    ensures
        ({
            let h = p + board + gap + tag + len + load + end;
            &&& h.len() == 2048
            &&& h.subrange(0, 48) == p
            &&& h.subrange(48, 64) == board
            &&& h.subrange(64, 1644) == gap
            &&& h.subrange(1644, 1648) == tag
            &&& h.subrange(1648, 1652) == len
            &&& h.subrange(1652, 1656) == load
            &&& h.subrange(1656, 2048) == end
        }),
{
    let h = p + board + gap + tag + len + load + end;
    assert(h.subrange(0, 48) =~= p);
    assert(h.subrange(48, 64) =~= board);
    assert(h.subrange(64, 1644) =~= gap);
    assert(h.subrange(1644, 1648) =~= tag);
    assert(h.subrange(1648, 1652) =~= len);
    assert(h.subrange(1652, 1656) =~= load);
    assert(h.subrange(1656, 2048) =~= end);
}

/// An image that fits its partition is followed by zeros up to the partition's end, and one that does not
/// is not made.
pub proof fn an_image_fills_its_partition(image: Seq<u8>, i: int)
    ensures
        filled(image) is Some <==> image.len() <= 0x310000,
        filled(image) matches Some(f) ==> f.len() == 0x310000 && f.take(image.len() as int) == image
            && (image.len() <= i < 0x310000 ==> f[i] == 0),
{
    if image.len() <= 0x310000 {
        assert(filled(image)->0.take(image.len() as int) =~= image);
    }
}

/// What fills a length up makes whole blocks of it and is less than one.
pub proof fn padding_makes_whole_blocks(len: int, block: int)
    requires
        0 <= len,
        0 < block,
    ensures
        (len + padding(len, block)) % block == 0,
        0 <= padding(len, block) < block,
{
    let r = len % block;
    vstd::arithmetic::div_mod::lemma_fundamental_div_mod(len, block);
    vstd::arithmetic::div_mod::lemma_mod_bound(len, block);
    if r != 0 {
        let q = len / block;
        assert(len + (block - r) == block * (q + 1)) by (nonlinear_arith)
            requires
                len == block * q + r,
        ;
        vstd::arithmetic::div_mod::lemma_mod_multiples_basic(q + 1, block);
        assert(block * (q + 1) == (q + 1) * block) by (nonlinear_arith);
    }
}

/// A kernel carries `RISCV` from its 49th byte on, and a device tree begins with its magic.
pub proof fn what_a_kernel_carries(b: Seq<u8>)
    ensures
        is_kernel(b) <==> b.len() >= 56 && b[48] == 0x52 && b[49] == 0x49 && b[50] == 0x53 && b[51] == 0x43 && b[52] == 0x56
            && b[53] == 0 && b[54] == 0 && b[55] == 0,
        is_tree(b) <==> b.len() >= 4 && b[0] == 0xd0 && b[1] == 0x0d && b[2] == 0xfe && b[3] == 0xed,
{
    if b.len() >= 56 {
        let s = b.subrange(48, 56);
        assert(forall|i: int| 0 <= i < 8 ==> #[trigger] s[i] == b[48 + i]);
        assert(RISCV@ =~= seq![0x52u8, 0x49u8, 0x53u8, 0x43u8, 0x56u8, 0u8, 0u8, 0u8]);
        if is_kernel(b) {
            assert(s[0] == 0x52 && s[1] == 0x49 && s[2] == 0x53 && s[3] == 0x43 && s[4] == 0x56 && s[5] == 0
                && s[6] == 0 && s[7] == 0);
        }
        if b[48] == 0x52 && b[49] == 0x49 && b[50] == 0x53 && b[51] == 0x43 && b[52] == 0x56 && b[53] == 0
            && b[54] == 0 && b[55] == 0 {
            assert(s =~= RISCV@);
        }
    }
    if b.len() >= 4 {
        let s = b.subrange(0, 4);
        assert(forall|i: int| 0 <= i < 4 ==> #[trigger] s[i] == b[i]);
        assert(FDT@ =~= seq![0xd0u8, 0x0du8, 0xfeu8, 0xedu8]);
        if is_tree(b) {
            assert(s[0] == 0xd0 && s[1] == 0x0d && s[2] == 0xfe && s[3] == 0xed);
        }
        if b[0] == 0xd0 && b[1] == 0x0d && b[2] == 0xfe && b[3] == 0xed {
            assert(s =~= FDT@);
        }
    }
}

} // verus!

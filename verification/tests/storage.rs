use livi::bootimg::{lay_out, make_image, BootError, PAGE_SIZE, PART_SIZE};
use livi::config::{
    config_command, ensure_setting, pack_v2, read_blob, restore_plan, save_outcome, target, to_save, unpack_v2, BlobError,
    ConfigCommand, Entry, HEADER_LEN, MAX_PAYLOAD,
};
use livi::crc::crc32;
use livi::firmware::{
    bundle_is_whole, chrono_now, pack_lfwb, selftest_verdict, test_bytes, unpack_lfwb, write_command, BundleError, HardwareInfo,
};

fn entry(name: &str, data: &[u8]) -> Entry {
    Entry { name: name.to_owned(), data: data.to_vec() }
}

fn pairs(list: &[Entry]) -> Vec<(String, Vec<u8>)> {
    list.iter().map(|e| (e.name.clone(), e.data.clone())).collect()
}

fn why(r: Result<Vec<Entry>, BlobError>) -> String {
    r.err().unwrap().text()
}

#[test]
fn the_checksum_is_the_usual_one() {
    assert_eq!(crc32(b"123456789"), 0xCBF4_3926);
    assert_eq!(crc32(b""), 0);
}

#[test]
fn a_blob_is_read_back() {
    let list = vec![entry("led.toml", b"x=1\n"), entry("bt-keys", b"k")];
    let blob = pack_v2(&list).ok().unwrap();
    assert_eq!(&blob[..8], b"LVCF\x02\0\0\0");
    assert_eq!(blob.len(), HEADER_LEN + 4 + 80 + 5);
    assert_eq!(&blob[HEADER_LEN..HEADER_LEN + 4], &[2, 0, 0, 0]);
    let mut dev = blob.clone();
    dev.extend_from_slice(&[0xff; 100]);
    assert_eq!(pairs(&read_blob(&dev).ok().unwrap()), pairs(&list));
}

#[test]
fn a_blob_of_the_first_version_is_the_light_settings() {
    let payload = b"brightness = 5";
    let mut dev = b"LVCF\x01\0\0\0".to_vec();
    dev.extend_from_slice(&(payload.len() as u32).to_le_bytes());
    dev.extend_from_slice(&crc32(payload).to_le_bytes());
    dev.extend_from_slice(payload);
    assert_eq!(pairs(&read_blob(&dev).ok().unwrap()), vec![("led.toml".to_owned(), payload.to_vec())]);
}

#[test]
fn a_blob_is_refused_for_what_is_wrong_with_it() {
    let good = pack_v2(&[entry("led.toml", b"abc")]).ok().unwrap();
    assert_eq!(why(read_blob(&good[..10])), "failed to fill whole buffer");
    assert_eq!(why(read_blob(&good[..good.len() - 1])), "failed to fill whole buffer");
    let mut b = good.clone();
    b[0] = 0;
    assert_eq!(why(read_blob(&b)), "magic mismatch");
    let mut b = good.clone();
    b[8..12].copy_from_slice(&0u32.to_le_bytes());
    assert_eq!(why(read_blob(&b)), "length 0 out of range");
    let mut b = good.clone();
    let last = b.len() - 1;
    b[last] ^= 1;
    assert_eq!(why(read_blob(&b)), "crc mismatch");
    let mut b = good;
    b[4] = 9;
    assert_eq!(why(read_blob(&b)), "unknown version 9");
    assert_eq!(why(unpack_v2(&[1, 0])), "v2 payload too short");
    assert_eq!(why(unpack_v2(&[0, 0, 0, 0])), "v2 entry count 0 out of range");
    assert_eq!(why(unpack_v2(&[33, 0, 0, 0])), "v2 entry count 33 out of range");
    assert_eq!(why(unpack_v2(&[1, 0, 0, 0])), "v2 table truncated");
    let mut p = vec![0u8; 44];
    p[0] = 1;
    p[4] = 0xff;
    assert_eq!(why(unpack_v2(&p)), "v2 non-utf8 name");
    p[4] = b'a';
    p[36] = 1;
    assert_eq!(why(unpack_v2(&p)), "v2 entry 0 extends past payload");
}

#[test]
fn a_blob_is_not_written_past_its_limits() {
    let refused = |list: &[Entry]| pack_v2(list).err().unwrap().text();
    assert_eq!(refused(&[]), "bad entry count 0");
    let many: Vec<Entry> = (0..33).map(|_| entry("a", b"")).collect();
    assert_eq!(refused(&many), "bad entry count 33");
    assert_eq!(refused(&[entry("a", &vec![0; MAX_PAYLOAD])]), "payload 32812 exceeds cap 32768");
    let long = "n".repeat(33);
    assert_eq!(refused(&[entry("a", b""), entry(&long, b"")]), format!("name too long: {long}"));
    assert!(pack_v2(&[entry(&"n".repeat(32), b"1")]).is_ok());
}

#[test]
fn what_is_saved_comes_back_to_its_files() {
    let list = to_save(Some(b"led".to_vec()), Some(vec![]), Some(vec![1; 8193]));
    assert_eq!(pairs(&list), vec![("led.toml".to_owned(), b"led".to_vec())]);
    let list = to_save(None, Some(b"ap".to_vec()), Some(b"keys".to_vec()));
    let back = read_blob(&pack_v2(&list).ok().unwrap());
    assert_eq!(save_outcome(&back, &list), 0);
    assert_eq!(save_outcome(&back, &list[..1]), 2);
    assert_eq!(save_outcome(&Err(BlobError::Crc), &list), 2);
    let mut entries = back.ok().unwrap();
    entries.push(entry("other", b"?"));
    assert_eq!(
        pairs(&restore_plan(&entries)),
        vec![
            ("/tmp/livi/hostapd.conf.saved".to_owned(), b"ap".to_vec()),
            ("/tmp/livi/bt-keys".to_owned(), b"keys".to_vec()),
        ]
    );
    assert_eq!(target("led.toml"), Some("/tmp/livi/led.toml"));
    assert_eq!(target("x"), None);
}

#[test]
fn a_setting_is_added_once() {
    assert_eq!(ensure_setting("ssid=x\n bridge = br1\n", "bridge", "br0"), None);
    assert_eq!(ensure_setting("#bridge=br1\nssid=x", "bridge", "br0"), Some("#bridge=br1\nssid=x\nbridge=br0\n".to_owned()));
    assert_eq!(ensure_setting("a=b\n", "bridge", "br0"), Some("a=b\nbridge=br0\n".to_owned()));
    assert_eq!(ensure_setting("", "bridge", "br0"), Some("\nbridge=br0\n".to_owned()));
}

#[test]
fn the_config_command_is_read() {
    assert!(config_command(&["load".to_owned()]) == ConfigCommand::Load);
    assert!(config_command(&["save".to_owned(), "x".to_owned()]) == ConfigCommand::Save);
    assert!(config_command(&["x".to_owned()]) == ConfigCommand::Usage);
    assert!(config_command(&[]) == ConfigCommand::Usage);
}

#[test]
fn a_bundle_is_unpacked_again() {
    let (a, b) = (vec![1u8; 10], vec![2u8; 7]);
    let bundle = pack_lfwb(&a, &b);
    assert_eq!(&bundle[..8], b"LFWB\x01\x02\0\0");
    assert_eq!(bundle.len(), 8 + 24 + 17);
    assert_eq!(&bundle[16..20], &crc32(&a).to_le_bytes());
    assert!(bundle_is_whole(&bundle));
    assert_eq!(unpack_lfwb(&bundle), Ok((a, b)));
    assert!(!bundle_is_whole(&bundle[..bundle.len() - 1]));
    assert!(!bundle_is_whole(&bundle[..20]));
    assert_eq!(unpack_lfwb(b"LFW"), Err(BundleError::NotABundle));
    assert_eq!(unpack_lfwb(b"LFWX\x01\x00\0\0"), Err(BundleError::NotABundle));
    assert_eq!(unpack_lfwb(b"LFWB\x01\x00\0\0"), Err(BundleError::NoMtd1));
    let mut one = b"LFWB\x01\x01\0\0\x01\0\0\0\x01\0\0\0\0\0\0\0".to_vec();
    one.push(9);
    assert!(bundle_is_whole(&one));
    assert_eq!(unpack_lfwb(&one), Err(BundleError::NoMtd3));
    assert_eq!(BundleError::NoMtd3.text(), "no mtd3 payload in bundle");
}

#[test]
fn the_hardware_is_recognised() {
    let hw = |cpu: &str, mtd: &str, aic: &str| HardwareInfo {
        cpuinfo_head: cpu.to_owned(),
        proc_mtd: mtd.to_owned(),
        aic_modules: aic.to_owned(),
    };
    let table = "mtd0 mtd1 mtd2 mtd3 mtd4 mtd5 mtd6 mtd7";
    assert!(hw("isa : rv32imac", table, "aic8800_bsp").looks_like_v821b_aic8800d80());
    assert!(!hw("isa : rv64", table, "aic8800_bsp").looks_like_v821b_aic8800d80());
    assert!(!hw("rv32", &table[5..], "aic8800_bsp").looks_like_v821b_aic8800d80());
    assert!(!hw("rv32", table, "").looks_like_v821b_aic8800d80());
}

#[test]
fn stamps_and_commands_are_written() {
    assert_eq!(chrono_now(86400 * 3 + 3600 * 7 + 60 * 5 + 59), "3_0705");
    assert_eq!(write_command("/dev/mtdblock1", 12), "head -c 12 2>/dev/null | dd of=/dev/mtdblock1 bs=64k conv=fsync 2>/dev/null; sync");
}

#[test]
fn the_self_test_is_held_against_what_was_sent() {
    let bytes = test_bytes(0, 3);
    assert_eq!(bytes.len(), 3);
    let mut s = 1u64;
    for b in &bytes {
        s ^= s << 13;
        s ^= s >> 7;
        s ^= s << 17;
        assert_eq!(*b, s as u8);
    }
    assert_eq!(selftest_verdict(" abc \n 3\n", 3, "abc"), Ok(()));
    assert_eq!(selftest_verdict("abc\n4\n", 3, "abc"), Err("selftest size mismatch: got 4, want 3".to_owned()));
    assert_eq!(selftest_verdict("abc\nx\n", 3, "abc"), Err("selftest size mismatch: got 0, want 3".to_owned()));
    assert_eq!(selftest_verdict("abd\n3\n", 3, "abc"), Err("selftest md5 mismatch: dongle abd, host abc".to_owned()));
    assert_eq!(selftest_verdict("", 0, ""), Ok(()));
}

#[test]
fn a_boot_image_fills_its_partition() {
    let img = lay_out(&[7; 10], &[9; 5]).ok().unwrap();
    assert_eq!(img.len(), PART_SIZE);
    assert_eq!(&img[..8], b"ANDROID!");
    assert_eq!(&img[8..12], &10u32.to_le_bytes());
    assert_eq!(&img[12..16], &0x8000_0000u32.to_le_bytes());
    assert_eq!(&img[36..40], &0x800u32.to_le_bytes());
    assert_eq!(&img[40..44], &2u32.to_le_bytes());
    assert_eq!(&img[48..64], b"sun300i_riscv32\0");
    assert_eq!(&img[1644..1648], &0x67cu32.to_le_bytes());
    assert_eq!(&img[1648..1652], &5u32.to_le_bytes());
    assert_eq!(&img[1652..1656], &0x8090_0000u32.to_le_bytes());
    assert_eq!(&img[PAGE_SIZE..PAGE_SIZE + 10], &[7; 10]);
    assert_eq!(&img[2 * PAGE_SIZE..2 * PAGE_SIZE + 5], &[9; 5]);
    assert!(img[2 * PAGE_SIZE + 5..].iter().all(|b| *b == 0));
}

#[test]
fn a_kernel_is_compressed_and_checked() {
    let mut kernel = vec![0u8; 4096];
    kernel[48..56].copy_from_slice(b"RISCV\0\0\0");
    let dtb = [0xd0, 0x0d, 0xfe, 0xed, 1];
    let img = make_image(&kernel, &dtb).ok().unwrap();
    let n = u32::from_le_bytes(img[8..12].try_into().unwrap()) as usize;
    assert!(n < 4096);
    assert_eq!(&img[PAGE_SIZE..PAGE_SIZE + 2], &[0x1f, 0x8b]);
    let mut out = Vec::new();
    let mut gz = flate2::read::GzDecoder::new(&img[PAGE_SIZE..PAGE_SIZE + n]);
    std::io::Read::read_to_end(&mut gz, &mut out).unwrap();
    assert_eq!(out, kernel);
    assert!(matches!(make_image(&kernel[..55], &dtb), Err(BootError::NotRiscv)));
    assert!(matches!(make_image(&vec![0; 60], &dtb), Err(BootError::NotRiscv)));
    assert!(matches!(make_image(&kernel, &dtb[..3]), Err(BootError::NoFdt)));
    assert!(matches!(make_image(&kernel, &[1, 2, 3, 4]), Err(BootError::NoFdt)));
    assert_eq!(BootError::NoFdt.text(), "DTB has no FDT magic");
}

#[test]
fn an_image_that_does_not_fit_says_by_how_much() {
    let e = lay_out(&[], &vec![1; PART_SIZE]).err().unwrap();
    assert_eq!(e.text(), "bootimg is 2048 B larger than the mtd1 slot (0x310000)");
}

#[test]
fn an_image_is_put_together_and_filled_up() {
    let parts = livi::bootimg::assemble(&[1; PAGE_SIZE], &[2; 3]);
    assert_eq!(parts.len(), 2 * PAGE_SIZE + 3);
    let full = livi::bootimg::fill(parts.clone()).ok().unwrap();
    assert_eq!(full.len(), PART_SIZE);
    assert_eq!(&full[..parts.len()], parts.as_slice());
    assert!(matches!(livi::bootimg::fill(vec![0; PART_SIZE + 4]), Err(BootError::TooLarge(4))));
    let mut kernel = vec![0u8; 100];
    kernel[48..56].copy_from_slice(b"RISCV\0\0\0");
    let packed = livi::bootimg::compress(&kernel, &[0xd0, 0x0d, 0xfe, 0xed]).ok().unwrap();
    assert_eq!(&packed[..2], &[0x1f, 0x8b]);
}

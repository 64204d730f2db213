use livi::ballast::{first_scan, needed_libs, next_scan, stem, wanted, Needed, ScanStep};
use livi::bootstrap::{boot_hook, carrier_body, is_stock_dongle, open_payload, send_file_payload, write_messages, BootAssets};
use livi::detect::{detect, pick_host, Detected};
use livi::menu::{
    action, backup_dir, blink, command, flash_step, found_line, install, install_result, installed_version, is_stock, kib, menu, offer_line,
    print_plan, print_report, usage, Action, Choice, Command, FlashStep, Step, Sub, BLINK_LOOP,
};
use livi::payload::{current_version, files, md5_hex, parts, release, version, Assets};
use livi::provision::{
    apply, backup_command, excluded, listed, next_stage, plan, set_ap_name, shorten, split_libs, start_command, stock_backup, strip_command,
    verify, Backup, Facts, Found, Plan, Stage, Status,
};
use livi::stock::{cgi_url, command_line, finished, idle, next_read, outcome, stream_line, update_step, upload_body, HostInfo, HostSys, Update};
use livi::tools::{is_command, is_tool, pick, refusal, staged, SCRIPT_TARGETS};

fn strings(list: &[&str]) -> Vec<String> {
    list.iter().map(|s| s.to_string()).collect()
}

#[test]
fn a_send_file_payload_carries_the_path_and_the_bytes() {
    let p = send_file_payload("/script/custom_init.sh", b"hi");
    assert_eq!(u32::from_le_bytes(p[..4].try_into().unwrap()), 23);
    assert_eq!(&p[4..26], b"/script/custom_init.sh");
    assert_eq!(p[26], 0);
    assert_eq!(u32::from_le_bytes(p[27..31].try_into().unwrap()), 2);
    assert_eq!(&p[31..], b"hi");
}

#[test]
fn the_open_payload_is_the_geometry_the_dongle_expects() {
    let p = open_payload();
    assert_eq!(p.len(), 28);
    assert_eq!(u32::from_le_bytes(p[..4].try_into().unwrap()), 800);
    assert_eq!(u32::from_le_bytes(p[24..].try_into().unwrap()), 2);
}

#[test]
fn the_bootstrap_is_hooked_into_its_carrier() {
    let a = BootAssets { bootstrap: "boot".into(), carrier: "own".into() };
    let [script, carrier] = boot_hook(&a);
    assert_eq!((script.path, script.content), ("/script/livi-boot.sh", b"boot".to_vec()));
    assert_eq!(carrier.path, "/etc/profile");
    assert_eq!(carrier.content, b"own\ncase \"$0\" in */rcS) sh /script/livi-boot.sh ;; esac\n".to_vec());
    assert_eq!(carrier_body(&a), "own");
    let (open, send) = write_messages("/x", b"y");
    assert_eq!(open.len(), 16 + 28);
    assert_eq!(&send[8..12], &0x99u32.to_le_bytes());
    assert!(is_stock_dongle(0x1314, 0x1520, None));
    assert!(!is_stock_dongle(0x1314, 0x1520, Some("LIVI Link")));
}

#[test]
fn the_blink_loop_stays_on_one_line() {
    assert!(!BLINK_LOOP.contains('\n'));
    assert!(!BLINK_LOOP.contains('\''));
    assert!(BLINK_LOOP.contains("gpio2/value"));
    assert!(blink().starts_with("setsid sh -c 'echo $$"));
}

#[test]
fn every_target_is_an_absolute_path() {
    for target in SCRIPT_TARGETS {
        assert!(target.starts_with('/'), "{target} is not absolute");
    }
    assert_eq!(staged("/a/b"), "/a/b.new");
}

#[test]
fn reduces_versioned_names_to_the_soname() {
    assert_eq!(stem("/usr/lib/libxml2.so.2.9.2"), "libxml2.so");
    assert_eq!(stem("libxml2.so.2"), "libxml2.so");
    assert_eq!(stem("/usr/lib/libdmsdp.so"), "libdmsdp.so");
    assert_eq!(stem("/bin/busybox"), "busybox");
}

#[test]
fn the_home_becomes_a_tilde() {
    let home = Some("/Users/x");
    assert_eq!(shorten("/Users/x/Library/LIVI", home), "~/Library/LIVI");
    assert_eq!(shorten("/Users/x", home), "~");
    assert_eq!(shorten("/Users/xy/LIVI", home), "/Users/xy/LIVI");
    assert_eq!(shorten("/tmp/LIVI", home), "/tmp/LIVI");
    assert_eq!(shorten("/Users/x/LIVI", None), "/Users/x/LIVI");
    assert_eq!(shorten("/tmp", Some("")), "/tmp");
}

#[test]
fn a_version_line_splits_into_release_and_digest() {
    assert_eq!(parts("9.0.0 3f2a1b9c\n"), ("9.0.0", "3f2a1b9c"));
    assert_eq!(parts("9.0.0"), ("9.0.0", ""));
}

#[test]
fn hashes_like_md5sum() {
    assert_eq!(md5_hex(b"abc"), "900150983cd24fb0d6963f7d28e17f72");
}

fn assets() -> Assets {
    Assets {
        stack: b"stack".to_vec(),
        link: b"link".to_vec(),
        l2fwd_watch: b"watch".to_vec(),
        flash_image: b"flash".to_vec(),
        bringup: b"bring".to_vec(),
        server_cgi: b"cgi".to_vec(),
        index_html: vec![0; 4096],
    }
}

#[test]
fn the_version_names_what_the_files_add_up_to() {
    let list = files(&assets(), "1.2.3");
    assert_eq!(list.len(), 8);
    assert_eq!(list[0].remote, "/script/livi/cpc200-ccpa.gz");
    assert_eq!(list[0].md5, md5_hex(b"stack"));
    assert_eq!(list[7].remote, "/script/livi/version");
    let digest: String = list[..7].iter().map(|f| f.md5.as_str()).collect();
    let line = format!("1.2.3 {}\n", &md5_hex(digest.as_bytes())[..8]);
    assert_eq!(list[7].data, line.as_bytes());
    assert_eq!(current_version(&assets(), "1.2.3"), line);
    assert_eq!(version("1.2.3", &digest), line);
    assert_eq!(release(Some("9"), "0.1.0"), "9");
    assert_eq!(release(None, "0.1.0"), "0.1.0");
}

#[test]
fn libraries_are_followed_until_nothing_is_left() {
    let libs = strings(&["/usr/lib/liba.so.1", "/usr/lib/libb.so", "/usr/lib/libc.so", "/usr/lib/libx.so"]);
    let gone = strings(&["/usr/lib/libx.so"]);
    let mut n = Needed::start("liba.so\nlibx.so liba.so\n");
    assert_eq!(n.needed, strings(&["liba.so", "libx.so"]));
    let todo = match needed_libs(&n, &libs, &gone) {
        ScanStep::Scan(t) => t,
        ScanStep::Done(_) => panic!("not done"),
    };
    assert_eq!(todo, strings(&["/usr/lib/liba.so.1"]));
    n.learn(&todo, "libb.so.7");
    let todo = n.todo(&libs, &gone);
    assert_eq!(todo, strings(&["/usr/lib/libb.so"]));
    n.learn(&todo, "");
    assert!(matches!(needed_libs(&n, &libs, &gone), ScanStep::Done(d) if d == strings(&["liba.so", "libx.so", "libb.so.7"])));
    assert!(wanted(&n.needed, "/lib/libb.so.2") && !wanted(&n.needed, "libc.so"));
    assert!(first_scan(&gone).contains("case \" /usr/lib/libx.so \" in"));
    assert!(next_scan(&libs).starts_with("for f in /usr/lib/liba.so.1 /usr/lib/libb.so "));
}

fn facts() -> Facts {
    Facts {
        identity: "4.9\nv1".into(),
        free_k: Some(900),
        present: strings(&["/usr/sbin/hcid"]),
        needed: strings(&["libssl.so.1.1", "libusb-1.0.so"]),
        droppable: strings(&["/usr/lib/libhicar.so"]),
        sizes: vec![("/usr/sbin/hcid".into(), 5000)],
        digests: vec![None; 8],
    }
}

#[test]
fn a_plan_says_what_goes_and_what_is_installed() {
    let payload = files(&assets(), "1");
    let mut f = facts();
    f.digests[1] = Some(payload[1].md5.clone());
    f.digests[2] = Some("other".into());
    let p = plan(&payload, &f);
    assert_eq!(p.identity, "4.9 | v1");
    assert_eq!(p.delete, vec![("/usr/sbin/hcid".to_owned(), 5000), ("/usr/lib/libhicar.so".to_owned(), 0)]);
    assert_eq!(p.keep_libs, strings(&["/usr/lib/libusb-1.0.so.0.1.0", "/usr/lib/libssl.so.1.1"]));
    assert_eq!(p.files[0].status.label(), "install");
    assert!(p.files[1].status == Status::Current);
    assert_eq!(p.files[2].status.label(), "update");
    assert_eq!(p.files[6].bytes, 4096);
    assert_eq!(p.push_k(), 4);
    assert_eq!(strip_command(&p), Some("rm -f /usr/sbin/hcid /usr/lib/libhicar.so; sync".to_owned()));
    let lines = print_plan(&p);
    assert_eq!(lines[0], "== dongle: 4.9 | v1");
    assert_eq!(lines[1], "== rootfs free: 900K");
    assert_eq!(lines[2], "== ballast to delete (2 files, 4K raw):");
    assert_eq!(lines[3], "          4K  /usr/sbin/hcid");
    assert_eq!(lines[5], "== ballast libs kept — referenced by a kept ELF:");
    assert_eq!(lines[6], "   keep      /usr/lib/libusb-1.0.so.0.1.0");
    assert_eq!(lines[8], "== files:");
    assert_eq!(lines[10], "   ok            0K  /script/livi/livi-link.sh");
    assert_eq!(lines.last().unwrap(), "== to push: 7 files, 4K");
}

#[test]
fn a_referenced_library_is_not_deleted() {
    let payload = files(&assets(), "1");
    let mut f = facts();
    f.present = strings(&["/bin/busybox", "/usr/sbin/hcid"]);
    f.droppable = strings(&["/usr/lib/libssl.so.1.1", "/usr/lib/libhicar.so", "/usr/lib/libother.so"]);
    let p = plan(&payload, &f);
    assert_eq!(p.delete, vec![("/usr/sbin/hcid".to_owned(), 5000), ("/usr/lib/libhicar.so".to_owned(), 0)]);
}

#[test]
fn an_install_needs_room_and_pushes_what_changed() {
    let payload = files(&assets(), "1");
    let mut f = facts();
    for (d, file) in f.digests.iter_mut().zip(&payload) {
        *d = Some(file.md5.clone());
    }
    f.digests[6] = None;
    let p = plan(&payload, &f);
    let i = apply(&p, &payload, Some(260)).ok().unwrap();
    assert_eq!(i.push, vec![6]);
    assert!(!i.fresh);
    assert_eq!(apply(&p, &payload, Some(259)).err(), Some("not enough flash for the stack: need 260K, have 259K".to_owned()));
    assert!(apply(&p, &payload, None).is_err());
    f.digests[0] = None;
    let p = plan(&payload, &f);
    let i = apply(&p, &payload, Some(300)).ok().unwrap();
    assert_eq!(i.push, vec![0, 6]);
    assert!(i.fresh);
    assert!(start_command(true).contains("livi-link.sh --fresh </dev/null"));
    assert!(start_command(false).contains("livi-link.sh </dev/null"));
    let none = Plan { identity: "".into(), free_k: None, delete: vec![], keep_libs: vec![], files: vec![] };
    assert_eq!(strip_command(&none), None);
}

#[test]
fn a_report_checks_files_processes_and_ports() {
    let payload = files(&assets(), "1");
    let mut found = Found {
        digests: payload.iter().map(|f| Some(f.md5.clone())).collect(),
        ps: "seedrng mfid livi-usbproxy l2fwd-watch mdnsd".into(),
        ports: [true, true],
        pair_records: "a\nb".into(),
        free_k: None,
    };
    let r = verify(&payload, &found);
    assert_eq!(r.checks.len(), 15);
    assert!(r.ok());
    assert_eq!(r.pair_records, "a b");
    let lines = print_report(&r);
    assert_eq!(lines[0], "   ok   /script/livi/cpc200-ccpa.gz");
    assert_eq!(lines[8], "   ok   process seedrng");
    assert_eq!(lines[13], "   ok   port 5000");
    assert_eq!(lines[15], "   pair records: a b");
    assert_eq!(lines[16], "   rootfs free: unknown");
    assert_eq!(lines[17], "== VERIFIED");
    found.ports[1] = false;
    found.pair_records = "".into();
    let r = verify(&payload, &found);
    assert!(!r.ok());
    let lines = print_report(&r);
    assert_eq!(lines[14], "   BAD  port 5003");
    assert_eq!(lines[15], "   pair records: (none)");
    assert_eq!(lines[17], "== PROBLEMS — see BAD lines above");
}

#[test]
fn what_goes_and_what_stays_is_listed() {
    assert_eq!(listed().len(), 25);
    assert_eq!(excluded().len(), 45);
    let (keep, droppable) = split_libs(&strings(&["libxml2.so.2"]));
    assert_eq!(keep, strings(&["/usr/lib/libxml2.so.2.9.2"]));
    assert_eq!(droppable.len(), 19);
}

#[test]
fn the_stock_init_is_kept_or_the_install_refused() {
    assert!(matches!(stock_backup("have\n"), Ok(Backup::Present)));
    assert!(matches!(stock_backup(" saved"), Ok(Backup::Saved)));
    assert!(stock_backup("ours").err().unwrap().contains("is already our boot script"));
    assert_eq!(stock_backup("cp: no").err(), Some("could not save the stock init: cp: no".to_owned()));
    assert!(backup_command().starts_with("if [ -e /script/start_main_service.sh.orig ]; then echo have;"));
    assert!(set_ap_name("yes\n") && !set_ap_name("no"));
}

fn host_info(update: i32) -> HostInfo {
    HostInfo {
        update,
        sn: "s".into(),
        wifi: "w".into(),
        otp: "o".into(),
        name: "Box".into(),
        sys: HostSys { appver: "7".into(), led: "l".into() },
    }
}

#[test]
fn what_answers_is_recognised() {
    assert_eq!(detect(Some("M".into()), Some(host_info(0)), true, true).label(), "M already running LIVI Link");
    assert_eq!(
        detect(None, Some(host_info(0)), true, true).label(),
        "V821B+AIC8800D80 in stock firmware (Box, appver 7)"
    );
    assert_eq!(detect(None, None, true, true).label(), "CPC200-CCPA at 10.10.10.1");
    assert_eq!(detect(None, None, false, true).label(), "CPC200-CCPA at 192.168.50.2");
    assert_eq!(detect(None, None, false, false).label(), "no dongle found");
    assert_eq!(pick_host(Some("h".into()), false, true), "h");
    assert_eq!(pick_host(None, false, true), "192.168.50.2");
    assert_eq!(pick_host(None, true, true), "10.10.10.1");
    assert_eq!(pick_host(None, false, false), "10.10.10.1");
}

#[test]
fn the_action_follows_the_version() {
    let ours = "2.0 abcd1234\n";
    assert!(action(None, &None, ours) == Some(Action::Install));
    assert!(action(Some(true), &Some("2.0 abcd1234".into()), ours) == Some(Action::Install));
    assert!(action(Some(false), &Some("1.0 abcd1234".into()), ours) == None);
    assert!(action(Some(false), &Some("2.0 ffff0000".into()), ours) == Some(Action::Update));
    assert!(action(Some(false), &None, ours) == None);
    assert_eq!(installed_version(" 1 2 \n"), Some("1 2".to_owned()));
    assert_eq!(installed_version("\n"), None);
    assert!(is_stock("stock\n") && !is_stock("ours"));
}

#[test]
fn a_choice_is_read_for_what_was_found() {
    let cpc = detect(None, None, true, false);
    let link = detect(Some("M".into()), None, false, false);
    let v821b = detect(None, Some(host_info(0)), false, false);
    let some = Some(Action::Update);
    assert!(matches!(menu("1\n", &cpc, false, some), Choice::Install(h) if h == "10.10.10.1"));
    assert!(matches!(menu("1", &cpc, false, None), Choice::Refused(w) if w == "nothing to install"));
    assert!(matches!(menu("r", &cpc, false, None), Choice::Install(_)));
    assert!(matches!(menu("r", &cpc, false, some), Choice::Refused(w) if w == "nothing to reinstall"));
    assert!(matches!(menu("1", &link, false, None), Choice::Install(_)));
    assert!(matches!(menu("1", &v821b, false, None), Choice::Provision));
    assert!(matches!(menu("1", &Detected::Nothing, true, None), Choice::Install(_)));
    assert!(matches!(menu("1", &Detected::Nothing, false, None), Choice::Refused(w) if w == "no such choice: 1"));
    for quit in ["q", "quit", "", " \n"] {
        assert!(matches!(menu(quit, &cpc, false, some), Choice::Quit));
    }
    assert_eq!(offer_line(&cpc, false, some), Some("  1  update LIVI Link".to_owned()));
    assert_eq!(offer_line(&cpc, false, None), Some("  r  reinstall LIVI Link".to_owned()));
    assert_eq!(offer_line(&Detected::Nothing, false, None), None);
    assert_eq!(found_line(&link, false), "Detected: M already running LIVI Link");
    assert_eq!(found_line(&Detected::Nothing, true), "Detected: CPC200-CCPA (stock, on USB — no shell yet)");
}

#[test]
fn an_installation_goes_step_by_step() {
    let mut s = Step::LookForShell;
    let mut seen = vec![s];
    for yes in [false, true, true, true, true, true, true, true, true, true, true, true, true, true] {
        s = install(s, Some(yes));
        seen.push(s);
    }
    assert!(seen.contains(&Step::Backup));
    assert_eq!(s, Step::Done);
    assert_eq!(install(Step::Backup, Some(false)), Step::Failed);
    assert_eq!(install(Step::LookForStock, Some(false)), Step::Apply);
    assert_eq!(install(Step::LookForStock, Some(true)), Step::Backup);
    assert_eq!(install(Step::LookForStock, None), Step::Failed);
    assert_eq!(install(Step::LookForHook, None), Step::Failed);
    assert_eq!(install(Step::StartBlinking, None), Step::LookForStock);
    assert_eq!(install_result(Step::Apply, None), None);
    assert_eq!(install_result(Step::Done, None), Some(Ok(())));
    assert_eq!(install_result(Step::Failed, Some("no".into())), Some(Err("no".to_owned())));
    assert_eq!(install_result(Step::Failed, None), Some(Err("the dongle did not come back as expected".to_owned())));
    assert_eq!(flash_step(FlashStep::VerifyHardware, false), FlashStep::Failed);
    assert_eq!(flash_step(FlashStep::Backup, true), FlashStep::Flash);
    assert_eq!(flash_step(FlashStep::Flash, true), FlashStep::Done);
}

#[test]
fn command_lines_are_read() {
    let of = |list: &[&str]| command(&strings(list));
    assert!(matches!(of(&[]), Command::Menu));
    assert!(matches!(of(&["plan"]), Command::Plan));
    assert!(matches!(of(&["apply", "--reboot"]), Command::Apply { reboot: true }));
    assert!(matches!(of(&["apply"]), Command::Apply { reboot: false }));
    assert!(matches!(of(&["backup", "d"]), Command::Backup(Some(d)) if d == "d"));
    assert!(matches!(of(&["push", "a", "b"]), Command::Push { local, remote } if local == "a" && remote == "b"));
    assert!(matches!(of(&["push", "a"]), Command::Wrong("usage: push <local> <remote>")));
    assert!(matches!(of(&["sh", "ls", "-l"]), Command::Sh(c) if c == "ls -l"));
    assert!(matches!(of(&["v821b", "selftest"]), Command::V821b(Sub::Selftest(3_211_264))));
    assert!(matches!(of(&["v821b", "selftest", "12"]), Command::V821b(Sub::Selftest(12))));
    assert!(matches!(of(&["v821b", "flash"]), Command::Wrong("usage: v821b flash <path.lfwb>")));
    assert!(matches!(of(&["v821b", "provision"]), Command::V821b(Sub::Provision(None))));
    assert!(matches!(of(&["v821b"]), Command::Wrong(_)));
    assert!(matches!(of(&["nope"]), Command::Usage));
    assert!(usage().starts_with("usage: livi-link-provision plan"));
    assert_eq!(kib(Some(3)), "3K");
    assert_eq!(backup_dir(Some("/h"), None, false), "/h/.local/share/LIVI/dongle-backup");
    assert_eq!(backup_dir(Some("/h"), Some("/d/"), false), "/d/LIVI/dongle-backup");
    assert_eq!(backup_dir(None, None, true), "./Library/Application Support/LIVI/backup/dongle-backup");
}

#[test]
fn a_shell_command_ends_at_its_mark() {
    assert_eq!(command_line("ls"), "(ls); echo LIVI-END:$?\n");
    assert_eq!(stream_line("dd"), "(dd) 2>/dev/null; printf '\\nLIVI-END:0\\n'\n");
    assert!(finished("half an outp").is_none());
    let f = finished("one\ntwo \nLIVI-END:0\nnext").unwrap();
    assert_eq!((f.output.as_str(), f.code, f.rest.as_str()), ("one\ntwo", 0, "next"));
    assert_eq!(outcome("ls", &f), Ok("one\ntwo".to_owned()));
    let f = finished("bad\nLIVI-END:-7").unwrap();
    assert_eq!((f.code, f.rest.as_str()), (-7, ""));
    assert_eq!(outcome("ls", &f), Err("`ls` exit -7: bad".to_owned()));
    assert_eq!(finished("LIVI-END:x\n").unwrap().code, -1);
    assert_eq!(next_read(5, 5, 10), None);
    assert_eq!(next_read(0, 25, 10), Some(10));
    assert_eq!(next_read(20, 25, 10), Some(5));
}

#[test]
fn an_update_is_uploaded_and_waited_for() {
    assert_eq!(cgi_url("1.2.3.4"), "http://1.2.3.4/cgi-bin/index.cgi");
    let body = upload_body("B", b"IMG");
    assert_eq!(
        String::from_utf8(body).unwrap(),
        "--B\r\nContent-Disposition: form-data; name=\"file\"; filename=\"update.img\"\r\nContent-Type: application/octet-stream\r\n\r\nIMG\r\n--B--\r\n"
    );
    assert!(matches!(update_step(Some(3), true, 5), Update::Done));
    assert!(matches!(update_step(Some(4), false, 5), Update::Failed(w) if w == "update failed (code 4)"));
    assert!(matches!(update_step(None, false, 5), Update::Wait));
    assert!(matches!(update_step(Some(1), true, 5), Update::Failed(w) if w == "update did not reach state 3 within 5s"));
    assert!(idle(&host_info(0)).is_ok());
    assert_eq!(idle(&host_info(-2)).err(), Some("dongle is not idle (update=-2); reboot and retry".to_owned()));
}

#[test]
fn a_tool_is_picked_by_its_name() {
    let args = strings(&["/tmp/mfid", "1", "2"]);
    let p = pick("mfid", &args);
    assert_eq!((p.tool.as_str(), p.rest), ("mfid", strings(&["1", "2"])));
    let p = pick("livi-link", &strings(&["livi-link", "iapd", "x"]));
    assert_eq!((p.tool.as_str(), p.rest), ("iapd", strings(&["x"])));
    let p = pick("livi-link", &strings(&["livi-link"]));
    assert_eq!((p.tool.as_str(), p.rest.len()), ("", 0));
    assert!(is_tool("ledd") && !is_tool("bt-probe") && is_command("bt-probe"));
    assert_eq!(refusal("btd"), "livi-link: btd runs on the dongle (linux) only");
    assert_eq!(
        refusal(""),
        "usage: livi-link <seedrng|mfid|livi-usbproxy|l2fwd|mdnsd|wifid|btd|iapd|ledd|httpd|wifi-channels|bt-probe|bt-mgmt|sdp-dump|sync-scripts> [args]"
    );
}

#[test]
fn a_run_goes_stage_by_stage() {
    let mut s = Stage::SaveStock;
    let mut seen = vec![s];
    while s != Stage::Done && s != Stage::Failed {
        s = next_stage(s, Some(s != Stage::LookForAp), true, 2, true);
        seen.push(s);
    }
    let want = [
        Stage::SaveStock,
        Stage::Strip,
        Stage::Unlink,
        Stage::Measure,
        Stage::Push(0),
        Stage::Push(1),
        Stage::SetModes,
        Stage::ClearLeftovers,
        Stage::LookForAp,
        Stage::Start,
        Stage::Reboot,
        Stage::Await,
        Stage::Verify,
        Stage::Done,
    ];
    assert!(seen == want);
    assert!(next_stage(Stage::SaveStock, Some(false), true, 2, true) == Stage::Failed);
    assert!(next_stage(Stage::LookForAp, None, true, 2, true) == Stage::Failed);
    assert!(next_stage(Stage::Done, None, true, 2, true) == Stage::Done);
    assert!(next_stage(Stage::SaveStock, Some(true), false, 2, true) == Stage::Measure);
    assert!(next_stage(Stage::Measure, Some(true), false, 0, true) == Stage::SetModes);
    assert!(next_stage(Stage::LookForAp, Some(true), false, 0, true) == Stage::NameAp);
    assert!(next_stage(Stage::Start, Some(true), false, 0, false) == Stage::Verify);
}

use livi::bonds::{addr, address, channel_of, keep, remember, remember_channel, restore, six, stored_keys, unhex};
use livi::iapd::{
    advertised, channel_request, drop_phone, find_channel, keys_path, listen, local_name, offer, order_answer, parse_order,
    present, renamed, session_head, shown_name, status_text, take_order, Config, Order,
};
use livi::mgmt::{call_step, command, commands, commands_lines, config_line, event, info, info_lines, options, settings, unconfigured, version_line, CallStep, Event};
use livi::phones::{Phones, Ring};
use livi::sdp::{
    answer, asked, attributes, continuation, dump, element, error, record, records, slice, uint16, uint8, uuid128, uuid16, wanted,
    CARPLAY_UUID, IAP_CLIENT_UUID, UUID_BROWSE_ROOT,
};
use livi::text::mac;

#[test]
fn elements_carry_their_length() {
    assert_eq!(element(&uint8(7)), Some((&[7u8][..], &[][..])));
    assert_eq!(element(&uuid16(0x1002)), Some((&[0x10, 0x02][..], &[][..])));
    let two = [uuid16(0x1002), uint8(3)].concat();
    let (first, rest) = element(&two).expect("first");
    assert_eq!(first, &[0x10, 0x02]);
    assert_eq!(element(rest), Some((&[3u8][..], &[][..])));
}

#[test]
fn the_browse_root_finds_every_record() {
    for r in &records() {
        assert!(wanted(&uuid16(UUID_BROWSE_ROOT), r));
        assert!(!wanted(&uuid16(0x111e), r));
    }
    assert!(wanted(&uuid128(&CARPLAY_UUID), &records()[1]));
    assert!(!wanted(&uuid128(&CARPLAY_UUID), &records()[0]));
}

#[test]
fn a_range_covers_every_attribute() {
    let all = [0x0a, 0x00, 0x00, 0xff, 0xff];
    assert!(asked(&all, 0x0000));
    assert!(asked(&all, 0x0100));
    let one = uint16(0x0004);
    assert!(asked(&one, 0x0004));
    assert!(!asked(&one, 0x0005));
}

#[test]
fn every_record_names_its_own_channel() {
    let all = [0x0a, 0x00, 0x00, 0xff, 0xff];
    for r in &records() {
        let body = record(r, &all);
        assert!(body.windows(16).any(|w| w == r.uuid));
        assert!(body.contains(&r.channel));
        assert!(String::from_utf8_lossy(&body).contains(r.name));
        assert_eq!(find_channel(&body), Some(r.channel));
    }
}

#[test]
fn a_long_answer_is_handed_over_in_pieces() {
    let full: Vec<u8> = (0..100u8).collect();
    let (first, next) = slice(&full, 0, 40);
    assert_eq!(first.len(), 40);
    assert_eq!(next, vec![2, 0, 40]);
    assert_eq!(continuation(&next), 40);
    let (last, done) = slice(&full, 40, 200);
    assert_eq!(last.len(), 60);
    assert_eq!(done, vec![0]);
}

#[test]
fn elements_of_every_size_are_read() {
    assert_eq!(element(&[0x00, 9]), Some((&[][..], &[9][..])));
    assert_eq!(element(&[0x36, 0, 1, 5]), Some((&[5][..], &[][..])));
    assert_eq!(element(&[0x37, 0, 0, 0, 1, 5]), Some((&[5][..], &[][..])));
    assert_eq!(element(&[0x35, 2, 5]), None);
    assert_eq!(element(&[0x35]), None);
    assert_eq!(element(&[]), None);
}

#[test]
fn requests_are_answered_by_kind() {
    assert_eq!(answer(&[1, 2]), error(0, 3));
    assert_eq!(answer(&[9, 0, 7, 0, 0]), vec![1, 0, 7, 0, 2, 0, 3]);
    let search = [vec![0x02, 0, 1, 0, 0], vec![0x35, 3], uuid16(UUID_BROWSE_ROOT)].concat();
    assert_eq!(answer(&search), vec![3, 0, 1, 0, 13, 0, 2, 0, 2, 0, 1, 0, 1, 0, 1, 0, 2, 0]);
    let missing = [vec![0x04, 0, 1, 0, 0, 0, 0, 0, 9, 0, 100], vec![0x35, 0]].concat();
    assert_eq!(answer(&missing), vec![5, 0, 1, 0, 5, 0, 2, 0x35, 0, 0]);
    let one = [vec![0x04, 0, 1, 0, 0, 0, 1, 0, 1, 0, 100], vec![0x35, 3], uint16(0)].concat();
    assert_eq!(answer(&one), vec![5, 0, 1, 0, 13, 0, 10, 0x35, 8, 9, 0, 0, 10, 0, 1, 0, 1, 0]);
}

#[test]
fn a_browse_lists_both_services() {
    let text = dump();
    assert!(text.starts_with("070001"));
    assert!(text.contains("576972656c65737320694150") && text.contains("436172506c6179"));
    assert_eq!(attributes(&records()[0]).len(), 8);
}

#[test]
fn a_phone_is_asked_for_its_channel() {
    let r = channel_request();
    assert_eq!(&r[..5], &[6, 0, 1, 0, 27]);
    assert!(r.windows(16).any(|w| w == IAP_CLIENT_UUID));
    assert_eq!(find_channel(&[1, 0x19, 0, 3, 8, 5, 0x19, 0, 3, 8, 6]), Some(5));
    assert_eq!(find_channel(&[0x19, 0, 3, 8]), None);
}

fn phone(last: u8) -> [u8; 6] {
    [0x0c, 0x6a, 0xc4, 0x4e, 0xf3, last]
}

fn wanting(list: &[[u8; 6]]) -> Phones {
    let mut p = Phones::new();
    p.wanted = Some(list.to_vec());
    p
}

#[test]
fn the_rotation_hands_out_every_phone_in_turn() {
    let (a, b) = (phone(0x2a), phone(0x2b));
    let mut phones = wanting(&[a, b]);
    assert_eq!(phones.turn(&vec![]), Some((a, false)));
    assert_eq!(phones.turn(&vec![]), Some((b, false)));
    assert_eq!(phones.turn(&vec![]), Some((a, false)));
}

#[test]
fn a_phone_the_host_no_longer_wants_is_not_handed_out() {
    let mut phones = wanting(&[]);
    assert_eq!(phones.turn(&vec![]), None);
}

#[test]
fn a_connected_phone_is_reported_as_one() {
    let a = phone(0x2a);
    let mut phones = wanting(&[a]);
    phones.linked.insert(a, 1);
    assert_eq!(phones.turn(&vec![]), Some((a, true)));
}

#[test]
fn what_is_counted_for_a_phone_goes_when_the_host_drops_it() {
    let (a, b) = (phone(0x2a), phone(0x2b));
    let mut phones = wanting(&[a, b]);
    phones.tries.insert(b, 3);
    phones.after.insert(b, 0);
    phones.wanted = Some(vec![a]);
    let _ = phones.turn(&vec![]);
    assert!(phones.tries.is_empty());
    assert!(phones.after.is_empty());
}

#[test]
fn without_a_list_the_bonds_are_paged() {
    let mut phones = Phones::new();
    let bonds = vec![vec![1; 25], vec![2; 3], vec![3; 26]];
    assert_eq!(phones.turn(&bonds), Some(([1; 6], false)));
    assert_eq!(phones.turn(&bonds), Some(([3; 6], false)));
}

#[test]
fn after_the_quick_tries_a_phone_is_left_alone() {
    let a = phone(1);
    let mut phones = wanting(&[a]);
    assert!(matches!(phones.ring(false, &vec![], 0), Ring::Idle));
    for i in 0..15 {
        assert!(matches!(phones.ring(true, &vec![], 1000 * i), Ring::Page(p) if p == a));
        phones.unanswered(a, 1000 * i);
    }
    assert!(matches!(phones.ring(true, &vec![], 14_000 + 29_999), Ring::Idle));
    assert!(matches!(phones.ring(true, &vec![], 14_000 + 30_000), Ring::Page(_)));
    phones.answered(a);
    assert!(phones.after.is_empty() && phones.tries.is_empty());
}

#[test]
fn a_link_without_a_session_is_let_go() {
    let a = phone(1);
    let mut phones = wanting(&[a]);
    phones.connected(a, 500);
    assert!(matches!(phones.ring(true, &vec![], 10_499), Ring::Idle));
    assert!(matches!(phones.ring(true, &vec![], 10_500), Ring::Disconnect(p) if p == a));
    assert!(matches!(phones.ring(true, &vec![], 20_000), Ring::Idle));
    phones.disconnected(a);
    assert!(matches!(phones.ring(true, &vec![], 20_000), Ring::Page(_)));
}

#[test]
fn an_address_is_written_and_read_back() {
    let a = [1, 2, 3, 4, 0xab, 0xcd];
    assert_eq!(mac(&a), "CD:AB:04:03:02:01");
    assert_eq!(address(" cd:AB:04:03:02:01\n"), Some(a));
    assert_eq!(address("CD:AB:04:03:02"), None);
    assert_eq!(address("CD:AB:04:03:02:01:00"), None);
    assert_eq!(address("CD:AB:04:03:02:100"), None);
    assert_eq!(address("CD:AB:04:03:02:+1"), Some([1, 2, 3, 4, 0xab, 0xcd]));
    assert_eq!(six(&[1, 2, 3, 4, 5]), None);
    assert_eq!(addr(&[1, 2]), "?");
    assert_eq!(addr(&[1, 2, 3, 4, 5, 6, 7]), "06:05:04:03:02:01");
}

#[test]
fn bonds_are_kept_as_lines_and_read_back() {
    let list = vec![vec![0xab; 25], vec![7; 26]];
    let text = keep(&list);
    assert_eq!(text, format!("{}\n{}\n", "ab".repeat(25), "07".repeat(26)));
    assert_eq!(stored_keys(&format!("junk\r\n{text}")), list);
    assert_eq!(unhex(&"zz".repeat(25)), None);
    assert_eq!(unhex("ab"), None);
    assert_eq!(unhex(&format!(" {} ", "0F".repeat(25))), Some(vec![15; 25]));
}

#[test]
fn a_new_bond_takes_the_place_and_keeps_the_channel() {
    let (mut old, other) = (vec![1; 25], vec![2; 25]);
    old.push(9);
    let list = vec![old, other.clone()];
    let mut fresh = vec![1; 25];
    fresh[24] = 77;
    let now = remember(&list, &fresh).unwrap();
    let mut kept = fresh.clone();
    kept.push(9);
    assert_eq!(now, vec![other.clone(), kept]);
    assert_eq!(channel_of(&now, &[1; 6]), Some(9));
    assert_eq!(channel_of(&now, &[2; 6]), None);
    assert!(remember(&list, &[1; 24]).is_none());
    let learned = remember_channel(&now, &[2; 6], 4).unwrap();
    assert_eq!(channel_of(&learned, &[2; 6]), Some(4));
    assert!(remember_channel(&learned, &[2; 6], 4).is_none());
    assert!(remember_channel(&learned, &[5; 6], 4).is_none());
    assert_eq!(restore(&vec![]), None);
    let params = restore(&learned).unwrap();
    assert_eq!(&params[..3], &[0, 2, 0]);
    assert_eq!(params.len(), 3 + 2 * 25);
}

#[test]
fn the_name_field_holds_a_long_and_a_short_name() {
    let f = local_name("LIVI Link Extra");
    assert_eq!(f.len(), 260);
    assert_eq!(&f[..15], b"LIVI Link Extra");
    assert_eq!(f[15], 0);
    assert_eq!(&f[249..259], b"LIVI Link ");
    assert_eq!(f[259], 0);
    assert_eq!(local_name(&"x".repeat(300))[247..250], [b'x', 0, b'x']);
}

#[test]
fn the_accessory_presents_itself_in_order() {
    let plan = present("A");
    let ops: Vec<u16> = plan.iter().map(|(op, _)| *op).collect();
    assert_eq!(ops, vec![5, 0x0b, 0x18, 9, 0x0e, 0x10, 0x10, 0x10, 0x0f, 7, 6]);
    assert_eq!(plan[4].1, vec![4, 0x20]);
    assert_eq!(plan[5].1, advertised(&livi::sdp::IAP_UUID));
    assert_eq!(plan[5].1[0], 0xff);
    assert_eq!(plan[5].1[16], 0x20);
    assert_eq!(plan[10].1, vec![1, 0, 0]);
    assert_eq!(offer(false), vec![(7, vec![0]), (6, vec![0, 0, 0])]);
    assert_eq!(drop_phone(&[1; 6]), vec![1, 1, 1, 1, 1, 1, 0]);
    assert_eq!(session_head("P", "L"), "peer P\nlocal L\n\n");
}

#[test]
fn the_car_goes_by_the_name_that_is_known() {
    let mut c = Config { keys_path: "/k".into(), name_override: Some("Fixed".into()) };
    assert_eq!(keys_path(Some(&c)), "/k");
    assert_eq!(keys_path(None), "/etc/livi-bt-keys");
    assert_eq!(shown_name(&c, &Some("Ap".into())), "Fixed");
    c.name_override = None;
    assert_eq!(shown_name(&c, &Some("Ap".into())), "Ap");
    assert_eq!(shown_name(&c, &None), "LIVI Link");
    assert_eq!(renamed(&Some("B".into()), "A"), Some("B".to_owned()));
    assert_eq!(renamed(&Some("A".into()), "A"), None);
    assert_eq!(renamed(&None, "A"), None);
}

#[test]
fn the_kernel_is_answered() {
    let mut phones = Phones::new();
    let body = [1, 2, 3, 4, 5, 6, 0, 9];
    let h = listen(&mut phones, 0x0f, &body, 0);
    assert_eq!(h.reply, Some((0x1c, vec![1, 2, 3, 4, 5, 6, 0])));
    assert_eq!(h.line, Some("[iapd] 06:05:04:03:02:01 wants to bond, confirming".to_owned()));
    let h = listen(&mut phones, 0x0e, &body, 0);
    assert_eq!(h.reply, Some((0x17, vec![1, 2, 3, 4, 5, 6, 0])));
    let key: Vec<u8> = (0..30).collect();
    let h = listen(&mut phones, 9, &key, 0);
    assert_eq!(h.bond, Some(key[1..26].to_vec()));
    assert_eq!(h.line, Some("[iapd] bonded with 06:05:04:03:02:01".to_owned()));
    assert_eq!(listen(&mut phones, 9, &key[..25], 0).bond, None);
    let h = listen(&mut phones, 0x0b, &body, 5);
    assert_eq!(h.line, Some("[iapd] 06:05:04:03:02:01 connected".to_owned()));
    assert_eq!(phones.since.get(&[1, 2, 3, 4, 5, 6]), Some(5));
    listen(&mut phones, 0x0c, &body, 5);
    assert!(phones.linked.is_empty() && phones.since.is_empty());
    assert_eq!(listen(&mut phones, 6, &[0x81, 0, 0, 0], 0).line, Some("[iapd] now powered br/edr".to_owned()));
    assert_eq!(listen(&mut phones, 6, &[1], 0).line, None);
    assert_eq!(listen(&mut phones, 0x0d, &[1], 0).line, Some("[iapd] ? would not connect".to_owned()));
    assert_eq!(listen(&mut phones, 0x11, &[1], 0).line, Some("[iapd] ? failed to authenticate".to_owned()));
    assert_eq!(listen(&mut phones, 0x77, &[1], 0).line, Some("[iapd] event 0x0077".to_owned()));
}

#[test]
fn the_host_gives_orders() {
    let mut phones = Phones::new();
    let mut offered = true;
    let targets = parse_order("targets 06:05:04:03:02:01  0A:00:00:00:00:00").unwrap();
    take_order(&targets, &mut phones, &mut offered);
    assert_eq!(phones.wanted, Some(vec![[1, 2, 3, 4, 5, 6], [0, 0, 0, 0, 0, 10]]));
    assert_eq!(status_text(3, offered, &phones.wanted), "bonds 3\noffered on\ntargets 2\nok\n");
    take_order(&parse_order("off").unwrap(), &mut phones, &mut offered);
    assert_eq!(status_text(0, offered, &phones.wanted), "bonds 0\noffered off\ntargets -\nok\n");
    assert!(matches!(parse_order("on"), Ok(Order::On)));
    assert!(matches!(parse_order("status"), Ok(Order::Status)));
    assert!(matches!(parse_order("targets"), Ok(Order::Targets(l)) if l.is_empty()));
    assert!(matches!(parse_order("disconnect disconnect 01:00:00:00:00:00"), Ok(Order::Disconnect(a)) if a == [0, 0, 0, 0, 0, 1]));
    assert_eq!(parse_order("disconnect x").err(), Some("not an address".to_owned()));
    assert_eq!(parse_order("targets 01:00:00:00:00:00 y").err(), Some("not an address: y".to_owned()));
    assert_eq!(parse_order("jump \"").err(), Some("unknown order \"jump \\\"\"".to_owned()));
    assert_eq!(order_answer(&Err("e".to_owned())), "error e\n");
    assert_eq!(order_answer(&Ok("ok\n".to_owned())), "ok\n");
}

#[test]
fn management_packets_are_written_and_read() {
    let c = command(0x0005, 0, &[1]);
    assert_eq!(c, vec![5, 0, 0, 0, 1, 0, 1]);
    let e = event(&c).ok().unwrap();
    assert_eq!((e.code, e.index, e.body), (5, 0, vec![1]));
    assert_eq!(event(&[1, 2]).err(), Some("short packet of 2 bytes".to_owned()));
    assert_eq!(event(&[1, 0, 0, 0, 4, 0, 9]).err(), Some("packet says 4 bytes, got 1".to_owned()));
}

#[test]
fn a_command_waits_for_its_own_answer() {
    let of = |code: u16, body: Vec<u8>| Event { code, index: 0, body };
    assert!(matches!(call_step(5, &of(1, vec![5, 0])), CallStep::Wait));
    assert!(matches!(call_step(5, &of(1, vec![6, 0, 0])), CallStep::Wait));
    assert!(matches!(call_step(5, &of(9, vec![5, 0, 0])), CallStep::Wait));
    assert!(matches!(call_step(5, &of(1, vec![5, 0, 0, 7])), CallStep::Done(d) if d == vec![7]));
    assert!(matches!(call_step(5, &of(1, vec![5, 0, 3])), CallStep::Refused(w) if w == "0x0005 refused with status 0x03"));
    assert!(matches!(call_step(5, &of(2, vec![5, 0, 0])), CallStep::Refused(_)));
}

#[test]
fn a_controller_describes_itself() {
    let mut body = vec![1, 2, 3, 4, 5, 6, 0, 0, 0, 0x81, 0, 0, 0, 1, 0, 0, 0, 0x20, 0x04, 0x20];
    body.extend_from_slice(b"LIVI\0junk");
    let i = info(&body).ok().unwrap();
    assert_eq!(i.address, [1, 2, 3, 4, 5, 6]);
    assert_eq!((i.supported, i.current, i.class), (0x81, 1, 0x200420));
    assert_eq!(i.name, "LIVI");
    let (a, b, c) = info_lines(&i);
    assert_eq!(a, "[mgmt] controller 06:05:04:03:02:01 class 0x200420 name \"LIVI\"");
    assert_eq!(b, "[mgmt] supported: powered br/edr");
    assert_eq!(c, "[mgmt] current:   powered");
    assert_eq!(info(&body[..19]).err(), Some("controller info is 19 bytes".to_owned()));
    body[20] = 0xff;
    assert_eq!(info(&body).ok().unwrap().name, "\u{fffd}IVI");
}

#[test]
fn the_lists_of_the_kernel_are_read() {
    assert_eq!(commands(&[2, 0, 0, 0, 5, 0, 6, 1, 7, 0]), vec![5, 0x106]);
    assert_eq!(commands(&[9, 0, 0, 0, 5, 0, 6]), vec![5]);
    assert_eq!(commands(&[1, 0]), Vec::<u16>::new());
    assert_eq!(settings(0), "");
    assert_eq!(settings(0x8005), "powered fast-connectable static-address");
    assert_eq!((options(0), options(1), options(2), options(3)), (
        "none".to_owned(),
        "external-config".to_owned(),
        "public-address".to_owned(),
        "external-config public-address".to_owned()
    ));
    assert_eq!(version_line(&[1, 22, 0]), "[mgmt] version 1.22");
    assert_eq!(version_line(&[1]), "[mgmt] version reply of 1 bytes");
    let (known, lacking) = commands_lines(&[1, 0, 0, 0, 5, 0]);
    assert_eq!(known, "[mgmt] 1 commands known");
    assert!(lacking.starts_with("[mgmt] missing: set-discoverable set-connectable"));
    let mut all = vec![11, 0, 0, 0];
    for op in livi::mgmt::NEEDED_OPCODES {
        all.extend_from_slice(&op.to_le_bytes());
    }
    assert_eq!(commands_lines(&all).1, "[mgmt] every command the accessory needs is there");
    assert_eq!(unconfigured(&[0, 0]), "[mgmt] unconfigured controllers: none");
    assert_eq!(unconfigured(&[2, 0, 0, 0, 12, 0]), "[mgmt] unconfigured controllers: 0 12");
    assert_eq!(unconfigured(&[2]), "[mgmt] unconfigured list: 1 byte reply");
    assert_eq!(
        config_line(&[0x0d, 0, 3, 0, 0, 0, 2, 0, 0, 0]),
        "[mgmt] config: manufacturer 0x000d, supported external-config public-address, missing public-address"
    );
    assert_eq!(config_line(&[]), "[mgmt] config info: 0 byte reply");
}

use std::collections::HashSet;

use livi::dongle::{header, is_dongle, is_livi_link, message, parse_header, take_messages, Announce, Dongles, Seen, HEADER_LEN, MAX_PAYLOAD};
use livi::hci::{answers, fit_to_vhci, frame, frame_len, inbound, is_up, lower_mac, outbound, up, up_line, watch_link, Outbound, EALREADY};
use livi::mdns::{
    announcement, build_answer, parse_query, read_name, reply, usable_args, Ask, Name, CACHE_FLUSH, CLASS_IN, LEGACY_TTL,
    QTYPE_A, QTYPE_AAAA, QTYPE_ANY, UNICAST_REPLY,
};

const VIDEO: u32 = 0x06;
const AUDIO: u32 = 0x07;
const HEARTBEAT: u32 = 0xaa;

#[test]
fn a_message_round_trips_through_its_header() {
    let wire = message(VIDEO, &[1, 2, 3]);
    assert_eq!(wire.len(), HEADER_LEN + 3);
    let head: [u8; HEADER_LEN] = wire[..HEADER_LEN].try_into().unwrap();
    assert_eq!(parse_header(&head), Ok((VIDEO, 3)));
    assert_eq!(&wire[HEADER_LEN..], &[1, 2, 3]);
}

#[test]
fn the_header_matches_the_main_process_layout() {
    let h = header(HEARTBEAT, 0);
    assert_eq!(&h[..4], &[0xaa, 0x55, 0xaa, 0x55]);
    assert_eq!(&h[4..8], &[0, 0, 0, 0]);
    assert_eq!(&h[8..12], &[0xaa, 0, 0, 0]);
    assert_eq!(&h[12..], &[0x55, 0xff, 0xff, 0xff]);
}

#[test]
fn a_wrong_magic_check_or_size_is_refused() {
    let mut h = header(AUDIO, 8);
    h[0] = 0;
    assert!(parse_header(&h).unwrap_err().contains("magic"));
    let mut h = header(AUDIO, 8);
    h[12] ^= 1;
    assert!(parse_header(&h).unwrap_err().contains("check"));
    let h = header(AUDIO, MAX_PAYLOAD + 1);
    assert!(parse_header(&h).unwrap_err().contains("bytes"));
}

#[test]
fn a_refusal_says_what_is_wrong() {
    let mut h = header(AUDIO, 8);
    h[0] = 0;
    assert_eq!(parse_header(&h), Err("bad magic 0x55aa5500".to_owned()));
    let mut h = header(AUDIO, 8);
    h[12] ^= 1;
    assert_eq!(parse_header(&h), Err("type 0x7 fails its check 0xfffffff9".to_owned()));
    let h = header(AUDIO, MAX_PAYLOAD + 1);
    assert_eq!(parse_header(&h), Err("payload of 16777217 bytes".to_owned()));
}

#[test]
fn an_upload_goes_out_message_by_message() {
    let (a, b) = (message(1, &[1, 2]), message(2, &[]));
    let mut acc = a.clone();
    acc.extend_from_slice(&b);
    acc.extend_from_slice(&a[..5]);
    let (out, fault) = take_messages(&mut acc);
    assert_eq!(out, vec![a.clone(), b]);
    assert_eq!(fault, None);
    assert_eq!(acc, a[..5].to_vec());
    acc.extend_from_slice(&a[5..]);
    acc.extend_from_slice(&[0; 16]);
    let (out, fault) = take_messages(&mut acc);
    assert_eq!(out, vec![a]);
    assert_eq!(fault, Some("bad magic 0x00000000".to_owned()));
}

#[test]
fn dongles_are_told_apart() {
    assert!(is_dongle(0x1314, 0x1520) && is_dongle(0x1314, 0x1521));
    assert!(!is_dongle(0x1314, 0x1522) && !is_dongle(0x1315, 0x1520));
    assert!(is_livi_link(Some("LIVI Link")) && !is_livi_link(Some("Auto Box")) && !is_livi_link(None));
    let named = Announce { serial: "S1".into(), product: 0x1520, version: 1, name: "x".into() };
    let nameless = Announce { serial: "".into(), product: 0x1520, version: 1, name: "x".into() };
    assert_eq!(named.label(), "dongle:S1");
    assert_eq!(nameless.label(), "dongle");
}

#[test]
fn a_dongle_is_served_once_and_the_link_announced_once() {
    let mut d = Dongles::new();
    assert!(d.seen(1, true, false) == Seen::Link);
    assert!(d.seen(2, true, false) == Seen::Nothing);
    assert!(d.seen(3, false, true) == Seen::Serve);
    assert!(d.seen(3, false, true) == Seen::Nothing);
    assert!(d.offer_again(3));
    assert!(!d.gone(3));
    assert!(!d.offer_again(3));
    d.served(3);
    assert!(d.seen(3, false, true) == Seen::Serve);
    assert!(d.seen(4, false, false) == Seen::Nothing);
    assert!(d.gone(1));
    assert!(d.seen(2, true, false) == Seen::Link);
}

fn complete(opcode: u16, params: &[u8]) -> Vec<u8> {
    let mut pkt = vec![0x04, 0x0e, (4 + params.len()) as u8, 5];
    pkt.extend_from_slice(&opcode.to_le_bytes());
    pkt.push(0);
    pkt.extend_from_slice(params);
    pkt
}

#[test]
fn call_audio_flow_control_is_not_offered() {
    let mut pkt = complete(0x1002, &[0xff; 64]);
    assert_eq!(fit_to_vhci(&mut pkt), None);
    assert_eq!(pkt[7 + 10], 0xef);
    assert!(pkt[7..].iter().enumerate().all(|(i, b)| i == 10 || *b == 0xff));
}

#[test]
fn an_8_bit_controller_is_set_to_16_bit_and_reads_so() {
    let mut pkt = complete(0x0c25, &[0x00, 0x00]);
    let order = fit_to_vhci(&mut pkt);
    assert_eq!(&pkt[7..9], &[0x60, 0x00]);
    assert_eq!(order, Some(vec![0x01, 0x26, 0x0c, 0x02, 0x60, 0x00]));
}

#[test]
fn a_16_bit_controller_is_left_alone() {
    let mut pkt = complete(0x0c25, &[0x60, 0x00]);
    let was = pkt.clone();
    assert_eq!(fit_to_vhci(&mut pkt), None);
    assert_eq!(pkt, was);
}

#[test]
fn a_failed_or_other_answer_is_left_alone() {
    let mut failed = complete(0x0c25, &[0x00, 0x00]);
    failed[6] = 0x0c;
    let mut other = complete(0x1005, &[0xfd, 0x03, 0xff, 0x04, 0x00, 0x04, 0x00]);
    let (was_failed, was_other) = (failed.clone(), other.clone());
    assert_eq!(fit_to_vhci(&mut failed), None);
    assert_eq!(fit_to_vhci(&mut other), None);
    assert_eq!(failed, was_failed);
    assert_eq!(other, was_other);
}

#[test]
fn the_answer_to_our_own_order_is_recognised() {
    assert!(answers(&complete(0x0c26, &[]), 0x0c26));
    assert!(!answers(&complete(0x0c25, &[0, 0]), 0x0c26));
    assert!(!answers(&[0x02, 0x0e, 0x04, 5, 0x26, 0x0c, 0], 0x0c26));
}

#[test]
fn our_own_answer_is_kept_from_the_stack() {
    let mut own = 0;
    let r = inbound(complete(0x0c25, &[0, 0]), &mut own);
    assert_eq!(own, 1);
    assert_eq!(r.order, Some(vec![0, 6, 0x01, 0x26, 0x0c, 0x02, 0x60, 0x00]));
    assert_eq!(r.deliver, Some(complete(0x0c25, &[0x60, 0])));
    let r = inbound(complete(0x0c26, &[]), &mut own);
    assert_eq!(own, 0);
    assert!(r.deliver.is_none() && r.order.is_none());
    let r = inbound(complete(0x0c26, &[]), &mut own);
    assert_eq!(r.deliver, Some(complete(0x0c26, &[])));
}

#[test]
fn packets_are_framed_and_oversized_frames_refused() {
    assert_eq!(frame(&[9, 8, 7]), vec![0, 3, 9, 8, 7]);
    assert_eq!(frame_len(0, 3), Some(3));
    assert_eq!(frame_len(0, 0), None);
    assert_eq!(frame_len(0x10, 0x00), Some(4096));
    assert_eq!(frame_len(0x10, 0x01), None);
}

#[test]
fn the_driver_names_its_adapter() {
    assert!(outbound(&[0xff, 0, 3, 0]) == Outbound::Adapter(3));
    assert!(outbound(&[0xff, 0]) == Outbound::Ignore);
    assert!(outbound(&[0x01, 0, 0]) == Outbound::Send);
}

#[test]
fn the_lights_follow_the_links() {
    let mut links = HashSet::new();
    let mut request = vec![0x04, 0x04, 10, 0, 1, 0, 0, 0, 0, 0, 0, 0, 1];
    let s = watch_link(&request, &mut links);
    assert_eq!((s.paging, s.connected), (Some(true), None));
    request[12] = 0;
    assert_eq!(watch_link(&request, &mut links).paging, None);
    let up_event = [0x04, 0x03, 11, 0, 0x01, 0xf0, 0, 0, 0, 0, 0, 0, 1];
    let s = watch_link(&up_event, &mut links);
    assert_eq!((s.paging, s.connected), (Some(false), Some(true)));
    assert!(links.contains(&1));
    let second = [0x04, 0x03, 11, 0, 0x02, 0x00, 0, 0, 0, 0, 0, 0, 1];
    watch_link(&second, &mut links);
    let s = watch_link(&[0x04, 0x05, 4, 0, 0x01, 0x00, 0x13], &mut links);
    assert_eq!((s.paging, s.connected), (None, None));
    let s = watch_link(&[0x04, 0x05, 4, 0, 0x02, 0x00, 0x13], &mut links);
    assert_eq!((s.paging, s.connected), (None, Some(false)));
}

#[test]
fn a_controller_that_is_up_already_is_no_failure() {
    assert_eq!(up(None), Ok(()));
    assert_eq!(up(Some(EALREADY)), Ok(()));
    assert_eq!(livi::hci::down(Some(19)), Err(19));
    assert!(is_up(Some(5)) && !is_up(Some(4)) && !is_up(None));
    assert_eq!(lower_mac(&[1, 2, 3, 4, 5, 0xab]), "ab:05:04:03:02:01");
    assert_eq!(up_line(0, &[1, 2, 3, 4, 5, 0xab], 0x13), "livi-bt-up: hci0 up, MAC ab:05:04:03:02:01, bus 3, type amp");
}

fn query(qtype: u16, qclass: u16, host: &str) -> Vec<u8> {
    let mut q = vec![0x12, 0x34, 0, 0, 0, 1, 0, 0, 0, 0, 0, 0];
    q.extend_from_slice(&Name::new(host).0);
    q.extend_from_slice(&qtype.to_be_bytes());
    q.extend_from_slice(&qclass.to_be_bytes());
    q
}

#[test]
fn answers_an_a_query_for_our_name() {
    let name = Name::new("livi-link");
    let ask = parse_query(&query(QTYPE_A, CLASS_IN, "livi-link"), &name).unwrap();
    assert_eq!(ask, Ask { id: 0x1234, want_a: true, want_nsec: false, unicast: false });
}

#[test]
fn ignores_other_names_responses_and_classes() {
    let name = Name::new("livi-link");
    assert!(parse_query(&query(QTYPE_A, CLASS_IN, "someone-else"), &name).is_none());
    assert!(parse_query(&query(QTYPE_A, 3, "livi-link"), &name).is_none());
    let mut response = query(QTYPE_A, CLASS_IN, "livi-link");
    response[2] = 0x84;
    assert!(parse_query(&response, &name).is_none());
}

#[test]
fn an_aaaa_query_gets_nsec_not_an_address() {
    let name = Name::new("livi-link");
    let ask = parse_query(&query(QTYPE_AAAA, CLASS_IN, "livi-link"), &name).unwrap();
    assert!(!ask.want_a && ask.want_nsec);
}

#[test]
fn honours_the_unicast_reply_bit() {
    let name = Name::new("livi-link");
    let ask = parse_query(&query(QTYPE_ANY, CLASS_IN | UNICAST_REPLY, "livi-link"), &name).unwrap();
    assert!(ask.want_a && ask.want_nsec && ask.unicast);
}

#[test]
fn follows_a_compression_pointer() {
    let name = Name::new("livi-link");
    let mut q = vec![0, 1, 0, 0, 0, 1, 0, 0, 0, 0, 0, 0];
    let target = 12 + 2 + 4;
    q.extend_from_slice(&[0xC0, target as u8]);
    q.extend_from_slice(&QTYPE_A.to_be_bytes());
    q.extend_from_slice(&CLASS_IN.to_be_bytes());
    q.extend_from_slice(&Name::new("livi-link").0);
    assert!(parse_query(&q, &name).unwrap().want_a);
}

#[test]
fn a_pointer_loop_is_not_followed_forever() {
    let name = Name::new("livi-link");
    let mut q = vec![0, 1, 0, 0, 0, 1, 0, 0, 0, 0, 0, 0];
    q.extend_from_slice(&[0xC0, 12]);
    q.extend_from_slice(&QTYPE_A.to_be_bytes());
    q.extend_from_slice(&CLASS_IN.to_be_bytes());
    assert!(parse_query(&q, &name).is_none());
}

#[test]
fn the_multicast_answer_carries_the_cache_flush_bit_and_the_address() {
    let name = Name::new("livi-link");
    let a = [192, 168, 50, 2];
    let answer = build_answer(&name, 0, a, false, true, true);
    assert_eq!(&answer[..4], &[0, 0, 0x84, 0x00]);
    assert_eq!(u16::from_be_bytes([answer[6], answer[7]]), 2);
    let rr = 12 + name.0.len();
    assert_eq!(u16::from_be_bytes([answer[rr], answer[rr + 1]]), QTYPE_A);
    assert_eq!(u16::from_be_bytes([answer[rr + 2], answer[rr + 3]]), CLASS_IN | CACHE_FLUSH);
    assert!(answer.windows(4).any(|w| w == a));
    assert_eq!(announcement(&name, a), answer);
}

#[test]
fn a_legacy_answer_keeps_the_id_and_stays_out_of_caches() {
    let name = Name::new("livi-link");
    let answer = build_answer(&name, 0x1234, [127, 0, 0, 1], true, true, false);
    assert_eq!(u16::from_be_bytes([answer[0], answer[1]]), 0x1234);
    let rr = 12 + name.0.len();
    assert_eq!(u16::from_be_bytes([answer[rr + 2], answer[rr + 3]]), CLASS_IN);
    assert_eq!(u32::from_be_bytes(answer[rr + 4..rr + 8].try_into().unwrap()), LEGACY_TTL);
}

#[test]
fn a_name_is_read_back_and_ignores_case() {
    let name = Name::new("LIVI-link");
    let mut pkt = vec![7; 3];
    pkt.extend_from_slice(&name.0);
    assert_eq!(read_name(&pkt, 3), Some((name.0.clone(), pkt.len())));
    assert!(Name::new("livi-LINK").matches(&name.0));
    assert_eq!(read_name(&pkt, pkt.len()), None);
    let long = Name::new(&"x".repeat(80));
    assert_eq!(long.0.len(), 1 + 63 + 7);
    assert_eq!(long.0[0], 63);
}

#[test]
fn an_asker_on_another_port_gets_its_own_reply() {
    let name = Name::new("a");
    let ask = Ask { id: 7, want_a: true, want_nsec: false, unicast: false };
    let legacy = reply(&name, &ask, [1, 2, 3, 4], 1000);
    assert!(legacy.unicast);
    assert_eq!(&legacy.data[..2], &[0, 7]);
    let plain = reply(&name, &ask, [1, 2, 3, 4], 5353);
    assert!(!plain.unicast);
    assert_eq!(&plain.data[..2], &[0, 0]);
    assert!(usable_args(2) && usable_args(9) && !usable_args(1) && !usable_args(10));
}

//! The transport modules, and the mobile platforms.
use spark::guest::abi::{alloc_accepts, input_within, packed, ARENA};
use spark::guest::bip324::{
    after_step, app_bytes, may_step, may_transform, opened, opened_room, parse_init, sealed_room,
    step_frame, GuestState, Role,
};
use spark::guest::xor::{transform_in, transform_out};
use spark::platform::{
    applied, data_dir, explicit_config, optional_setting, outcome, tun_address, wait_ms, HostText,
};

#[test]
fn places_and_lengths_are_packed() {
    assert_eq!(packed(1, 2), 0x1_0000_0002);
    assert_eq!(packed(-1, 0), -0x1_0000_0000);
    assert_eq!(packed(0, -1), 0xffff_ffff);
    assert!(alloc_accepts(0));
    assert!(alloc_accepts(ARENA as i32));
    assert!(!alloc_accepts(ARENA as i32 + 1));
    assert!(!alloc_accepts(-1));
}

#[test]
fn an_input_lies_in_the_buffer() {
    assert!(input_within(64, 64, ARENA as i32));
    assert!(!input_within(64, 65, ARENA as i32));
    assert!(!input_within(64, 63, 1));
    assert!(!input_within(64, 64, -1));
    assert!(!input_within(64, -1, 1));
}

#[test]
fn the_xor_module_undoes_itself() {
    let mut data = b"hello".to_vec();
    transform_out(&mut data);
    assert_eq!(data, [b'h' ^ 0x5A, b'e' ^ 0x5A, b'l' ^ 0x5A, b'l' ^ 0x5A, b'o' ^ 0x5A]);
    transform_in(&mut data);
    assert_eq!(data, b"hello");
}

#[test]
fn a_configuration_is_read() {
    let c = parse_init(&[1, 9, 8, 7, 6, 0, 2, 0xaa, 0xbb, 1, 2, 3]).unwrap();
    assert_eq!(c.role, Role::Responder);
    assert_eq!(c.magic, [9, 8, 7, 6]);
    assert_eq!(c.k_srv, [0xaa, 0xbb]);
    assert_eq!(c.garbage, [1, 2, 3]);
    let short = parse_init(&[0, 9, 8, 7, 6, 0, 0]).unwrap();
    assert_eq!(short.role, Role::Initiator);
    assert!(short.k_srv.is_empty() && short.garbage.is_empty());
    assert!(parse_init(&[0, 9, 8, 7, 6, 0]).is_none());
    assert!(parse_init(&[2, 9, 8, 7, 6, 0, 0]).is_none());
    assert!(parse_init(&[0, 9, 8, 7, 6, 0, 1]).is_none());
}

#[test]
fn calls_come_in_their_order() {
    assert!(!may_step(GuestState::New));
    assert!(may_step(GuestState::Handshaking));
    assert!(!may_step(GuestState::Established));
    assert!(may_transform(GuestState::Established));
    assert!(!may_transform(GuestState::Handshaking));
    assert_eq!(after_step(true), GuestState::Established);
    assert_eq!(after_step(false), GuestState::Handshaking);
}

#[test]
fn what_a_step_hands_back_is_framed() {
    assert_eq!(step_frame(false, b"ab"), [0, b'a', b'b']);
    assert_eq!(step_frame(true, b""), [1]);
    assert_eq!(app_bytes(&vec![b"ab".to_vec(), Vec::new(), b"c".to_vec()]), b"abc");
    assert!(app_bytes(&Vec::new()).is_empty());
}

#[test]
fn opening_may_fail() {
    assert_eq!(sealed_room(5), 21);
    assert_eq!(opened_room(15), None);
    assert_eq!(opened_room(16), Some(0));
    assert_eq!(opened(-1, vec![1, 2]), None);
    assert_eq!(opened(1, vec![1, 2]), Some(vec![1]));
    assert_eq!(opened(9, vec![1, 2]), Some(vec![1, 2]));
}

#[test]
fn a_configuration_that_is_no_text_is_refused() {
    assert_eq!(explicit_config(HostText::Null), Ok(None));
    assert_eq!(explicit_config(HostText::Text("c".into())), Ok(Some("c".to_string())));
    assert_eq!(explicit_config(HostText::Undecodable), Err(()));
    assert_eq!(data_dir(HostText::Text(" /d ".into())).as_deref(), Some("/d"));
    assert_eq!(data_dir(HostText::Text("  ".into())), None);
    assert_eq!(data_dir(HostText::Undecodable), None);
    assert_eq!(optional_setting(HostText::Text("".into())).as_deref(), Some(""));
    assert_eq!(optional_setting(HostText::Undecodable), None);
}

#[test]
fn the_platform_gets_a_number_back() {
    assert_eq!(outcome(true), 0);
    assert_eq!(outcome(false), -1);
    assert_eq!(applied(&HostText::Text("x".into()), true), 0);
    assert_eq!(applied(&HostText::Text("x".into()), false), -1);
    assert_eq!(applied(&HostText::Null, true), -1);
    assert_eq!(wait_ms(-5), 0);
    assert_eq!(wait_ms(7), 7);
    assert_eq!(tun_address(0x0A00_0002), [10, 0, 0, 2]);
    assert_eq!(tun_address(-1), [255, 255, 255, 255]);
}

//! Agent observation engine: discovery, coalescing, pixmap conversion,
//! reverse dispatch and name loss.

use sni_icon::agent::{convert_pixmaps, split_service, starts_with, AgentState, RefreshOutcome};
use sni_icon::codec::{decode_server_payload, encode_server_payload};
use sni_icon::wire::{ClientEvent, IconServerEvent, IconType, ServerEvent};

fn discover(st: &mut AgentState, bus: &str, app_id: &str) -> u64 {
    let (id, evs) = st
        .register_icon(
            bus.to_owned(),
            bus.to_owned(),
            app_id.to_owned(),
            "ApplicationStatus".to_owned(),
            false,
            Some("Active".to_owned()),
        )
        .expect("not reserved");
    assert_eq!(evs.len(), 2);
    assert_eq!(evs[0].id, id);
    assert!(matches!(evs[0].event, ClientEvent::Create { .. }));
    assert!(matches!(evs[1].event, ClientEvent::Status(_)));
    id
}

#[test]
fn ids_are_minted_strictly_increasing() {
    let mut st = AgentState::new();
    let a = discover(&mut st, ":1.10", "AppA");
    let b = discover(&mut st, ":1.11", "AppB");
    let c = discover(&mut st, ":1.12", "AppC");
    assert_eq!(a, 1);
    assert_eq!(b, 2);
    assert_eq!(c, 3);
}

#[test]
fn reserved_app_ids_are_not_forwarded() {
    let mut st = AgentState::new();
    let r = st.register_icon(
        ":1.10".to_owned(),
        ":1.10".to_owned(),
        "org.qubes_os.vm.app_id.Example".to_owned(),
        "ApplicationStatus".to_owned(),
        false,
        None,
    );
    assert!(r.is_none());
    assert!(st.lookup_service(1).is_none());
}

#[test]
fn reverse_dispatch_finds_the_service() {
    let mut st = AgentState::new();
    let id = discover(&mut st, ":1.10", "AppA");
    assert_eq!(st.lookup_service(id), Some(":1.10".to_owned()));
    assert_eq!(st.lookup_service(id + 1), None);
}

#[test]
fn coalescing_folds_a_burst_into_one_refresh() {
    // 100 back-to-back signals while no refresh completes: exactly one
    // refresh may be spawned.
    let mut st = AgentState::new();
    discover(&mut st, ":1.10", "AppA");
    let key = ":1.10".to_owned();
    let mut spawns = 0;
    for _ in 0..100 {
        if st.signal_arrived(&key, IconType::Normal) {
            spawns += 1;
        }
    }
    assert_eq!(spawns, 1);
    // an unrelated property spawns independently
    assert!(st.signal_arrived(&key, IconType::Title));
    // completion clears the bit, so the next signal spawns again
    let ev = st.refresh_finished(&key, IconType::Normal, RefreshOutcome::Pixmaps(vec![]));
    assert!(ev.is_some());
    assert!(st.signal_arrived(&key, IconType::Normal));
}

#[test]
fn signals_for_unknown_icons_are_dropped() {
    let mut st = AgentState::new();
    assert!(!st.signal_arrived(&":1.99".to_owned(), IconType::Normal));
    assert!(st
        .refresh_finished(&":1.99".to_owned(), IconType::Title, RefreshOutcome::TitleText(None))
        .is_none());
}

#[test]
fn refresh_outcomes_become_events() {
    let mut st = AgentState::new();
    let id = discover(&mut st, ":1.10", "AppA");
    let key = ":1.10".to_owned();
    let ev = st
        .refresh_finished(
            &key,
            IconType::Normal,
            RefreshOutcome::Pixmaps(vec![(1, 1, vec![1, 2, 3, 4])]),
        )
        .expect("pixmaps yield an event");
    assert_eq!(ev.id, id);
    match ev.event {
        ClientEvent::Icon { typ, data } => {
            assert_eq!(typ, IconType::Normal);
            assert_eq!(data.len(), 1);
            assert_eq!((data[0].width, data[0].height), (1, 1));
            assert_eq!(data[0].data, vec![1, 2, 3, 4]);
        }
        other => panic!("unexpected event {:?}", other),
    }
    assert!(st.refresh_finished(&key, IconType::Overlay, RefreshOutcome::IconNameOnly).is_none());
    let ev = st
        .refresh_finished(&key, IconType::Attention, RefreshOutcome::Unavailable)
        .unwrap();
    assert!(matches!(ev.event, ClientEvent::RemoveIcon(IconType::Attention)));
    let ev = st
        .refresh_finished(
            &key,
            IconType::Title,
            RefreshOutcome::TitleText(Some("t".to_owned())),
        )
        .unwrap();
    assert!(matches!(ev.event, ClientEvent::Title(Some(ref t)) if t == "t"));
    let ev = st
        .refresh_finished(&key, IconType::Status, RefreshOutcome::StatusText(None))
        .unwrap();
    assert!(matches!(ev.event, ClientEvent::Status(None)));
}

#[test]
fn name_owner_vanish_destroys_the_icon() {
    let mut st = AgentState::new();
    let id = discover(&mut st, ":1.10", "AppA");
    // a transition to a new real owner is not a loss
    let r = st.handle_name_lost(&":1.10".to_owned(), &":1.10".to_owned(), &":1.77".to_owned());
    assert!(r.is_none());
    // a service appearing (no old owner) is not a loss either
    let r = st.handle_name_lost(&":1.10".to_owned(), &"".to_owned(), &":1.10".to_owned());
    assert!(r.is_none());
    // the owner vanishing destroys the icon and clears both maps
    let ev = st
        .handle_name_lost(&":1.10".to_owned(), &":1.10".to_owned(), &"".to_owned())
        .expect("destroy emitted");
    assert_eq!(ev.id, id);
    assert!(matches!(ev.event, ClientEvent::Destroy));
    assert!(st.lookup_service(id).is_none());
    assert!(!st.signal_arrived(&":1.10".to_owned(), IconType::Normal));
    // a name that was never registered is ignored
    let r = st.handle_name_lost(&":1.66".to_owned(), &":1.66".to_owned(), &"".to_owned());
    assert!(r.is_none());
}

#[test]
fn conversion_rejects_inconsistent_rows() {
    let rows = vec![
        (1, 1, vec![1, 2, 3, 4]),
        (-1, 1, vec![]),
        (1, 1, vec![1, 2, 3]),
        (5000, 1, vec![0; 20000]),
        (0, 0, vec![]),
    ];
    let out = convert_pixmaps(rows);
    assert_eq!(out.len(), 2);
    assert_eq!((out[0].width, out[0].height), (1, 1));
    assert_eq!(out[0].data, vec![1, 2, 3, 4]);
    assert_eq!((out[1].width, out[1].height), (0, 0));
}

#[test]
fn service_strings_split_at_the_first_slash() {
    let (bus, path) = split_service(":1.5/org/foo");
    assert_eq!(bus, ":1.5");
    assert_eq!(path, "/org/foo");
    let (bus, path) = split_service("org.example.App");
    assert_eq!(bus, "org.example.App");
    assert_eq!(path, "/StatusNotifierItem");
}

#[test]
fn prefix_test_is_exact() {
    assert!(starts_with("org.qubes_os.vm.app_id.x", "org.qubes_os.vm."));
    assert!(!starts_with("org.qubes_os.v", "org.qubes_os.vm."));
    assert!(!starts_with("xorg.qubes_os.vm.", "org.qubes_os.vm."));
    assert!(starts_with("abc", ""));
}

#[test]
fn activation_crosses_the_stream() {
    // The daemon captures Activate(10, 20) for icon 1 and frames it;
    // the agent decodes it and locates the originating service.
    let mut st = AgentState::new();
    let id = discover(&mut st, ":1.10", "AppA");
    let captured = IconServerEvent { id, event: ServerEvent::Activate { x: 10, y: 20 } };
    let payload = encode_server_payload(&captured).unwrap();
    let received = decode_server_payload(payload.as_slice()).unwrap();
    assert_eq!(received, captured);
    let service = st.lookup_service(received.id).expect("icon known");
    let (bus, path) = split_service(&service);
    assert_eq!(bus, ":1.10");
    assert_eq!(path, "/StatusNotifierItem");
}

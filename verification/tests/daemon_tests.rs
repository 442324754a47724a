//! Daemon republishing engine: creation, state application, border
//! overlay, destruction, and the fatal protocol violations.

use sni_icon::daemon::{apply_border, parse_dest, CreateOutcome, DaemonError, DaemonState,
    SniSignal, UpdateOutcome};
use sni_icon::wire::{ClientEvent, IconClientEvent, IconData, IconType, Tooltip};

fn fresh_icon_state() -> DaemonState {
    let mut st = DaemonState::new();
    let outcome = st
        .handle_create(
            1,
            "ApplicationStatus".to_owned(),
            "Example",
            false,
            ":1.100".to_owned(),
        )
        .expect("create accepted");
    match outcome {
        CreateOutcome::Registered { app_id } => {
            assert_eq!(app_id, "org.qubes_os.vm.app_id.Example");
        }
        other => panic!("unexpected outcome {:?}", other),
    }
    st
}

#[test]
fn create_and_activate_state() {
    // Scenario: create, set status, set a 2-by-2 icon; every pixel of a
    // 2-by-2 image is on the border, so all bytes become 255,255,0,0.
    let mut st = fresh_icon_state();
    let r = st
        .handle_update(IconClientEvent {
            id: 1,
            event: ClientEvent::Status(Some("Active".to_owned())),
        })
        .unwrap();
    assert_eq!(
        r,
        UpdateOutcome::Signal { signal: SniSignal::NewStatus { status: "Active".to_owned() } }
    );
    let r = st
        .handle_update(IconClientEvent {
            id: 1,
            event: ClientEvent::Icon {
                typ: IconType::Normal,
                data: vec![IconData { width: 2, height: 2, data: vec![0u8; 16] }],
            },
        })
        .unwrap();
    assert_eq!(r, UpdateOutcome::Signal { signal: SniSignal::NewIcon });
    let icon = st.get_icon(1).expect("icon installed");
    assert_eq!(icon.id(), "org.qubes_os.vm.app_id.Example");
    assert_eq!(icon.category(), "ApplicationStatus");
    assert_eq!(icon.status(), Some("Active".to_owned()));
    let rows = icon.icon_pixmap();
    assert_eq!(rows.len(), 1);
    let (w, h, bytes) = &rows[0];
    assert_eq!((*w, *h), (2, 2));
    assert_eq!(bytes, &vec![255, 255, 0, 0, 255, 255, 0, 0, 255, 255, 0, 0, 255, 255, 0, 0]);
}

#[test]
fn border_leaves_the_interior_alone() {
    let mut d = IconData { width: 5, height: 5, data: (0..100).collect() };
    apply_border(&mut d);
    assert_eq!(d.width, 5);
    assert_eq!(d.height, 5);
    // the single interior pixel of a 5-by-5 image is (2, 2)
    let base = (2 * 5 + 2) * 4;
    assert_eq!(&d.data[base..base + 4], &[base as u8, base as u8 + 1, base as u8 + 2,
        base as u8 + 3]);
    // a corner and an edge pixel carry the marker bytes
    assert_eq!(&d.data[0..4], &[255, 255, 0, 0]);
    let edge = (1 * 5 + 3) * 4;
    assert_eq!(&d.data[edge..edge + 4], &[255, 255, 0, 0]);
}

#[test]
fn non_increasing_id_is_fatal() {
    let mut st = fresh_icon_state();
    let r = st.handle_create(1, "ApplicationStatus".to_owned(), "Other", false, ":1.101".to_owned());
    assert_eq!(r, Err(DaemonError::NonMonotonicId));
    let r = st.handle_create(0, "ApplicationStatus".to_owned(), "Other", false, ":1.102".to_owned());
    assert_eq!(r, Err(DaemonError::NonMonotonicId));
}

#[test]
fn empty_category_is_skipped() {
    let mut st = DaemonState::new();
    let r = st.handle_create(3, "".to_owned(), "Example", false, ":1.103".to_owned());
    assert_eq!(r, Ok(CreateOutcome::SkippedEmptyCategory));
    // the skip does not advance the watermark
    let r = st.handle_create(3, "ApplicationStatus".to_owned(), "Example", false, ":1.104".to_owned());
    assert!(matches!(r, Ok(CreateOutcome::Registered { .. })));
}

#[test]
fn destroy_releases_the_bus_identity() {
    let mut st = fresh_icon_state();
    let r = st
        .handle_update(IconClientEvent { id: 1, event: ClientEvent::Destroy })
        .unwrap();
    assert_eq!(r, UpdateOutcome::Destroyed { bus_path: ":1.100".to_owned() });
    assert!(st.get_icon(1).is_none());
    let r = st.handle_update(IconClientEvent { id: 1, event: ClientEvent::Title(None) });
    assert_eq!(r, Err(DaemonError::UnknownId));
}

#[test]
fn unknown_id_is_fatal() {
    let mut st = DaemonState::new();
    let r = st.handle_update(IconClientEvent { id: 9, event: ClientEvent::Destroy });
    assert_eq!(r, Err(DaemonError::UnknownId));
}

#[test]
fn pixmap_typed_title_and_status_are_fatal() {
    let mut st = fresh_icon_state();
    let r = st.handle_update(IconClientEvent {
        id: 1,
        event: ClientEvent::Icon { typ: IconType::Title, data: vec![] },
    });
    assert_eq!(r, Err(DaemonError::BadIconType));
    let r = st.handle_update(IconClientEvent {
        id: 1,
        event: ClientEvent::RemoveIcon(IconType::Status),
    });
    assert_eq!(r, Err(DaemonError::BadIconType));
}

#[test]
fn inconsistent_pixmap_is_fatal() {
    let mut st = fresh_icon_state();
    let r = st.handle_update(IconClientEvent {
        id: 1,
        event: ClientEvent::Icon {
            typ: IconType::Normal,
            data: vec![IconData { width: 2, height: 2, data: vec![0u8; 15] }],
        },
    });
    assert_eq!(r, Err(DaemonError::BadPixmap));
    let r = st.handle_update(IconClientEvent {
        id: 1,
        event: ClientEvent::Icon {
            typ: IconType::Normal,
            data: vec![IconData { width: 5000, height: 1, data: vec![0u8; 20000] }],
        },
    });
    assert_eq!(r, Err(DaemonError::BadPixmap));
}

#[test]
fn tooltip_round_trip_through_state() {
    let mut st = fresh_icon_state();
    let r = st
        .handle_update(IconClientEvent {
            id: 1,
            event: ClientEvent::Tooltip {
                icon_data: vec![IconData { width: 1, height: 1, data: vec![1, 2, 3, 4] }],
                title: "t".to_owned(),
                description: "d".to_owned(),
            },
        })
        .unwrap();
    assert_eq!(r, UpdateOutcome::Signal { signal: SniSignal::NewToolTip });
    let icon = st.get_icon(1).unwrap();
    let (name, rows, title, description) = icon.tool_tip().expect("tooltip set");
    assert_eq!(name, "");
    assert_eq!(rows, vec![(1, 1, vec![1, 2, 3, 4])]);
    assert_eq!(title, "t");
    assert_eq!(description, "d");
    let r = st
        .handle_update(IconClientEvent { id: 1, event: ClientEvent::RemoveTooltip })
        .unwrap();
    assert_eq!(r, UpdateOutcome::Signal { signal: SniSignal::NewToolTip });
    assert!(st.get_icon(1).unwrap().tool_tip().is_none());
}

#[test]
fn unset_status_signals_normal() {
    let mut st = fresh_icon_state();
    let r = st
        .handle_update(IconClientEvent { id: 1, event: ClientEvent::Status(None) })
        .unwrap();
    assert_eq!(
        r,
        UpdateOutcome::Signal { signal: SniSignal::NewStatus { status: "normal".to_owned() } }
    );
    assert_eq!(st.get_icon(1).unwrap().status(), None);
}

#[test]
fn remove_icon_clears_the_slot() {
    let mut st = fresh_icon_state();
    st.handle_update(IconClientEvent {
        id: 1,
        event: ClientEvent::Icon {
            typ: IconType::Attention,
            data: vec![IconData { width: 1, height: 1, data: vec![0; 4] }],
        },
    })
    .unwrap();
    assert_eq!(st.get_icon(1).unwrap().attention_icon_pixmap().len(), 1);
    let r = st
        .handle_update(IconClientEvent {
            id: 1,
            event: ClientEvent::RemoveIcon(IconType::Attention),
        })
        .unwrap();
    assert_eq!(r, UpdateOutcome::Signal { signal: SniSignal::NewAttentionIcon });
    assert_eq!(st.get_icon(1).unwrap().attention_icon_pixmap().len(), 0);
}

#[test]
fn parse_dest_accepts_a_decimal_id() {
    assert_eq!(parse_dest("item-123-x", "item-", "-x"), Some(123));
    assert_eq!(parse_dest("p9s", "p", "s"), Some(9));
    assert_eq!(
        parse_dest("p18446744073709551615s", "p", "s"),
        Some(u64::MAX)
    );
}

#[test]
fn parse_dest_rejects_bad_shapes() {
    assert_eq!(parse_dest("item-123-x", "wrong-", "-x"), None);
    assert_eq!(parse_dest("item-123-y", "item-", "-x"), None);
    assert_eq!(parse_dest("item--x", "item-", "-x"), None);
    assert_eq!(parse_dest("item-0123-x", "item-", "-x"), None);
    assert_eq!(parse_dest("item-12a3-x", "item-", "-x"), None);
    assert_eq!(parse_dest("p18446744073709551616s", "p", "s"), None);
    assert_eq!(parse_dest("ps", "p", "s"), None);
}

#[test]
fn menu_path_follows_the_flag() {
    let mut st = DaemonState::new();
    st.handle_create(1, "ApplicationStatus".to_owned(), "Example", true, ":1.9".to_owned())
        .unwrap();
    let icon = st.get_icon(1).unwrap();
    assert!(icon.item_is_menu());
    assert_eq!(icon.menu(), Some("/StatusNotifierItem".to_owned()));
    assert_eq!(icon.window_id(), 0);
    assert_eq!(icon.bus_path(), ":1.9");
}

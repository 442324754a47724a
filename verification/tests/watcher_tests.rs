//! Watcher impersonation state: registration, snapshots, and reaction
//! to name-owner changes.

use sni_icon::watcher::Watcher;

#[test]
fn items_register_and_snapshot() {
    let mut w = Watcher::new();
    w.register_status_notifier_item(":1.5".to_owned());
    w.register_status_notifier_item(":1.6".to_owned());
    w.register_status_notifier_item(":1.5".to_owned());
    let items = w.registered_status_notifier_items();
    assert_eq!(items, vec![":1.5".to_owned(), ":1.6".to_owned()]);
}

#[test]
fn host_registration_flips_the_flag() {
    let mut w = Watcher::new();
    assert!(!w.is_status_notifier_host_registered());
    w.register_status_notifier_host(":1.7".to_owned());
    assert!(w.is_status_notifier_host_registered());
}

#[test]
fn protocol_version_is_one() {
    let w = Watcher::new();
    assert_eq!(w.protocol_version(), 1);
}

#[test]
fn vanished_owner_drops_the_item_with_a_signal() {
    let mut w = Watcher::new();
    w.register_status_notifier_item(":1.5".to_owned());
    // a transition to a real new owner leaves items untouched
    assert!(!w.handle_name_owner_changed(&":1.5".to_owned(), &":1.9".to_owned()));
    assert_eq!(w.registered_status_notifier_items().len(), 1);
    // the owner vanishing removes the item and asks for the signal
    assert!(w.handle_name_owner_changed(&":1.5".to_owned(), &"".to_owned()));
    assert_eq!(w.registered_status_notifier_items().len(), 0);
    // doing it again finds nothing
    assert!(!w.handle_name_owner_changed(&":1.5".to_owned(), &"".to_owned()));
}

#[test]
fn hosts_are_dropped_on_any_owner_change() {
    let mut w = Watcher::new();
    w.register_status_notifier_host(":1.7".to_owned());
    assert!(!w.handle_name_owner_changed(&":1.7".to_owned(), &":1.8".to_owned()));
    assert!(!w.is_status_notifier_host_registered());
}

//! The coalescing mask primitives.

use sni_icon::observe::{complete_step, signal_step};
use sni_icon::wire::IconType;

#[test]
fn first_signal_spawns_later_ones_coalesce() {
    let (mask, spawn) = signal_step(0, IconType::Normal);
    assert!(spawn);
    assert_eq!(mask, 1);
    let (mask, spawn) = signal_step(mask, IconType::Normal);
    assert!(!spawn);
    assert_eq!(mask, 1);
}

#[test]
fn properties_coalesce_independently() {
    let (mask, spawn) = signal_step(0, IconType::Status);
    assert!(spawn);
    let (mask, spawn2) = signal_step(mask, IconType::Title);
    assert!(spawn2);
    assert_eq!(mask, 8 | 16);
}

#[test]
fn completion_reopens_the_property() {
    let (mask, _) = signal_step(0, IconType::Overlay);
    let mask = complete_step(mask, IconType::Overlay);
    assert_eq!(mask, 0);
    let (_, spawn) = signal_step(mask, IconType::Overlay);
    assert!(spawn);
}

#[test]
fn icon_type_bits_are_distinct_powers_of_two() {
    let bits = [
        IconType::Normal.bit(),
        IconType::Overlay.bit(),
        IconType::Attention.bit(),
        IconType::Status.bit(),
        IconType::Title.bit(),
    ];
    assert_eq!(bits, [1, 2, 4, 8, 16]);
}

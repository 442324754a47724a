//! The bus names, interface names, object paths and member names the
//! proxy uses.  Each is a fixed string, pre-validated by construction.

use vstd::prelude::*;

verus! {

pub fn interface_com_canonical_dbusmenu() -> (r: &'static str)
    ensures
        r@ == "com.canonical.dbusmenu"@,
{
    "com.canonical.dbusmenu"
}

pub fn name_owner_changed() -> (r: &'static str)
    ensures
        r@ == "NameOwnerChanged"@,
{
    "NameOwnerChanged"
}

pub fn get_layout() -> (r: &'static str)
    ensures
        r@ == "GetLayout"@,
{
    "GetLayout"
}

pub fn interface_dbus() -> (r: &'static str)
    ensures
        r@ == "org.freedesktop.DBus"@,
{
    "org.freedesktop.DBus"
}

pub fn path_dbus() -> (r: &'static str)
    ensures
        r@ == "/org/freedesktop/DBus"@,
{
    "/org/freedesktop/DBus"
}

pub fn name_dbus() -> (r: &'static str)
    ensures
        r@ == "org.freedesktop.DBus"@,
{
    "org.freedesktop.DBus"
}

pub fn name_status_notifier_watcher() -> (r: &'static str)
    ensures
        r@ == "org.kde.StatusNotifierWatcher"@,
{
    "org.kde.StatusNotifierWatcher"
}

pub fn interface_status_notifier_watcher() -> (r: &'static str)
    ensures
        r@ == "org.kde.StatusNotifierWatcher"@,
{
    "org.kde.StatusNotifierWatcher"
}

/// Member name of the menu-layout-change signal; the match rule around
/// it is built where the bus connection lives.
pub fn layout_updated() -> (r: &'static str)
    ensures
        r@ == "LayoutUpdated"@,
{
    "LayoutUpdated"
}

pub fn path_status_notifier_watcher() -> (r: &'static str)
    ensures
        r@ == "/StatusNotifierWatcher"@,
{
    "/StatusNotifierWatcher"
}

pub fn register_status_notifier_item() -> (r: &'static str)
    ensures
        r@ == "RegisterStatusNotifierItem"@,
{
    "RegisterStatusNotifierItem"
}

pub fn path_status_notifier_item() -> (r: &'static str)
    ensures
        r@ == "/StatusNotifierItem"@,
{
    "/StatusNotifierItem"
}

} // verus!

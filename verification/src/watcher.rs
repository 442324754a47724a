//! StatusNotifierWatcher impersonation state.
//!
//! The agent owns `org.kde.StatusNotifierWatcher` on the guest bus and
//! tracks the registered items and hosts.  Registration always emits the
//! corresponding registered signal (plus a properties-changed
//! invalidation for items); a vanished name owner drops the host
//! unconditionally and drops the item, with an unregistered signal, only
//! when the name's new owner is empty.

use vstd::prelude::*;

verus! {

/// Mathematical view of a [`Watcher`]: the registered item and host
/// service names, each free of duplicates.
pub struct WatcherView {
    pub items: Seq<Seq<char>>,
    pub hosts: Seq<Seq<char>>,
}

pub open spec fn unique_strs(s: Seq<Seq<char>>) -> bool {
    forall|a: int, b: int| 0 <= a < b < s.len() ==> s[a] != s[b]
}

impl WatcherView {
    pub open spec fn wf(self) -> bool {
        unique_strs(self.items) && unique_strs(self.hosts)
    }
}

fn find_string(v: &Vec<String>, x: &String) -> (r: Option<usize>)
    ensures
        r matches Some(i) ==> i < v.deep_view().len() && v.deep_view()[i as int] == x@,
        r is None ==> !v.deep_view().contains(x@),
{
    let n = v.len();
    let mut i: usize = 0;
    while i < n
        invariant
            n == v@.len(),
            0 <= i <= n,
            forall|j: int| 0 <= j < i ==> v.deep_view()[j] != x@,
        decreases n - i,
    {
        assert(v.deep_view()[i as int] == v@[i as int]@);
        if v[i].eq(x) {
            return Some(i);
        }
        i = i + 1;
    }
    proof {
        if v.deep_view().contains(x@) {
            let j = choose|j: int| 0 <= j < v.deep_view().len() && v.deep_view()[j] == x@;
            assert(v.deep_view()[j] != x@);
        }
    }
    None
}

/// Inserts with set semantics: a present value leaves the list as it is.
fn insert_string(v: &mut Vec<String>, x: String)
    requires
        unique_strs(old(v).deep_view()),
    ensures
        unique_strs(final(v).deep_view()),
        final(v).deep_view() == (if old(v).deep_view().contains(x@) {
            old(v).deep_view()
        } else {
            old(v).deep_view().push(x@)
        }),
        forall|y: Seq<char>|
            final(v).deep_view().contains(y) <==> old(v).deep_view().contains(y) || y == x@,
{
    let ghost pre = v.deep_view();
    match find_string(v, &x) {
        Option::Some(i) => {
            proof {
                assert(pre.contains(x@));
                assert forall|y: Seq<char>|
                    pre.contains(y) <==> pre.contains(y) || y == x@ by {
                    if y == x@ {
                        assert(pre.contains(x@));
                    }
                }
            }
        },
        Option::None => {
            v.push(x);
            proof {
                assert forall|j: int| 0 <= j < v@.len() implies #[trigger] v.deep_view()[j]
                    == v@[j]@ by {}
                assert(v.deep_view() =~= pre.push(x@));
                assert forall|a: int, b: int| 0 <= a < b < v.deep_view().len() implies v.deep_view()[a] != v.deep_view()[b] by {
                    if b == pre.len() {
                        assert(v.deep_view()[a] == pre[a]);
                        assert(!pre.contains(x@));
                        assert(pre[a] != x@);
                    }
                }
                assert forall|y: Seq<char>|
                    v.deep_view().contains(y) <==> pre.contains(y) || y == x@ by {
                    if v.deep_view().contains(y) {
                        let j = choose|j: int|
                            0 <= j < v.deep_view().len() && v.deep_view()[j] == y;
                        if j < pre.len() {
                            assert(pre[j] == y);
                        }
                    }
                    if pre.contains(y) {
                        let j = choose|j: int| 0 <= j < pre.len() && pre[j] == y;
                        assert(v.deep_view()[j] == y);
                    }
                    if y == x@ {
                        assert(v.deep_view()[pre.len() as int] == x@);
                    }
                }
            }
        },
    }
}

/// Removes with set semantics; reports whether the value was present.
fn remove_string(v: &mut Vec<String>, x: &String) -> (removed: bool)
    requires
        unique_strs(old(v).deep_view()),
    ensures
        unique_strs(final(v).deep_view()),
        removed == old(v).deep_view().contains(x@),
        !removed ==> final(v).deep_view() == old(v).deep_view(),
        !final(v).deep_view().contains(x@),
        forall|y: Seq<char>|
            y != x@ ==> (final(v).deep_view().contains(y) <==> old(v).deep_view().contains(y)),
{
    let ghost pre = v.deep_view();
    match find_string(v, x) {
        Option::None => {
            false
        },
        Option::Some(i) => {
            proof {
                assert(pre[i as int] == x@);
                assert(pre.contains(x@));
            }
            v.remove(i);
            proof {
                assert forall|j: int| 0 <= j < v@.len() implies #[trigger] v.deep_view()[j]
                    == v@[j]@ by {}
                assert(v.deep_view() =~= pre.remove(i as int));
                assert forall|j: int| 0 <= j < v.deep_view().len() implies
                    #[trigger] v.deep_view()[j] == (if j < i {
                    pre[j]
                } else {
                    pre[j + 1]
                }) by {}
                assert forall|a: int, b: int| 0 <= a < b < v.deep_view().len() implies v.deep_view()[a] != v.deep_view()[b] by {}
                assert(!v.deep_view().contains(x@)) by {
                    if v.deep_view().contains(x@) {
                        let j = choose|j: int|
                            0 <= j < v.deep_view().len() && v.deep_view()[j] == x@;
                        if j < i {
                            assert(pre[j] != pre[i as int]);
                        } else {
                            assert(pre[i as int] != pre[j + 1]);
                        }
                    }
                }
                assert forall|y: Seq<char>| y != x@ implies (v.deep_view().contains(y)
                    <==> pre.contains(y)) by {
                    if v.deep_view().contains(y) {
                        let j = choose|j: int|
                            0 <= j < v.deep_view().len() && v.deep_view()[j] == y;
                        if j < i {
                            assert(pre[j] == y);
                        } else {
                            assert(pre[j + 1] == y);
                        }
                    }
                    if pre.contains(y) {
                        let j = choose|j: int| 0 <= j < pre.len() && pre[j] == y;
                        assert(j != i);
                        if j < i {
                            assert(v.deep_view()[j] == y);
                        } else {
                            assert(v.deep_view()[j - 1] == y);
                        }
                    }
                }
            }
            true
        },
    }
}

/// Registered items and hosts of the impersonated watcher.
pub struct Watcher {
    items: Vec<String>,
    hosts: Vec<String>,
}

impl View for Watcher {
    type V = WatcherView;

    closed spec fn view(&self) -> WatcherView {
        WatcherView { items: self.items.deep_view(), hosts: self.hosts.deep_view() }
    }
}

impl Watcher {
    /// A fresh watcher with nothing registered.
    pub fn new() -> (r: Self)
        ensures
            r@.items.len() == 0,
            r@.hosts.len() == 0,
            r@.wf(),
    {
        let r = Watcher { items: Vec::new(), hosts: Vec::new() };
        proof {
            assert(r@.items =~= Seq::<Seq<char>>::empty());
            assert(r@.hosts =~= Seq::<Seq<char>>::empty());
        }
        r
    }

    /// Adds an item service.  The caller then emits the item-registered
    /// signal carrying the service string, and invalidates the
    /// registered-items property, whether or not the item was new.
    pub fn register_status_notifier_item(&mut self, service: String)
        requires
            old(self)@.wf(),
        ensures
            final(self)@.wf(),
            final(self)@.hosts == old(self)@.hosts,
            forall|y: Seq<char>|
                final(self)@.items.contains(y) <==> old(self)@.items.contains(y) || y
                    == service@,
    {
        insert_string(&mut self.items, service);
    }

    /// Adds a host service.  The caller then emits the host-registered
    /// signal.
    pub fn register_status_notifier_host(&mut self, service: String)
        requires
            old(self)@.wf(),
        ensures
            final(self)@.wf(),
            final(self)@.items == old(self)@.items,
            forall|y: Seq<char>|
                final(self)@.hosts.contains(y) <==> old(self)@.hosts.contains(y) || y
                    == service@,
    {
        insert_string(&mut self.hosts, service);
    }

    /// Snapshot of the registered item services.
    pub fn registered_status_notifier_items(&self) -> (r: Vec<String>)
        ensures
            r.deep_view() == self@.items,
    {
        let mut r: Vec<String> = Vec::new();
        let n = self.items.len();
        let mut i: usize = 0;
        while i < n
            invariant
                n == self.items@.len(),
                0 <= i <= n,
                self@.items.len() == n,
                r.deep_view().len() == i,
                forall|j: int| 0 <= j < i ==> #[trigger] r.deep_view()[j] == self@.items[j],
            decreases n - i,
        {
            assert(self@.items[i as int] == self.items@[i as int]@);
            let ghost pre = r.deep_view();
            r.push(self.items[i].clone());
            proof {
                assert forall|j: int| 0 <= j < r@.len() implies #[trigger] r.deep_view()[j]
                    == r@[j]@ by {}
                assert(r.deep_view() =~= pre.push(self.items@[i as int]@));
            }
            i = i + 1;
        }
        proof {
            assert(r.deep_view() =~= self@.items);
        }
        r
    }

    /// True when any host is registered.
    pub fn is_status_notifier_host_registered(&self) -> (r: bool)
        ensures
            r == (self@.hosts.len() > 0),
    {
        self.hosts.len() > 0
    }

    /// The watcher protocol version.
    pub fn protocol_version(&self) -> (r: i32)
        ensures
            r == 1,
    {
        1
    }

    /// Reacts to a name-owner change on the bus: the host under that
    /// name is dropped whatever the transition; the item under that name
    /// is dropped only when the new owner is empty, and the result says
    /// whether the item-unregistered signal (and the properties
    /// invalidation) must be emitted for it.
    pub fn handle_name_owner_changed(&mut self, name: &String, new_owner: &String) -> (emit: bool)
        requires
            old(self)@.wf(),
        ensures
            final(self)@.wf(),
            !final(self)@.hosts.contains(name@),
            forall|y: Seq<char>|
                y != name@ ==> (final(self)@.hosts.contains(y) <==> old(self)@.hosts.contains(
                    y,
                )),
            emit == (new_owner@.len() == 0 && old(self)@.items.contains(name@)),
            emit ==> !final(self)@.items.contains(name@) && (forall|y: Seq<char>|
                y != name@ ==> (final(self)@.items.contains(y) <==> old(self)@.items.contains(
                    y,
                ))),
            !emit ==> final(self)@.items == old(self)@.items,
    {
        remove_string(&mut self.hosts, name);
        if new_owner.as_str().is_empty() {
            remove_string(&mut self.items, name)
        } else {
            false
        }
    }
}

} // verus!

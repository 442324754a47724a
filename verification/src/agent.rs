//! Guest-side icon observation engine.
//!
//! For each discovered StatusNotifierItem service the agent mints a
//! fresh local id, records the service in its forward (bus name to
//! observation record) and reverse (id to service) maps, and emits a
//! `Create` followed by the initial state.  Change signals drive
//! per-property refreshes under the coalescing mask; a vanished name
//! owner destroys the icon; host-side interactions are dispatched back
//! through the reverse map.

use vstd::prelude::*;

use crate::observe::{mask_has, mask_set, mask_clear};
use crate::wire::{ClientEvent, IconClientEvent, IconData, IconDataView, IconType,
    consistent_list};

verus! {

/// The reserved app-id prefix: an id below it names an icon that this
/// proxy itself republished, and must not be forwarded again.
pub open spec fn reserved_prefix() -> Seq<char> {
    "org.qubes_os.vm."@
}

/// True when `p` is a prefix of `s`.
pub open spec fn spec_starts_with(s: Seq<char>, p: Seq<char>) -> bool {
    s.len() >= p.len() && s.subrange(0, p.len() as int) == p
}

/// Character-wise prefix test.
pub fn starts_with(s: &str, p: &str) -> (r: bool)
    ensures
        r == spec_starts_with(s@, p@),
{
    let n = s.unicode_len();
    let m = p.unicode_len();
    if n < m {
        return false;
    }
    let mut i: usize = 0;
    while i < m
        invariant
            0 <= i <= m,
            m == p@.len(),
            m <= n == s@.len(),
            forall|j: int| 0 <= j < i ==> s@[j] == p@[j],
        decreases m - i,
    {
        if s.get_char(i) != p.get_char(i) {
            proof {
                assert(s@.subrange(0, m as int)[i as int] != p@[i as int]);
            }
            return false;
        }
        i = i + 1;
    }
    proof {
        assert(s@.subrange(0, m as int) =~= p@);
    }
    true
}

/// Splits an advertised service into its bus-name part and its object
/// path: at the first slash when there is one, with the canonical item
/// path as the default otherwise.
pub fn split_service(s: &str) -> (r: (String, String))
    ensures
        (forall|i: int| 0 <= i < s@.len() ==> s@[i] != '/') ==> r.0@ == s@ && r.1@
            == "/StatusNotifierItem"@,
        (exists|i: int| 0 <= i < s@.len() && s@[i] == '/') ==> (exists|i: int|
            {
                &&& 0 <= i < s@.len()
                &&& s@[i] == '/'
                &&& (forall|j: int| 0 <= j < i ==> s@[j] != '/')
                &&& r.0@ == s@.subrange(0, i)
                &&& r.1@ == s@.subrange(i, s@.len() as int)
            }),
{
    let n = s.unicode_len();
    let mut i: usize = 0;
    while i < n
        invariant
            0 <= i <= n,
            n == s@.len(),
            forall|j: int| 0 <= j < i ==> s@[j] != '/',
        decreases n - i,
    {
        if s.get_char(i) == '/' {
            let bus = String::from_str(s.substring_char(0, i));
            let path = String::from_str(s.substring_char(i, n));
            return (bus, path);
        }
        i = i + 1;
    }
    (String::from_str(s), String::from_str("/StatusNotifierItem"))
}

/// Observation record of one discovered icon: the bus-name portion it
/// was registered under, the full advertised service, its local id, and
/// its coalescing mask.
pub struct AgentIcon {
    pub bus_name: String,
    pub id: u64,
    pub mask: u8,
}

/// Mathematical view of an [`AgentIcon`].
pub struct AgentIconView {
    pub bus_name: Seq<char>,
    pub id: u64,
    pub mask: u8,
}

impl View for AgentIcon {
    type V = AgentIconView;

    open spec fn view(&self) -> AgentIconView {
        AgentIconView { bus_name: self.bus_name@, id: self.id, mask: self.mask }
    }
}

impl DeepView for AgentIcon {
    type V = AgentIconView;

    open spec fn deep_view(&self) -> AgentIconView {
        self.view()
    }
}

/// Mathematical view of an [`AgentState`].
pub struct AgentStateView {
    pub last_id: u64,
    pub forward: Seq<AgentIconView>,
    pub reverse: Seq<(u64, Seq<char>)>,
}

impl AgentStateView {
    /// Bus names in the forward map are unique; reverse ids are unique,
    /// positive and bounded by the counter; every forward id has a
    /// reverse entry.
    pub open spec fn wf(self) -> bool {
        &&& forall|a: int, b: int|
            0 <= a < b < self.forward.len() ==> (#[trigger] self.forward[a]).bus_name != (
            #[trigger] self.forward[b]).bus_name
        &&& forall|a: int, b: int|
            0 <= a < b < self.forward.len() ==> (#[trigger] self.forward[a]).id != (
            #[trigger] self.forward[b]).id
        &&& forall|a: int, b: int|
            0 <= a < b < self.reverse.len() ==> (#[trigger] self.reverse[a]).0 != (
            #[trigger] self.reverse[b]).0
        &&& forall|a: int|
            0 <= a < self.reverse.len() ==> 1 <= (#[trigger] self.reverse[a]).0 <= self.last_id
        &&& forall|a: int|
            0 <= a < self.forward.len() ==> self.reverse_has((#[trigger] self.forward[a]).id)
    }

    pub open spec fn forward_has(self, name: Seq<char>) -> bool {
        exists|i: int| 0 <= i < self.forward.len() && (#[trigger] self.forward[i]).bus_name == name
    }

    pub open spec fn forward_index(self, name: Seq<char>) -> int {
        choose|i: int| 0 <= i < self.forward.len() && (#[trigger] self.forward[i]).bus_name == name
    }

    pub open spec fn reverse_has(self, id: u64) -> bool {
        exists|i: int| 0 <= i < self.reverse.len() && (#[trigger] self.reverse[i]).0 == id
    }

    pub open spec fn reverse_index(self, id: u64) -> int {
        choose|i: int| 0 <= i < self.reverse.len() && (#[trigger] self.reverse[i]).0 == id
    }
}

/// The agent's observation state: the id counter, the forward map from
/// bus names to observation records, and the reverse map from local ids
/// to advertised services.
pub struct AgentState {
    last_id: u64,
    forward: Vec<AgentIcon>,
    reverse: Vec<(u64, String)>,
}

impl View for AgentState {
    type V = AgentStateView;

    closed spec fn view(&self) -> AgentStateView {
        AgentStateView {
            last_id: self.last_id,
            forward: self.forward.deep_view(),
            reverse: Seq::new(self.reverse@.len(), |i: int| (self.reverse@[i].0, self.reverse@[i].1@)),
        }
    }
}

impl AgentState {
    /// Fresh state: counter zero, no icons observed.
    pub fn new() -> (r: Self)
        ensures
            r@.last_id == 0,
            r@.forward.len() == 0,
            r@.reverse.len() == 0,
            r@.wf(),
    {
        let r = AgentState { last_id: 0, forward: Vec::new(), reverse: Vec::new() };
        proof {
            assert(r@.forward =~= Seq::<AgentIconView>::empty());
            assert(r@.reverse =~= Seq::<(u64, Seq<char>)>::empty());
        }
        r
    }

    fn find_forward(&self, name: &String) -> (r: Option<usize>)
        ensures
            r matches Some(i) ==> i < self@.forward.len() && self@.forward[i as int].bus_name
                == name@,
            r is None ==> !self@.forward_has(name@),
    {
        let n = self.forward.len();
        let mut i: usize = 0;
        while i < n
            invariant
                n == self.forward@.len(),
                0 <= i <= n,
                self@.forward.len() == n,
                forall|j: int| 0 <= j < i ==> (#[trigger] self@.forward[j]).bus_name != name@,
            decreases n - i,
        {
            assert(self@.forward[i as int] == self.forward@[i as int]@);
            if self.forward[i].bus_name.eq(name) {
                return Some(i);
            }
            i = i + 1;
        }
        proof {
            if self@.forward_has(name@) {
                let j = choose|j: int|
                    0 <= j < self@.forward.len() && (#[trigger] self@.forward[j]).bus_name
                        == name@;
                assert(self@.forward[j].bus_name != name@);
            }
        }
        None
    }

    fn find_reverse(&self, id: u64) -> (r: Option<usize>)
        ensures
            r matches Some(i) ==> i < self@.reverse.len() && self@.reverse[i as int].0 == id,
            r is None ==> !self@.reverse_has(id),
    {
        let n = self.reverse.len();
        let mut i: usize = 0;
        while i < n
            invariant
                n == self.reverse@.len(),
                0 <= i <= n,
                self@.reverse.len() == n,
                forall|j: int| 0 <= j < i ==> (#[trigger] self@.reverse[j]).0 != id,
            decreases n - i,
        {
            assert(self@.reverse[i as int].0 == self.reverse@[i as int].0);
            if self.reverse[i].0 == id {
                return Some(i);
            }
            i = i + 1;
        }
        proof {
            if self@.reverse_has(id) {
                let j = choose|j: int|
                    0 <= j < self@.reverse.len() && (#[trigger] self@.reverse[j]).0 == id;
                assert(self@.reverse[j].0 != id);
            }
        }
        None
    }

    /// The advertised service recorded for a local id, if any: the
    /// reverse-dispatch lookup.  An unknown id is silently dropped by
    /// the caller.
    pub fn lookup_service(&self, id: u64) -> (r: Option<String>)
        ensures
            r is Some <==> self@.reverse_has(id),
            r matches Some(s) ==> exists|i: int|
                0 <= i < self@.reverse.len() && (#[trigger] self@.reverse[i]) == (id, s@),
    {
        match self.find_reverse(id) {
            Option::None => None,
            Option::Some(i) => {
                let s = self.reverse[i].1.clone();
                proof {
                    assert(self@.reverse[i as int] == (id, s@));
                }
                Some(s)
            },
        }
    }
}

// ---------------------------------------------------------------------------
// Pixmap conversion.
// ---------------------------------------------------------------------------

/// A `(width, height, bytes)` row from the bus is convertible when the
/// dimensions are non-negative and within the sane limit and the byte
/// count matches.
pub open spec fn convertible_row(r: (i32, i32, Seq<u8>)) -> bool {
    &&& 0 <= r.0 <= 4096
    &&& 0 <= r.1 <= 4096
    &&& r.2.len() == 4 * (r.0 as int) * (r.1 as int)
}

/// The pixmaps obtained from bus rows: convertible rows in order, with
/// the rest rejected.
pub open spec fn spec_convert(rows: Seq<(i32, i32, Seq<u8>)>) -> Seq<IconDataView>
    decreases rows.len(),
{
    if rows.len() == 0 {
        Seq::empty()
    } else {
        let rest = spec_convert(rows.drop_first());
        if convertible_row(rows[0]) {
            seq![
                IconDataView {
                    width: rows[0].0 as u32,
                    height: rows[0].1 as u32,
                    data: rows[0].2,
                },
            ] + rest
        } else {
            rest
        }
    }
}

proof fn lemma_spec_convert_push(rows: Seq<(i32, i32, Seq<u8>)>, x: (i32, i32, Seq<u8>))
    ensures
        spec_convert(rows.push(x)) == spec_convert(rows) + (if convertible_row(x) {
            seq![IconDataView { width: x.0 as u32, height: x.1 as u32, data: x.2 }]
        } else {
            Seq::<IconDataView>::empty()
        }),
    decreases rows.len(),
{
    let tail = (if convertible_row(x) {
        seq![IconDataView { width: x.0 as u32, height: x.1 as u32, data: x.2 }]
    } else {
        Seq::<IconDataView>::empty()
    });
    if rows.len() == 0 {
        assert(rows.push(x)[0] == x);
        assert(rows.push(x).drop_first() =~= Seq::<(i32, i32, Seq<u8>)>::empty());
        assert(spec_convert(Seq::<(i32, i32, Seq<u8>)>::empty()) == Seq::<IconDataView>::empty());
        assert(rows =~= Seq::<(i32, i32, Seq<u8>)>::empty());
        assert(spec_convert(rows.push(x)) =~= spec_convert(rows) + tail);
    } else {
        assert(rows.push(x).drop_first() =~= rows.drop_first().push(x));
        lemma_spec_convert_push(rows.drop_first(), x);
        assert(spec_convert(rows.push(x)) =~= spec_convert(rows) + tail);
    }
}

/// Every converted pixmap is consistent.
pub proof fn lemma_spec_convert_consistent(rows: Seq<(i32, i32, Seq<u8>)>)
    ensures
        consistent_list(spec_convert(rows)),
    decreases rows.len(),
{
    if rows.len() > 0 {
        lemma_spec_convert_consistent(rows.drop_first());
        let rest = spec_convert(rows.drop_first());
        if convertible_row(rows[0]) {
            let d = IconDataView {
                width: rows[0].0 as u32,
                height: rows[0].1 as u32,
                data: rows[0].2,
            };
            assert(d.consistent()) by {
                assert(d.data.len() == 4 * (d.width as nat) * (d.height as nat))
                    by (nonlinear_arith)
                    requires
                        d.data.len() == 4 * (rows[0].0 as int) * (rows[0].1 as int),
                        d.width == rows[0].0 as u32,
                        d.height == rows[0].1 as u32,
                        0 <= rows[0].0 <= 4096,
                        0 <= rows[0].1 <= 4096,
                ;
            }
            assert forall|i: int| 0 <= i < spec_convert(rows).len() implies (
            #[trigger] spec_convert(rows)[i]).consistent() by {
                if i >= 1 {
                    assert(spec_convert(rows)[i] == rest[i - 1]);
                }
            }
        }
    }
}

/// Converts the bus representation of a pixmap list, rejecting rows
/// with negative or oversized dimensions or a mismatched byte count.
pub fn convert_pixmaps(rows: Vec<(i32, i32, Vec<u8>)>) -> (r: Vec<IconData>)
    ensures
        r.deep_view() == spec_convert(rows.deep_view()),
        consistent_list(r.deep_view()),
{
    let mut out: Vec<IconData> = Vec::new();
    let n = rows.len();
    let mut i: usize = 0;
    assert(out.deep_view() =~= Seq::<IconDataView>::empty());
    assert(rows.deep_view().take(0) =~= Seq::<(i32, i32, Seq<u8>)>::empty());
    while i < n
        invariant
            n == rows@.len(),
            0 <= i <= n,
            out.deep_view() == spec_convert(rows.deep_view().take(i as int)),
        decreases n - i,
    {
        assert(rows.deep_view()[i as int] == rows@[i as int].deep_view());
        let row = &rows[i];
        let ghost rv = rows.deep_view()[i as int];
        let w = row.0;
        let h = row.1;
        let ok = if 0 <= w && w <= 4096 && 0 <= h && h <= 4096 {
            proof {
                assert((4 * (w as int)) * (h as int) <= 0x4000_0000 && (4 * (w as int)) * (
                h as int) == 4 * (w as int) * (h as int)) by (nonlinear_arith)
                    requires
                        0 <= w <= 4096,
                        0 <= h <= 4096,
                ;
            }
            (row.2.len() as u64) == 4u64 * (w as u64) * (h as u64)
        } else {
            false
        };
        proof {
            assert(ok == convertible_row(rv));
        }
        proof {
            assert forall|j: int| 0 <= j < out@.len() implies #[trigger] out.deep_view()[j]
                == out@[j].deep_view() by {}
        }
        let ghost pre = out.deep_view();
        let ghost prevec = out@;
        if ok {
            let data = vstd::slice::slice_to_vec(row.2.as_slice());
            out.push(IconData { width: w as u32, height: h as u32, data });
            proof {
                assert(out@ == prevec.push(out@[out@.len() - 1]));
                assert forall|j: int| 0 <= j < out@.len() implies #[trigger] out.deep_view()[j]
                    == out@[j].deep_view() by {}
                assert forall|j: int| 0 <= j < prevec.len() implies out@[j].deep_view() == pre[j] by {
                    assert(out@[j] == prevec[j]);
                }
                assert(out.deep_view().len() == pre.len() + 1);
                assert(out@[out@.len() - 1]@.width == rv.0 as u32);
                assert(out@[out@.len() - 1]@.height == rv.1 as u32);
                assert(out@[out@.len() - 1]@.data == rv.2);
                assert(out.deep_view()[out@.len() - 1] == (IconDataView {
                    width: rv.0 as u32,
                    height: rv.1 as u32,
                    data: rv.2,
                }));
                assert(out.deep_view() =~= pre.push(
                    IconDataView { width: rv.0 as u32, height: rv.1 as u32, data: rv.2 },
                ));
            }
        }
        proof {
            lemma_spec_convert_push(rows.deep_view().take(i as int), rv);
            assert(rows.deep_view().take(i + 1) =~= rows.deep_view().take(i as int).push(rv));
            assert(out.deep_view() =~= spec_convert(rows.deep_view().take(i + 1)));
        }
        i = i + 1;
    }
    assert(rows.deep_view().take(n as int) =~= rows.deep_view());
    proof {
        lemma_spec_convert_consistent(rows.deep_view());
    }
    out
}

/// What the refresh task got back from the icon's proxy for one
/// property.
pub enum RefreshOutcome {
    /// The pixmap property was read.
    Pixmaps(Vec<(i32, i32, Vec<u8>)>),
    /// The pixmap was unreadable but the icon-name property was.
    IconNameOnly,
    /// Neither the pixmap nor the icon name could be read.
    Unavailable,
    /// The title property, as far as it could be read.
    TitleText(Option<String>),
    /// The status property, as far as it could be read.
    StatusText(Option<String>),
}

/// True when the outcome is of the kind the property can produce.
pub open spec fn outcome_matches_flag(flag: IconType, outcome: RefreshOutcome) -> bool {
    match flag {
        IconType::Normal | IconType::Overlay | IconType::Attention => outcome is Pixmaps
            || outcome is IconNameOnly || outcome is Unavailable,
        IconType::Title => outcome is TitleText,
        IconType::Status => outcome is StatusText,
    }
}

proof fn lemma_fwd_index(s: AgentStateView, name: Seq<char>, idx: int)
    requires
        forall|a: int, b: int|
            0 <= a < b < s.forward.len() ==> (#[trigger] s.forward[a]).bus_name != (
            #[trigger] s.forward[b]).bus_name,
        0 <= idx < s.forward.len(),
        s.forward[idx].bus_name == name,
    ensures
        s.forward_has(name),
        s.forward_index(name) == idx,
{
    assert(s.forward_has(name));
    let ii = s.forward_index(name);
    assert(0 <= ii < s.forward.len() && s.forward[ii].bus_name == name);
    if ii < idx {
        assert(s.forward[ii].bus_name != s.forward[idx].bus_name);
    } else if ii > idx {
        assert(s.forward[idx].bus_name != s.forward[ii].bus_name);
    }
}

impl AgentState {

    /// Mints the next local id and records a discovered icon: the
    /// forward entry for its bus name (replacing a stale one), the
    /// reverse entry for its full service string, and the initial
    /// events: `Create`, then `Status`.  An app id under the reserved
    /// prefix is refused: it names an icon this proxy republished.
    pub fn register_icon(
        &mut self,
        bus_name: String,
        service: String,
        app_id: String,
        category: String,
        is_menu: bool,
        status: Option<String>,
    ) -> (r: Option<(u64, Vec<IconClientEvent>)>)
        requires
            old(self)@.wf(),
            old(self)@.last_id < u64::MAX,
        ensures
            final(self)@.wf(),
            spec_starts_with(app_id@, reserved_prefix()) ==> r is None && final(self)@ == old(
                self,
            )@,
            !spec_starts_with(app_id@, reserved_prefix()) ==> (r matches Some(t) && {
                let id = t.0;
                let evs = t.1;
                &&& id == old(self)@.last_id + 1
                &&& final(self)@.last_id == id
                &&& final(self)@.reverse == old(self)@.reverse.push((id, service@))
                &&& (old(self)@.forward_has(bus_name@) ==> final(self)@.forward == old(
                    self,
                )@.forward.update(
                    old(self)@.forward_index(bus_name@),
                    (AgentIconView { bus_name: bus_name@, id, mask: 0 }),
                ))
                &&& (!old(self)@.forward_has(bus_name@) ==> final(self)@.forward == old(
                    self,
                )@.forward.push((AgentIconView { bus_name: bus_name@, id, mask: 0 })))
                &&& evs@.len() == 2
                &&& evs@[0]@.id == id
                &&& evs@[0]@.event == (crate::wire::ClientEventView::Create {
                    category: category@,
                    app_id: app_id@,
                    is_menu,
                })
                &&& evs@[1]@.id == id
                &&& evs@[1]@.event == crate::wire::ClientEventView::Status(status.deep_view())
            }),
    {
        if starts_with(app_id.as_str(), "org.qubes_os.vm.") {
            return None;
        }
        let id = self.last_id + 1;
        self.last_id = id;
        let ghost fpre = self.forward@;
        let ghost rpre = self@.reverse;
        let entry = AgentIcon { bus_name: bus_name.clone(), id, mask: 0 };
        proof {
            assert forall|j: int| 0 <= j < fpre.len() implies #[trigger] fpre[j].deep_view()
                == old(self)@.forward[j] by {}
        }
        match self.find_forward(&bus_name) {
            Option::Some(i) => {
                proof {
                    assert(self@.forward =~= old(self)@.forward);
                    lemma_fwd_index(old(self)@, bus_name@, i as int);
                }
                self.forward.set(i, entry);
                proof {
                    assert forall|j: int| 0 <= j < self.forward@.len() implies
                        #[trigger] self@.forward[j] == self.forward@[j]@ by {}
                    assert(self@.forward =~= old(self)@.forward.update(
                        i as int,
                        (AgentIconView { bus_name: bus_name@, id, mask: 0 }),
                    ));
                }
            },
            Option::None => {
                self.forward.push(entry);
                proof {
                    assert forall|j: int| 0 <= j < self.forward@.len() implies
                        #[trigger] self@.forward[j] == self.forward@[j]@ by {}
                    assert(self@.forward =~= old(self)@.forward.push(
                        (AgentIconView { bus_name: bus_name@, id, mask: 0 }),
                    ));
                }
            },
        }
        self.reverse.push((id, service.clone()));
        proof {
            assert(self@.reverse =~= rpre.push((id, service@)));
            assert forall|a: int, b: int| 0 <= a < b < self@.reverse.len() implies (
            #[trigger] self@.reverse[a]).0 != (#[trigger] self@.reverse[b]).0 by {
                if b == old(self)@.reverse.len() {
                    assert(self@.reverse[a] == old(self)@.reverse[a]);
                    assert(old(self)@.reverse[a].0 <= old(self)@.last_id);
                }
            }
            assert forall|a: int| 0 <= a < old(self)@.forward.len() implies (#[trigger] old(self)@.forward[a]).id
                <= old(self)@.last_id by {
                let b = choose|b: int|
                    0 <= b < old(self)@.reverse.len() && (#[trigger] old(self)@.reverse[b]).0 == old(self)@.forward[a].id;
            }
            assert forall|a: int, b: int| 0 <= a < b < self@.forward.len() implies (
            #[trigger] self@.forward[a]).id != (#[trigger] self@.forward[b]).id by {
                if old(self)@.forward_has(bus_name@) {
                    let i = old(self)@.forward_index(bus_name@);
                    if a != i && b != i {
                        assert(self@.forward[a] == old(self)@.forward[a] && self@.forward[b] == old(self)@.forward[b]);
                    } else if a == i {
                        assert(self@.forward[b] == old(self)@.forward[b]);
                    } else {
                        assert(self@.forward[a] == old(self)@.forward[a]);
                    }
                } else {
                    if b == old(self)@.forward.len() {
                        assert(self@.forward[a] == old(self)@.forward[a]);
                    } else {
                        assert(self@.forward[a] == old(self)@.forward[a] && self@.forward[b] == old(self)@.forward[b]);
                    }
                }
            }
            assert forall|a: int, b: int| 0 <= a < b < self@.forward.len() implies (
            #[trigger] self@.forward[a]).bus_name != (#[trigger] self@.forward[b]).bus_name by {
                if old(self)@.forward_has(bus_name@) {
                    let i = old(self)@.forward_index(bus_name@);
                    if a != i && b != i {
                        assert(self@.forward[a] == old(self)@.forward[a] && self@.forward[b] == old(self)@.forward[b]);
                    } else if a == i {
                        assert(self@.forward[b] == old(self)@.forward[b]);
                        assert(old(self)@.forward[b].bus_name != bus_name@) by {
                            if b != i {
                                assert(old(self)@.forward[i].bus_name == bus_name@);
                            }
                        }
                    } else {
                        assert(self@.forward[a] == old(self)@.forward[a]);
                        assert(old(self)@.forward[a].bus_name != bus_name@);
                    }
                } else {
                    if b == old(self)@.forward.len() {
                        assert(self@.forward[a] == old(self)@.forward[a]);
                        assert(!old(self)@.forward_has(bus_name@));
                        if old(self)@.forward[a].bus_name == bus_name@ {
                            assert(old(self)@.forward_has(bus_name@));
                        }
                    } else {
                        assert(self@.forward[a] == old(self)@.forward[a] && self@.forward[b] == old(self)@.forward[b]);
                    }
                }
            }
            assert forall|a: int| 0 <= a < self@.forward.len() implies self@.reverse_has(
                (#[trigger] self@.forward[a]).id,
            ) by {
                if self@.forward[a].id == id {
                    assert(self@.reverse[old(self)@.reverse.len() as int].0 == id);
                } else {
                    assert(old(self)@.forward_has(bus_name@) ==> self@.forward == old(self)@.forward.update(
                        old(self)@.forward_index(bus_name@),
                        (AgentIconView { bus_name: bus_name@, id, mask: 0 }),
                    ));
                    assert(self@.forward[a] == old(self)@.forward[a]);
                    let b = choose|b: int|
                        0 <= b < old(self)@.reverse.len() && (#[trigger] old(self)@.reverse[b]).0 == old(self)@.forward[a].id;
                    assert(self@.reverse[b].0 == self@.forward[a].id);
                }
            }
        }
        proof {
            assert forall|a: int| 0 <= a < self@.reverse.len() implies 1 <= (
            #[trigger] self@.reverse[a]).0 <= self@.last_id by {
                if a < old(self)@.reverse.len() {
                    assert(self@.reverse[a] == old(self)@.reverse[a]);
                }
            }
            assert(self@.wf());
        }
        let create = IconClientEvent {
            id,
            event: ClientEvent::Create { category, app_id, is_menu },
        };
        let status_ev = IconClientEvent { id, event: ClientEvent::Status(status) };
        let mut evs: Vec<IconClientEvent> = Vec::new();
        evs.push(create);
        evs.push(status_ev);
        Some((id, evs))
    }

    /// Handles one change signal for property `flag` of the icon whose
    /// forward key is `name`: sets the property's coalescing bit and
    /// reports whether the caller must spawn a refresh, which is the
    /// case exactly when the icon is known and no refresh was pending.
    pub fn signal_arrived(&mut self, name: &String, flag: IconType) -> (spawn: bool)
        requires
            old(self)@.wf(),
        ensures
            final(self)@.wf(),
            !old(self)@.forward_has(name@) ==> !spawn && final(self)@ == old(self)@,
            old(self)@.forward_has(name@) ==> ({
                let i = old(self)@.forward_index(name@);
                &&& spawn == !mask_has(old(self)@.forward[i].mask, flag)
                &&& (spawn ==> final(self)@ == (AgentStateView {
                    forward: old(self)@.forward.update(
                        i,
                        (AgentIconView {
                            mask: mask_set(old(self)@.forward[i].mask, flag),
                            ..old(self)@.forward[i]
                        }),
                    ),
                    ..old(self)@
                }))
                &&& (!spawn ==> final(self)@ == old(self)@)
            }),
    {
        let ghost fpre = self.forward@;
        proof {
            assert forall|j: int| 0 <= j < fpre.len() implies #[trigger] fpre[j].deep_view()
                == old(self)@.forward[j] by {}
        }
        match self.find_forward(name) {
            Option::None => false,
            Option::Some(i) => {
                proof {
                    assert(self@.forward =~= old(self)@.forward);
                    lemma_fwd_index(old(self)@, name@, i as int);
                }
                let (new_mask, spawn) = crate::observe::signal_step(self.forward[i].mask, flag);
                if spawn {
                    let entry = AgentIcon {
                        bus_name: self.forward[i].bus_name.clone(),
                        id: self.forward[i].id,
                        mask: new_mask,
                    };
                    self.forward.set(i, entry);
                    proof {
                        assert forall|j: int| 0 <= j < self.forward@.len() implies
                            #[trigger] self@.forward[j] == self.forward@[j]@ by {}
                        assert(self@.forward =~= old(self)@.forward.update(
                            i as int,
                            (AgentIconView {
                                mask: mask_set(old(self)@.forward[i as int].mask, flag),
                                ..old(self)@.forward[i as int]
                            }),
                        ));
                        let s2 = self@;
                        let s1 = old(self)@;
                        assert forall|a: int| 0 <= a < s2.forward.len() implies (exists|b: int|
                            0 <= b < s2.reverse.len() && (#[trigger] s2.reverse[b]).0 == (
                            #[trigger] s2.forward[a]).id) by {
                            assert(s2.forward[a].id == s1.forward[a].id);
                            let b = choose|b: int|
                                0 <= b < s1.reverse.len() && (#[trigger] s1.reverse[b]).0
                                    == s1.forward[a].id;
                            assert(s2.reverse[b].0 == s2.forward[a].id);
                        }
                        assert forall|a: int, b: int| 0 <= a < b < s2.forward.len() implies (
                        #[trigger] s2.forward[a]).id != (#[trigger] s2.forward[b]).id by {
                            assert(s2.forward[a].id == s1.forward[a].id);
                            assert(s2.forward[b].id == s1.forward[b].id);
                        }
                    }
                }
                spawn
            },
        }
    }

    /// Handles the completion of a refresh for property `flag` of the
    /// icon keyed by `name`: clears the coalescing bit and yields the
    /// event to forward, if any.  A vanished icon yields nothing; a
    /// readable pixmap yields the converted pixmaps; an icon name
    /// without a pixmap yields nothing; neither yields a removal; title
    /// and status yield their text as read.
    pub fn refresh_finished(&mut self, name: &String, flag: IconType, outcome: RefreshOutcome) -> (
    r: Option<IconClientEvent>)
        requires
            old(self)@.wf(),
            outcome_matches_flag(flag, outcome),
        ensures
            final(self)@.wf(),
            !old(self)@.forward_has(name@) ==> r is None && final(self)@ == old(self)@,
            old(self)@.forward_has(name@) ==> ({
                let i = old(self)@.forward_index(name@);
                let id = old(self)@.forward[i].id;
                &&& final(self)@ == (AgentStateView {
                    forward: old(self)@.forward.update(
                        i,
                        (AgentIconView {
                            mask: mask_clear(old(self)@.forward[i].mask, flag),
                            ..old(self)@.forward[i]
                        }),
                    ),
                    ..old(self)@
                })
                &&& (match outcome {
                    RefreshOutcome::Pixmaps(rows) => r matches Some(e) && e@.id == id && e@.event
                        == (crate::wire::ClientEventView::Icon {
                        typ: flag,
                        data: spec_convert(rows.deep_view()),
                    }),
                    RefreshOutcome::IconNameOnly => r is None,
                    RefreshOutcome::Unavailable => r matches Some(e) && e@.id == id && e@.event
                        == crate::wire::ClientEventView::RemoveIcon(flag),
                    RefreshOutcome::TitleText(t) => r matches Some(e) && e@.id == id && e@.event
                        == crate::wire::ClientEventView::Title(t.deep_view()),
                    RefreshOutcome::StatusText(t) => r matches Some(e) && e@.id == id && e@.event
                        == crate::wire::ClientEventView::Status(t.deep_view()),
                })
            }),
    {
        let ghost fpre = self.forward@;
        proof {
            assert forall|j: int| 0 <= j < fpre.len() implies #[trigger] fpre[j].deep_view()
                == old(self)@.forward[j] by {}
        }
        match self.find_forward(name) {
            Option::None => None,
            Option::Some(i) => {
                proof {
                    assert(self@.forward =~= old(self)@.forward);
                    lemma_fwd_index(old(self)@, name@, i as int);
                }
                let id = self.forward[i].id;
                let new_mask = crate::observe::complete_step(self.forward[i].mask, flag);
                let entry = AgentIcon {
                    bus_name: self.forward[i].bus_name.clone(),
                    id,
                    mask: new_mask,
                };
                self.forward.set(i, entry);
                proof {
                    assert forall|j: int| 0 <= j < self.forward@.len() implies
                        #[trigger] self@.forward[j] == self.forward@[j]@ by {}
                    assert(self@.forward =~= old(self)@.forward.update(
                        i as int,
                        (AgentIconView {
                            mask: mask_clear(old(self)@.forward[i as int].mask, flag),
                            ..old(self)@.forward[i as int]
                        }),
                    ));
                    let s2 = self@;
                    let s1 = old(self)@;
                    assert forall|a: int| 0 <= a < s2.forward.len() implies (exists|b: int|
                        0 <= b < s2.reverse.len() && (#[trigger] s2.reverse[b]).0 == (
                        #[trigger] s2.forward[a]).id) by {
                        assert(s2.forward[a].id == s1.forward[a].id);
                        let b = choose|b: int|
                            0 <= b < s1.reverse.len() && (#[trigger] s1.reverse[b]).0
                                == s1.forward[a].id;
                        assert(s2.reverse[b].0 == s2.forward[a].id);
                    }
                    assert forall|a: int, b: int| 0 <= a < b < s2.forward.len() implies (
                    #[trigger] s2.forward[a]).id != (#[trigger] s2.forward[b]).id by {
                        assert(s2.forward[a].id == s1.forward[a].id);
                        assert(s2.forward[b].id == s1.forward[b].id);
                    }
                }
                match outcome {
                    RefreshOutcome::Pixmaps(rows) => {
                        let data = convert_pixmaps(rows);
                        Some(IconClientEvent { id, event: ClientEvent::Icon { typ: flag, data } })
                    },
                    RefreshOutcome::IconNameOnly => None,
                    RefreshOutcome::Unavailable => Some(
                        IconClientEvent { id, event: ClientEvent::RemoveIcon(flag) },
                    ),
                    RefreshOutcome::TitleText(t) => Some(
                        IconClientEvent { id, event: ClientEvent::Title(t) },
                    ),
                    RefreshOutcome::StatusText(t) => Some(
                        IconClientEvent { id, event: ClientEvent::Status(t) },
                    ),
                }
            },
        }
    }

    /// Reacts to a name-owner change: only a transition from a real
    /// owner to no owner destroys the icon registered under that name,
    /// removing both map entries and yielding the `Destroy` event to
    /// forward.
    pub fn handle_name_lost(&mut self, name: &String, old_owner: &String, new_owner: &String) -> (
    r: Option<IconClientEvent>)
        requires
            old(self)@.wf(),
        ensures
            final(self)@.wf(),
            old_owner@.len() == 0 || new_owner@.len() > 0 ==> r is None && final(self)@ == old(
                self,
            )@,
            old_owner@.len() > 0 && new_owner@.len() == 0 && !old(self)@.forward_has(name@)
                ==> r is None && final(self)@ == old(self)@,
            old_owner@.len() > 0 && new_owner@.len() == 0 && old(self)@.forward_has(name@) ==> ({
                let i = old(self)@.forward_index(name@);
                let id = old(self)@.forward[i].id;
                &&& final(self)@.forward == old(self)@.forward.remove(i)
                &&& final(self)@.reverse == old(self)@.reverse.remove(
                    old(self)@.reverse_index(id),
                )
                &&& final(self)@.last_id == old(self)@.last_id
                &&& !final(self)@.forward_has(name@)
                &&& (r matches Some(e) && e@.id == id && e@.event
                    == crate::wire::ClientEventView::Destroy)
            }),
    {
        if old_owner.as_str().is_empty() || !new_owner.as_str().is_empty() {
            return None;
        }
        let ghost fpre = self.forward@;
        proof {
            assert forall|j: int| 0 <= j < fpre.len() implies #[trigger] fpre[j].deep_view()
                == old(self)@.forward[j] by {}
        }
        match self.find_forward(name) {
            Option::None => None,
            Option::Some(i) => {
                proof {
                    assert(self@.forward =~= old(self)@.forward);
                    lemma_fwd_index(old(self)@, name@, i as int);
                }
                let icon = self.forward.remove(i);
                let id = icon.id;
                proof {
                    assert forall|j: int| 0 <= j < self.forward@.len() implies
                        #[trigger] self@.forward[j] == self.forward@[j]@ by {}
                    assert(self@.forward =~= old(self)@.forward.remove(i as int));
                }
                let ri: usize = match self.find_reverse(id) {
                    Option::Some(ri) => ri,
                    Option::None => {
                        proof {
                            let b = choose|b: int|
                                0 <= b < old(self)@.reverse.len() && (#[trigger] old(
                                    self,
                                )@.reverse[b]).0 == id;
                            assert(self@.reverse[b].0 == id);
                            assert(false);
                        }
                        0
                    },
                };
                proof {
                    let rr = old(self)@.reverse_index(id);
                    assert(old(self)@.reverse_has(id));
                    assert(0 <= rr < old(self)@.reverse.len() && old(self)@.reverse[rr].0 == id);
                    if rr < ri as int {
                        assert(old(self)@.reverse[rr].0 != old(self)@.reverse[ri as int].0);
                    } else if rr > ri as int {
                        assert(old(self)@.reverse[ri as int].0 != old(self)@.reverse[rr].0);
                    }
                    assert(rr == ri as int);
                }
                let ghost rpre = self@.reverse;
                self.reverse.remove(ri);
                proof {
                    assert(self@.reverse =~= rpre.remove(ri as int));
                    assert forall|j: int| 0 <= j < self@.forward.len() implies
                        #[trigger] self@.forward[j] == (if j < i as int {
                        old(self)@.forward[j]
                    } else {
                        old(self)@.forward[j + 1]
                    }) by {}
                    assert forall|j: int| 0 <= j < self@.reverse.len() implies
                        #[trigger] self@.reverse[j] == (if j < ri as int {
                        old(self)@.reverse[j]
                    } else {
                        old(self)@.reverse[j + 1]
                    }) by {}
                    assert forall|a: int, b: int| 0 <= a < b < self@.forward.len() implies (
                    #[trigger] self@.forward[a]).bus_name != (#[trigger] self@.forward[b]).bus_name
                        by {}
                    assert forall|a: int, b: int| 0 <= a < b < self@.forward.len() implies (
                    #[trigger] self@.forward[a]).id != (#[trigger] self@.forward[b]).id by {}
                    assert forall|a: int| 0 <= a < self@.reverse.len() implies 1 <= (
                    #[trigger] self@.reverse[a]).0 <= self@.last_id by {}
                    assert forall|a: int, b: int| 0 <= a < b < self@.reverse.len() implies (
                    #[trigger] self@.reverse[a]).0 != (#[trigger] self@.reverse[b]).0 by {}
                    assert forall|a: int| 0 <= a < self@.forward.len() implies self@.reverse_has(
                        (#[trigger] self@.forward[a]).id,
                    ) by {
                        let fa = self@.forward[a];
                        let b1 = choose|b: int|
                            0 <= b < old(self)@.reverse.len() && (#[trigger] old(self)@.reverse[b]).0 == fa.id;
                        assert(fa.id != id) by {
                            let a1 = (if a < i as int {
                                a
                            } else {
                                a + 1
                            });
                            assert(old(self)@.forward[a1] == fa);
                            if a1 < i as int {
                                assert(old(self)@.forward[a1].id != old(self)@.forward[i as int].id);
                            } else {
                                assert(old(self)@.forward[i as int].id != old(self)@.forward[a1].id);
                            }
                        }
                        assert(b1 != ri as int);
                        if b1 < ri as int {
                            assert(self@.reverse[b1].0 == fa.id);
                        } else {
                            assert(self@.reverse[b1 - 1].0 == fa.id);
                        }
                    }
                    assert(!self@.forward_has(name@)) by {
                        if self@.forward_has(name@) {
                            let a = choose|a: int|
                                0 <= a < self@.forward.len() && (#[trigger] self@.forward[a]).bus_name
                                    == name@;
                            if a < i as int {
                                assert(old(self)@.forward[a].bus_name != old(self)@.forward[i as int].bus_name);
                            } else {
                                assert(old(self)@.forward[i as int].bus_name != old(self)@.forward[a + 1].bus_name);
                            }
                        }
                    }
                }
                proof {
                    assert(self@.wf());
                }
                Some(IconClientEvent { id, event: ClientEvent::Destroy })
            },
        }
    }
}

} // verus!

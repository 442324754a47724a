//! Host-side republishing engine.
//!
//! The daemon ingests [`IconClientEvent`]s from the stream.  A `Create`
//! allocates a synthetic item with its own bus identity; later events
//! mutate that item's cached state and name the signal to emit on its
//! connection; `Destroy` drops the item, releasing its bus identity.
//! Incoming pixmaps are stamped with a two-pixel yellow border before
//! they are stored.

use vstd::prelude::*;
use vstd::pervasive::VecAdditionalExecFns;

use crate::sanitize::{sanitize_app_id, spec_sanitized_name, app_id_prefix};
use crate::wire::{ClientEvent, ClientEventView, IconData, IconDataView, Tooltip, TooltipView,
    IconType, IconClientEvent, IconClientEventView, consistent_list, consistent_opt};

verus! {

/// Signal to emit on an icon's bus connection after a state change.
#[derive(Debug, Clone, PartialEq)]
pub enum SniSignal {
    NewTitle,
    NewStatus { status: String },
    NewIcon,
    NewAttentionIcon,
    NewOverlayIcon,
    NewToolTip,
}

// ---------------------------------------------------------------------------
// Border overlay.
// ---------------------------------------------------------------------------

/// True when pixel `p` (row-major) lies within two pixels of any edge of
/// a `w` by `h` image.
pub open spec fn is_border_pixel(p: int, w: int, h: int) -> bool
    recommends
        w > 0,
{
    ||| p % w < 2
    ||| p % w + 2 >= w
    ||| p / w < 2
    ||| p / w + 2 >= h
}

/// The ARGB bytes written into a border pixel, by byte offset within the
/// pixel: 255, 255, 0, 0.
pub open spec fn border_fill(k: int) -> u8 {
    if k % 4 == 0 || k % 4 == 1 {
        255
    } else {
        0
    }
}

/// The pixel bytes after the two-pixel yellow border is painted.
pub open spec fn bordered_bytes(w: u32, h: u32, data: Seq<u8>) -> Seq<u8> {
    Seq::new(
        data.len(),
        |i: int|
            if is_border_pixel(i / 4, w as int, h as int) {
                border_fill(i)
            } else {
                data[i]
            },
    )
}

/// Paints a two-pixel border along all four edges.  Deterministic and
/// independent of the pixel contents; dimensions are unchanged.
pub fn apply_border(d: &mut IconData)
    requires
        old(d)@.consistent(),
    ensures
        final(d).width == old(d).width,
        final(d).height == old(d).height,
        final(d)@.data == bordered_bytes(old(d)@.width, old(d)@.height, old(d)@.data),
        final(d)@.consistent(),
{
    let w = d.width;
    let h = d.height;
    let ghost orig = d.data@;
    let mut y: u32 = 0;
    while y < h
        invariant
            w == d.width,
            h == d.height,
            w == old(d).width,
            h == old(d).height,
            w <= 4096,
            h <= 4096,
            old(d)@.consistent(),
            orig == old(d)@.data,
            0 <= y <= h,
            d.data@.len() == orig.len(),
            forall|i: int|
                0 <= i < orig.len() ==> d.data@[i] == (if i / 4 < y as int * w as int
                    && is_border_pixel(i / 4, w as int, h as int) {
                    border_fill(i)
                } else {
                    orig[i]
                }),
        decreases h - y,
    {
        let mut x: u32 = 0;
        while x < w
            invariant
                w == d.width,
                h == d.height,
                w == old(d).width,
                h == old(d).height,
                w <= 4096,
                h <= 4096,
                old(d)@.consistent(),
                orig == old(d)@.data,
                0 <= y < h,
                0 <= x <= w,
                d.data@.len() == orig.len(),
                forall|i: int|
                    0 <= i < orig.len() ==> d.data@[i] == (if i / 4 < y as int * w as int
                        + x as int && is_border_pixel(i / 4, w as int, h as int) {
                        border_fill(i)
                    } else {
                        orig[i]
                    }),
            decreases w - x,
        {
            let ghost p = y as int * w as int + x as int;
            proof {
                assert(p < w as int * h as int && p >= 0) by (nonlinear_arith)
                    requires
                        0 <= x < w,
                        0 <= y < h,
                        p == y as int * w as int + x as int,
                ;
                assert(4 * p + 4 <= 4 * (w as int * h as int)) by (nonlinear_arith)
                    requires
                        0 <= p < w as int * h as int,
                ;
                assert(w as int * h as int <= 4096 * 4096) by (nonlinear_arith)
                    requires
                        w <= 4096,
                        h <= 4096,
                ;
                vstd::arithmetic::div_mod::lemma_fundamental_div_mod_converse(
                    p,
                    w as int,
                    y as int,
                    x as int,
                );
                assert(orig.len() == 4 * (w as int * h as int)) by (nonlinear_arith)
                    requires
                        orig.len() == 4 * (w as nat) * (h as nat),
                ;
            }
            if x < 2 || x + 2 >= w || y < 2 || y + 2 >= h {
                let base: usize = (y as usize * w as usize + x as usize) * 4;
                assert(base as int == 4 * p);
                let ghost before = d.data@;
                d.data.set(base, 255);
                d.data.set(base + 1, 255);
                d.data.set(base + 2, 0);
                d.data.set(base + 3, 0);
                proof {
                    assert forall|i: int| 0 <= i < orig.len() implies d.data@[i] == (if i / 4
                        < p + 1 && is_border_pixel(i / 4, w as int, h as int) {
                        border_fill(i)
                    } else {
                        orig[i]
                    }) by {
                        if base as int <= i < base as int + 4 {
                            let k = i - 4 * p;
                            vstd::arithmetic::div_mod::lemma_fundamental_div_mod_converse(
                                i,
                                4,
                                p,
                                k,
                            );
                            assert(i / 4 == p && i % 4 == k);
                            assert(is_border_pixel(p, w as int, h as int));
                        } else {
                            assert(d.data@[i] == before[i]);
                            if i / 4 == p {
                                assert(4 * (i / 4) <= i < 4 * (i / 4) + 4) by {
                                    vstd::arithmetic::div_mod::lemma_fundamental_div_mod(i, 4);
                                }
                                assert(false);
                            }
                        }
                    }
                }
            } else {
                proof {
                    assert forall|i: int| 0 <= i < orig.len() implies d.data@[i] == (if i / 4
                        < p + 1 && is_border_pixel(i / 4, w as int, h as int) {
                        border_fill(i)
                    } else {
                        orig[i]
                    }) by {
                        if i / 4 == p {
                            assert(!is_border_pixel(p, w as int, h as int));
                        }
                    }
                }
            }
            x = x + 1;
        }
        proof {
            assert(y as int * w as int + w as int == (y + 1) as int * w as int)
                by (nonlinear_arith);
        }
        y = y + 1;
    }
    proof {
        assert forall|i: int| 0 <= i < orig.len() implies #[trigger] d.data@[i]
            == bordered_bytes(w, h, orig)[i] by {
            let wh = w as int * h as int;
            assert(orig.len() == 4 * wh) by (nonlinear_arith)
                requires
                    orig.len() == 4 * (w as nat) * (h as nat),
                    wh == w as int * h as int,
            ;
            assert(4 * (i / 4) <= i < 4 * (i / 4) + 4) by {
                vstd::arithmetic::div_mod::lemma_fundamental_div_mod(i, 4);
            }
            assert(4 * (i / 4) < 4 * wh);
            assert(i / 4 < wh);
            assert(wh == h as int * w as int) by (nonlinear_arith)
                requires
                    wh == w as int * h as int,
            ;
        }
        assert(d.data@ =~= bordered_bytes(w, h, orig));
    }
}

/// Paints the border on every pixmap of a list.
pub fn apply_border_all(v: &mut Vec<IconData>)
    requires
        forall|i: int| 0 <= i < old(v)@.len() ==> (#[trigger] old(v).deep_view()[i]).consistent(),
    ensures
        final(v)@.len() == old(v)@.len(),
        forall|i: int|
            0 <= i < old(v)@.len() ==> #[trigger] final(v).deep_view()[i] == (IconDataView {
                width: old(v).deep_view()[i].width,
                height: old(v).deep_view()[i].height,
                data: bordered_bytes(
                    old(v).deep_view()[i].width,
                    old(v).deep_view()[i].height,
                    old(v).deep_view()[i].data,
                ),
            }),
        forall|i: int| 0 <= i < final(v)@.len() ==> (#[trigger] final(v).deep_view()[i]).consistent(),
{
    let n = v.len();
    let mut i: usize = 0;
    while i < n
        invariant
            n == v@.len(),
            0 <= i <= n,
            v@.len() == old(v)@.len(),
            forall|j: int|
                0 <= j < old(v)@.len() ==> (#[trigger] old(v).deep_view()[j]).consistent(),
            forall|j: int|
                i <= j < n ==> #[trigger] v.deep_view()[j] == old(v).deep_view()[j],
            forall|j: int|
                0 <= j < i ==> #[trigger] v.deep_view()[j] == (IconDataView {
                    width: old(v).deep_view()[j].width,
                    height: old(v).deep_view()[j].height,
                    data: bordered_bytes(
                        old(v).deep_view()[j].width,
                        old(v).deep_view()[j].height,
                        old(v).deep_view()[j].data,
                    ),
                }),
            forall|j: int| 0 <= j < i ==> (#[trigger] v.deep_view()[j]).consistent(),
        decreases n - i,
    {
        let ghost vpre = v@;
        proof {
            assert forall|j: int| i <= j < n implies #[trigger] vpre[j].deep_view() == old(
                v,
            ).deep_view()[j] by {
                assert(v.deep_view()[j] == v@[j].deep_view());
            }
            assert forall|j: int| 0 <= j < i implies #[trigger] vpre[j].deep_view()
                == (IconDataView {
                width: old(v).deep_view()[j].width,
                height: old(v).deep_view()[j].height,
                data: bordered_bytes(
                    old(v).deep_view()[j].width,
                    old(v).deep_view()[j].height,
                    old(v).deep_view()[j].data,
                ),
            }) by {
                assert(v.deep_view()[j] == v@[j].deep_view());
            }
            assert forall|j: int| 0 <= j < i implies (#[trigger] vpre[j].deep_view()).consistent() by {
                assert(v.deep_view()[j] == v@[j].deep_view());
            }
        }
        assert(vpre[i as int].deep_view() == old(v).deep_view()[i as int]) by {
            assert(v.deep_view()[i as int] == v@[i as int].deep_view());
        }
        let entry = vstd::std_specs::vec::vec_index_mut(v, i);
        assert(entry@ == vpre[i as int]@);
        assert(entry@.consistent());
        apply_border(entry);
        proof {
            assert(v@ == vpre.update(i as int, v@[i as int]));
            assert forall|j: int| 0 <= j < n implies #[trigger] v.deep_view()[j] == v@[j].deep_view() by {}
            assert forall|j: int| 0 <= j < n && j != i implies v@[j].deep_view() == vpre[j].deep_view() by {
                assert(v@[j] == vpre[j]);
            }
            assert(v@[i as int].deep_view() == (IconDataView {
                width: old(v).deep_view()[i as int].width,
                height: old(v).deep_view()[i as int].height,
                data: bordered_bytes(
                    old(v).deep_view()[i as int].width,
                    old(v).deep_view()[i as int].height,
                    old(v).deep_view()[i as int].data,
                ),
            }));
        }
        i = i + 1;
    }
}

// ---------------------------------------------------------------------------
// One republished icon.
// ---------------------------------------------------------------------------

/// Mathematical view of a [`NotifierIcon`].
pub struct NotifierIconView {
    pub id: u64,
    pub app_id: Seq<char>,
    pub category: Seq<char>,
    pub is_menu: bool,
    pub tooltip: Option<TooltipView>,
    pub title: Option<Seq<char>>,
    pub status: Option<Seq<char>>,
    pub icon: Option<Seq<IconDataView>>,
    pub attention_icon: Option<Seq<IconDataView>>,
    pub overlay_icon: Option<Seq<IconDataView>>,
    pub bus_path: Seq<char>,
}

impl NotifierIconView {
    /// Every stored pixmap is consistent.
    pub open spec fn wf(self) -> bool {
        &&& consistent_opt(self.icon)
        &&& consistent_opt(self.attention_icon)
        &&& consistent_opt(self.overlay_icon)
        &&& (self.tooltip matches Option::Some(t) ==> consistent_list(t.icon_data))
    }
}

/// Cached state of one republished icon, together with the bus identity
/// (unique connection name) under which the daemon republishes it.
#[derive(Debug)]
pub struct NotifierIcon {
    id: u64,
    app_id: String,
    category: String,
    is_menu: bool,
    tooltip: Option<Tooltip>,
    title: Option<String>,
    status: Option<String>,
    icon: Option<Vec<IconData>>,
    attention_icon: Option<Vec<IconData>>,
    overlay_icon: Option<Vec<IconData>>,
    bus_path: String,
}

impl View for NotifierIcon {
    type V = NotifierIconView;

    closed spec fn view(&self) -> NotifierIconView {
        NotifierIconView {
            id: self.id,
            app_id: self.app_id@,
            category: self.category@,
            is_menu: self.is_menu,
            tooltip: self.tooltip.deep_view(),
            title: self.title.deep_view(),
            status: self.status.deep_view(),
            icon: self.icon.deep_view(),
            attention_icon: self.attention_icon.deep_view(),
            overlay_icon: self.overlay_icon.deep_view(),
            bus_path: self.bus_path@,
        }
    }
}

impl NotifierIcon {
    /// A fresh icon with no cached state.  `bus_path` is the unique name
    /// of the bus connection allocated for this icon.
    pub fn new(id: u64, app_id: String, category: String, is_menu: bool, bus_path: String) -> (r:
        Self)
        ensures
            r@ == (NotifierIconView {
                id,
                app_id: app_id@,
                category: category@,
                is_menu,
                tooltip: None,
                title: None,
                status: None,
                icon: None,
                attention_icon: None,
                overlay_icon: None,
                bus_path: bus_path@,
            }),
            r@.wf(),
    {
        Self {
            id,
            app_id,
            category,
            is_menu,
            tooltip: None,
            title: None,
            status: None,
            icon: None,
            attention_icon: None,
            overlay_icon: None,
            bus_path,
        }
    }

    /// Stores the new title; the caller emits the returned signal.
    pub fn set_title(&mut self, title: Option<String>) -> (r: SniSignal)
        ensures
            final(self)@ == (NotifierIconView { title: title.deep_view(), ..old(self)@ }),
            r == SniSignal::NewTitle,
    {
        self.title = title;
        SniSignal::NewTitle
    }

    /// Stores the new tooltip; the caller emits the returned signal.
    pub fn set_tooltip(&mut self, tooltip: Option<Tooltip>) -> (r: SniSignal)
        requires
            tooltip matches Some(t) ==> consistent_list(t@.icon_data),
        ensures
            final(self)@ == (NotifierIconView { tooltip: tooltip.deep_view(), ..old(self)@ }),
            r == SniSignal::NewToolTip,
    {
        self.tooltip = tooltip;
        SniSignal::NewToolTip
    }

    /// Stores the new status; the caller emits the returned signal, whose
    /// payload defaults to "normal" when the status is unset.
    pub fn set_status(&mut self, status: Option<String>) -> (r: SniSignal)
        ensures
            final(self)@ == (NotifierIconView { status: status.deep_view(), ..old(self)@ }),
            (r matches SniSignal::NewStatus { status: st } && st@ == (match status.deep_view() {
                Option::Some(s) => s,
                Option::None => "normal"@,
            })),
    {
        let signal_status = match &status {
            Option::Some(s) => s.clone(),
            Option::None => String::from_str("normal"),
        };
        self.status = status;
        SniSignal::NewStatus { status: signal_status }
    }

    /// Stores the new normal pixmap list; the caller emits the signal.
    pub fn set_icon(&mut self, icon: Option<Vec<IconData>>) -> (r: SniSignal)
        requires
            icon matches Some(v) ==> consistent_list(v.deep_view()),
        ensures
            final(self)@ == (NotifierIconView { icon: icon.deep_view(), ..old(self)@ }),
            r == SniSignal::NewIcon,
    {
        self.icon = icon;
        SniSignal::NewIcon
    }

    /// Stores the new attention pixmap list; the caller emits the signal.
    pub fn set_attention_icon(&mut self, attention_icon: Option<Vec<IconData>>) -> (r: SniSignal)
        requires
            attention_icon matches Some(v) ==> consistent_list(v.deep_view()),
        ensures
            final(self)@ == (NotifierIconView {
                attention_icon: attention_icon.deep_view(),
                ..old(self)@
            }),
            r == SniSignal::NewAttentionIcon,
    {
        self.attention_icon = attention_icon;
        SniSignal::NewAttentionIcon
    }

    /// Stores the new overlay pixmap list; the caller emits the signal.
    pub fn set_overlay_icon(&mut self, overlay_icon: Option<Vec<IconData>>) -> (r: SniSignal)
        requires
            overlay_icon matches Some(v) ==> consistent_list(v.deep_view()),
        ensures
            final(self)@ == (NotifierIconView {
                overlay_icon: overlay_icon.deep_view(),
                ..old(self)@
            }),
            r == SniSignal::NewOverlayIcon,
    {
        self.overlay_icon = overlay_icon;
        SniSignal::NewOverlayIcon
    }

    /// The bus identity under which this icon is republished.
    pub fn bus_path(&self) -> (r: String)
        ensures
            r@ == self@.bus_path,
    {
        self.bus_path.clone()
    }
}

impl NotifierIcon {
    /// The local id this icon is registered under.
    pub fn icon_id(&self) -> (r: u64)
        ensures
            r == self@.id,
    {
        self.id
    }

    /// Category as forwarded at creation.
    pub fn category(&self) -> (r: String)
        ensures
            r@ == self@.category,
    {
        self.category.clone()
    }

    /// The namespaced (sanitized) app id, served as the item's `Id`.
    pub fn id(&self) -> (r: String)
        ensures
            r@ == self@.app_id,
    {
        self.app_id.clone()
    }

    /// Cached title; `None` means the property is unset.
    pub fn title(&self) -> (r: Option<String>)
        ensures
            r.deep_view() == self@.title,
    {
        self.title.clone()
    }

    /// Cached status; `None` means the property is unset.
    pub fn status(&self) -> (r: Option<String>)
        ensures
            r.deep_view() == self@.status,
    {
        self.status.clone()
    }

    /// The window id is always zero.
    pub fn window_id(&self) -> (r: i32)
        ensures
            r == 0,
    {
        0
    }

    pub fn item_is_menu(&self) -> (r: bool)
        ensures
            r == self@.is_menu,
    {
        self.is_menu
    }

    /// Menu object path, present exactly when the item has a menu.
    pub fn menu(&self) -> (r: Option<String>)
        ensures
            r is Some <==> self@.is_menu,
            r matches Some(p) ==> p@ == "/StatusNotifierItem"@,
    {
        if self.is_menu {
            Some(String::from_str("/StatusNotifierItem"))
        } else {
            None
        }
    }

    /// Normal pixmaps as `(width, height, bytes)` rows; empty when unset.
    pub fn icon_pixmap(&self) -> (r: Vec<(i32, i32, Vec<u8>)>)
        requires
            self@.wf(),
        ensures
            pixmap_rows_match(self@.icon, r.deep_view()),
    {
        match &self.icon {
            Option::None => Vec::new(),
            Option::Some(v) => pixmap_rows(v),
        }
    }

    /// Attention pixmaps as `(width, height, bytes)` rows; empty when unset.
    pub fn attention_icon_pixmap(&self) -> (r: Vec<(i32, i32, Vec<u8>)>)
        requires
            self@.wf(),
        ensures
            pixmap_rows_match(self@.attention_icon, r.deep_view()),
    {
        match &self.attention_icon {
            Option::None => Vec::new(),
            Option::Some(v) => pixmap_rows(v),
        }
    }

    /// Overlay pixmaps as `(width, height, bytes)` rows; empty when unset.
    pub fn overlay_icon_pixmap(&self) -> (r: Vec<(i32, i32, Vec<u8>)>)
        requires
            self@.wf(),
        ensures
            pixmap_rows_match(self@.overlay_icon, r.deep_view()),
    {
        match &self.overlay_icon {
            Option::None => Vec::new(),
            Option::Some(v) => pixmap_rows(v),
        }
    }

    /// Tooltip as `(icon name, pixmap rows, title, description)`; the
    /// icon name is always empty.  `None` means the property is unset.
    pub fn tool_tip(&self) -> (r: Option<(String, Vec<(i32, i32, Vec<u8>)>, String, String)>)
        requires
            self@.wf(),
        ensures
            r is Some <==> self@.tooltip is Some,
            (r matches Some(t) ==> self@.tooltip matches Some(tv) && t.0@.len() == 0
                && pixmap_rows_match(Some(tv.icon_data), t.1.deep_view()) && t.2@ == tv.title
                && t.3@ == tv.description),
    {
        match &self.tooltip {
            Option::None => None,
            Option::Some(t) => Some(
                (
                    String::new(),
                    pixmap_rows(&t.icon_data),
                    t.title.clone(),
                    t.description.clone(),
                ),
            ),
        }
    }
}

/// Relates a stored pixmap list to the `(width, height, bytes)` rows the
/// bus serves: unset means no rows, else one row per pixmap.
pub open spec fn pixmap_rows_match(
    stored: Option<Seq<IconDataView>>,
    rows: Seq<(i32, i32, Seq<u8>)>,
) -> bool {
    match stored {
        Option::None => rows.len() == 0,
        Option::Some(s) => rows.len() == s.len() && forall|i: int|
            0 <= i < s.len() ==> (#[trigger] rows[i]).0 == s[i].width as i32 && rows[i].1
                == s[i].height as i32 && rows[i].2 == s[i].data,
    }
}

fn pixmap_rows(v: &Vec<IconData>) -> (r: Vec<(i32, i32, Vec<u8>)>)
    requires
        consistent_list(v.deep_view()),
    ensures
        pixmap_rows_match(Some(v.deep_view()), r.deep_view()),
{
    let mut r: Vec<(i32, i32, Vec<u8>)> = Vec::new();
    let n = v.len();
    let mut i: usize = 0;
    while i < n
        invariant
            n == v@.len(),
            0 <= i <= n,
            consistent_list(v.deep_view()),
            r.deep_view().len() == i,
            forall|j: int|
                0 <= j < i ==> (#[trigger] r.deep_view()[j]).0 == v.deep_view()[j].width as i32
                    && r.deep_view()[j].1 == v.deep_view()[j].height as i32 && r.deep_view()[j].2
                    == v.deep_view()[j].data,
        decreases n - i,
    {
        assert(v.deep_view()[i as int] == v@[i as int].deep_view());
        let entry = &v[i];
        assert(entry@.consistent());
        let row = (entry.width as i32, entry.height as i32, entry.data.clone());
        let ghost pre = r.deep_view();
        r.push(row);
        proof {
            assert forall|j: int| 0 <= j < i + 1 implies #[trigger] r.deep_view()[j] == (if j
                < i {
                pre[j]
            } else {
                (row.0, row.1, row.2@)
            }) by {
                assert(r.deep_view()[j] == r@[j].deep_view());
                if j < i {
                    assert(pre[j] == r@[j].deep_view());
                }
            }
        }
        i = i + 1;
    }
    r
}

// ---------------------------------------------------------------------------
// The daemon's table of republished icons.
// ---------------------------------------------------------------------------

/// Non-fatal outcome of ingesting a `Create`.
#[derive(Debug, Clone, PartialEq)]
pub enum CreateOutcome {
    /// The icon was installed; the caller registers `app_id` with the
    /// host watcher under the icon's bus identity.
    Registered { app_id: String },
    /// The event carried an empty category and was skipped.
    SkippedEmptyCategory,
}

/// Non-fatal outcome of ingesting a state event.
#[derive(Debug, Clone, PartialEq)]
pub enum UpdateOutcome {
    /// The addressed icon changed; emit this signal on its connection.
    Signal { signal: SniSignal },
    /// The addressed icon was destroyed; its bus identity is released.
    Destroyed { bus_path: String },
}

/// Fatal protocol violations; each terminates the daemon.
#[derive(Debug, Copy, Clone, PartialEq, Eq, Structural)]
pub enum DaemonError {
    /// A `Create` carried an id not above every id seen before.
    NonMonotonicId,
    /// A state event addressed an id that is not installed.
    UnknownId,
    /// `Title` or `Status` arrived as a pixmap type.
    BadIconType,
    /// A pixmap's byte count or dimensions are inconsistent.
    BadPixmap,
}

/// Mathematical view of a [`SniSignal`].
pub enum SniSignalView {
    NewTitle,
    NewStatus { status: Seq<char> },
    NewIcon,
    NewAttentionIcon,
    NewOverlayIcon,
    NewToolTip,
}

impl View for SniSignal {
    type V = SniSignalView;

    open spec fn view(&self) -> SniSignalView {
        match self {
            SniSignal::NewTitle => SniSignalView::NewTitle,
            SniSignal::NewStatus { status } => SniSignalView::NewStatus { status: status@ },
            SniSignal::NewIcon => SniSignalView::NewIcon,
            SniSignal::NewAttentionIcon => SniSignalView::NewAttentionIcon,
            SniSignal::NewOverlayIcon => SniSignalView::NewOverlayIcon,
            SniSignal::NewToolTip => SniSignalView::NewToolTip,
        }
    }
}

/// A pixmap list after the border overlay.
pub open spec fn bordered_list(v: Seq<IconDataView>) -> Seq<IconDataView> {
    Seq::new(
        v.len(),
        |i: int|
            IconDataView {
                width: v[i].width,
                height: v[i].height,
                data: bordered_bytes(v[i].width, v[i].height, v[i].data),
            },
    )
}

/// How one non-`Create`, non-`Destroy` event mutates an icon and which
/// signal it emits; `None` when the event is a fatal violation.
pub open spec fn spec_apply_event(icon: NotifierIconView, e: ClientEventView) -> Option<
    (NotifierIconView, SniSignalView),
> {
    match e {
        ClientEventView::Title(t) => Some(
            (NotifierIconView { title: t, ..icon }, SniSignalView::NewTitle),
        ),
        ClientEventView::Status(st) => Some(
            (
                NotifierIconView { status: st, ..icon },
                SniSignalView::NewStatus {
                    status: match st {
                        Option::Some(s) => s,
                        Option::None => "normal"@,
                    },
                },
            ),
        ),
        ClientEventView::Icon { typ, data } => if !consistent_list(data) {
            None
        } else {
            match typ {
                IconType::Normal => Some(
                    (
                        NotifierIconView { icon: Some(bordered_list(data)), ..icon },
                        SniSignalView::NewIcon,
                    ),
                ),
                IconType::Attention => Some(
                    (
                        NotifierIconView {
                            attention_icon: Some(bordered_list(data)),
                            ..icon
                        },
                        SniSignalView::NewAttentionIcon,
                    ),
                ),
                IconType::Overlay => Some(
                    (
                        NotifierIconView { overlay_icon: Some(bordered_list(data)), ..icon },
                        SniSignalView::NewOverlayIcon,
                    ),
                ),
                _ => None,
            }
        },
        ClientEventView::RemoveIcon(typ) => match typ {
            IconType::Normal => Some(
                (NotifierIconView { icon: None, ..icon }, SniSignalView::NewIcon),
            ),
            IconType::Attention => Some(
                (
                    NotifierIconView { attention_icon: None, ..icon },
                    SniSignalView::NewAttentionIcon,
                ),
            ),
            IconType::Overlay => Some(
                (
                    NotifierIconView { overlay_icon: None, ..icon },
                    SniSignalView::NewOverlayIcon,
                ),
            ),
            _ => None,
        },
        ClientEventView::Tooltip { icon_data, title, description } => if !consistent_list(
            icon_data,
        ) {
            None
        } else {
            Some(
                (
                    NotifierIconView {
                        tooltip: Some(TooltipView { title, description, icon_data }),
                        ..icon
                    },
                    SniSignalView::NewToolTip,
                ),
            )
        },
        ClientEventView::RemoveTooltip => Some(
            (NotifierIconView { tooltip: None, ..icon }, SniSignalView::NewToolTip),
        ),
        _ => None,
    }
}

/// Mathematical view of a [`DaemonState`].
pub struct DaemonStateView {
    pub last_index: u64,
    pub icons: Seq<NotifierIconView>,
}

impl DaemonStateView {
    /// Ids are positive, bounded by the watermark and unique; bus
    /// identities are unique; every icon is well formed.
    pub open spec fn wf(self) -> bool {
        &&& forall|i: int| 0 <= i < self.icons.len() ==> (#[trigger] self.icons[i]).wf()
        &&& forall|i: int|
            0 <= i < self.icons.len() ==> 1 <= (#[trigger] self.icons[i]).id <= self.last_index
        &&& forall|i: int, j: int|
            0 <= i < j < self.icons.len() ==> (#[trigger] self.icons[i]).id != (
            #[trigger] self.icons[j]).id
        &&& forall|i: int, j: int|
            0 <= i < j < self.icons.len() ==> (#[trigger] self.icons[i]).bus_path != (
            #[trigger] self.icons[j]).bus_path
    }

    pub open spec fn has_icon(self, id: u64) -> bool {
        exists|i: int| 0 <= i < self.icons.len() && (#[trigger] self.icons[i]).id == id
    }

    /// Index of the icon with the given id.
    pub open spec fn icon_index(self, id: u64) -> int {
        choose|i: int| 0 <= i < self.icons.len() && (#[trigger] self.icons[i]).id == id
    }

    /// True when some installed icon holds this bus identity.
    pub open spec fn owns_path(self, path: Seq<char>) -> bool {
        exists|i: int| 0 <= i < self.icons.len() && (#[trigger] self.icons[i]).bus_path == path
    }
}

/// The daemon's republishing state: the id watermark and the installed
/// icons.
pub struct DaemonState {
    last_index: u64,
    icons: Vec<NotifierIcon>,
}

impl View for DaemonState {
    type V = DaemonStateView;

    closed spec fn view(&self) -> DaemonStateView {
        DaemonStateView { last_index: self.last_index, icons: self.icons.deep_view() }
    }
}

impl DeepView for NotifierIcon {
    type V = NotifierIconView;

    open spec fn deep_view(&self) -> NotifierIconView {
        self.view()
    }
}

impl DaemonState {
    /// Fresh state: watermark zero, no icons.
    pub fn new() -> (r: Self)
        ensures
            r@.last_index == 0,
            r@.icons.len() == 0,
            r@.wf(),
    {
        let r = DaemonState { last_index: 0, icons: Vec::new() };
        proof {
            assert(r@.icons =~= Seq::<NotifierIconView>::empty());
        }
        r
    }

    fn find_icon(&self, id: u64) -> (r: Option<usize>)
        ensures
            r matches Some(i) ==> i < self@.icons.len() && self@.icons[i as int].id == id && (
            forall|j: int| 0 <= j < i ==> (#[trigger] self@.icons[j]).id != id),
            r is None ==> !self@.has_icon(id),
    {
        let n = self.icons.len();
        let mut i: usize = 0;
        while i < n
            invariant
                n == self.icons@.len(),
                0 <= i <= n,
                self@.icons.len() == n,
                forall|j: int| 0 <= j < i ==> (#[trigger] self@.icons[j]).id != id,
            decreases n - i,
        {
            assert(self@.icons[i as int] == self.icons@[i as int]@);
            if self.icons[i].icon_id() == id {
                return Some(i);
            }
            i = i + 1;
        }
        None
    }

    /// The id carried by the icon at a given index (used by callers that
    /// walk the table).
    pub fn icon_count(&self) -> (r: usize)
        ensures
            r == self@.icons.len(),
    {
        self.icons.len()
    }

    /// The installed icon with the given id, if any.
    pub fn get_icon(&self, id: u64) -> (r: Option<&NotifierIcon>)
        requires
            self@.wf(),
        ensures
            r is Some <==> self@.has_icon(id),
            r matches Some(icon) ==> icon@ == self@.icons[self@.icon_index(id)] && icon@.wf(),
    {
        match self.find_icon(id) {
            Option::None => None,
            Option::Some(i) => {
                let icon = &self.icons[i];
                proof {
                    assert(self@.has_icon(id)) by {
                        assert(self@.icons[i as int].id == id);
                    }
                    let ii = self@.icon_index(id);
                    assert(0 <= ii < self@.icons.len() && self@.icons[ii].id == id);
                    if ii < i as int {
                        assert(self@.icons[ii].id != self@.icons[i as int].id);
                    } else if ii > i as int {
                        assert(self@.icons[i as int].id != self@.icons[ii].id);
                    }
                    assert(icon@ == self@.icons[i as int]);
                }
                Some(icon)
            },
        }
    }
}

impl DaemonState {
    /// Ingests a `Create`: refuses a non-increasing id (fatal), skips an
    /// empty category, and otherwise installs a fresh icon under the
    /// sanitized app id and the given bus identity.
    pub fn handle_create(
        &mut self,
        id: u64,
        category: String,
        app_id: &str,
        is_menu: bool,
        bus_path: String,
    ) -> (r: Result<CreateOutcome, DaemonError>)
        requires
            old(self)@.wf(),
            !old(self)@.owns_path(bus_path@),
        ensures
            final(self)@.wf(),
            id <= old(self)@.last_index ==> r == Err::<CreateOutcome, DaemonError>(
                DaemonError::NonMonotonicId,
            ) && final(self)@ == old(self)@,
            id > old(self)@.last_index && category@.len() == 0 ==> r == Ok::<
                CreateOutcome,
                DaemonError,
            >(CreateOutcome::SkippedEmptyCategory) && final(self)@ == old(self)@,
            id > old(self)@.last_index && category@.len() > 0 ==> (r matches Ok(
                CreateOutcome::Registered { app_id: s },
            ) && s@ == spec_sanitized_name(app_id_prefix() + app_id@) && final(self)@.last_index
                == id && final(self)@.icons == old(self)@.icons.push(
                (NotifierIconView {
                    id,
                    app_id: spec_sanitized_name(app_id_prefix() + app_id@),
                    category: category@,
                    is_menu,
                    tooltip: None,
                    title: None,
                    status: None,
                    icon: None,
                    attention_icon: None,
                    overlay_icon: None,
                    bus_path: bus_path@,
                }),
            )),
    {
        if id <= self.last_index {
            return Err(DaemonError::NonMonotonicId);
        }
        if category.as_str().is_empty() {
            return Ok(CreateOutcome::SkippedEmptyCategory);
        }
        self.last_index = id;
        let sanitized = sanitize_app_id(app_id);
        let ghost vpre = self.icons@;
        proof {
            assert forall|j: int| 0 <= j < vpre.len() implies #[trigger] vpre[j].deep_view()
                == old(self)@.icons[j] by {
                assert(self@.icons[j] == self.icons@[j]@);
            }
        }
        let icon = NotifierIcon::new(id, sanitized.clone(), category, is_menu, bus_path);
        self.icons.push(icon);
        proof {
            assert forall|j: int| 0 <= j < self.icons@.len() implies #[trigger] self@.icons[j]
                == self.icons@[j]@ by {}
            assert(self@.icons =~= old(self)@.icons.push(self.icons@[vpre.len() as int]@));
            let s2 = self@;
            let s1 = old(self)@;
            assert forall|i: int, j: int| 0 <= i < j < s2.icons.len() implies (
            #[trigger] s2.icons[i]).id != (#[trigger] s2.icons[j]).id by {
                if j + 1 == s2.icons.len() {
                    assert(s2.icons[i] == s1.icons[i]);
                    assert(s1.icons[i].id <= s1.last_index);
                }
            }
            assert forall|i: int, j: int| 0 <= i < j < s2.icons.len() implies (
            #[trigger] s2.icons[i]).bus_path != (#[trigger] s2.icons[j]).bus_path by {
                if j + 1 == s2.icons.len() {
                    assert(s2.icons[i] == s1.icons[i]);
                }
            }
            assert forall|i: int| 0 <= i < s2.icons.len() implies (#[trigger] s2.icons[i]).wf()
                by {
                if i + 1 < s2.icons.len() + 1 && i < s1.icons.len() {
                    assert(s2.icons[i] == s1.icons[i]);
                }
            }
        }
        Ok(CreateOutcome::Registered { app_id: sanitized })
    }
}

proof fn lemma_wf_update(s1: DaemonStateView, s2: DaemonStateView, i: int, ni: NotifierIconView)
    requires
        s1.wf(),
        0 <= i < s1.icons.len(),
        s2.icons == s1.icons.update(i, ni),
        s2.last_index == s1.last_index,
        ni.id == s1.icons[i].id,
        ni.bus_path == s1.icons[i].bus_path,
        ni.wf(),
    ensures
        s2.wf(),
{
    assert forall|a: int, b: int| 0 <= a < b < s2.icons.len() implies (#[trigger] s2.icons[a]).id
        != (#[trigger] s2.icons[b]).id by {
        assert(s1.icons[a].id != s1.icons[b].id);
    }
    assert forall|a: int, b: int| 0 <= a < b < s2.icons.len() implies (
    #[trigger] s2.icons[a]).bus_path != (#[trigger] s2.icons[b]).bus_path by {
        assert(s1.icons[a].bus_path != s1.icons[b].bus_path);
    }
    assert forall|a: int| 0 <= a < s2.icons.len() implies (#[trigger] s2.icons[a]).wf() by {
        if a != i {
            assert(s2.icons[a] == s1.icons[a]);
        }
    }
    assert forall|a: int| 0 <= a < s2.icons.len() implies 1 <= (#[trigger] s2.icons[a]).id
        <= s2.last_index by {
        if a != i {
            assert(s2.icons[a] == s1.icons[a]);
        }
    }
}

proof fn lemma_wf_remove(s1: DaemonStateView, s2: DaemonStateView, i: int)
    requires
        s1.wf(),
        0 <= i < s1.icons.len(),
        s2.icons == s1.icons.remove(i),
        s2.last_index == s1.last_index,
    ensures
        s2.wf(),
        !s2.has_icon(s1.icons[i].id),
        !s2.owns_path(s1.icons[i].bus_path),
{
    assert forall|a: int| 0 <= a < s2.icons.len() implies #[trigger] s2.icons[a] == (if a < i {
        s1.icons[a]
    } else {
        s1.icons[a + 1]
    }) by {}
    assert forall|a: int, b: int| 0 <= a < b < s2.icons.len() implies (#[trigger] s2.icons[a]).id
        != (#[trigger] s2.icons[b]).id by {}
    assert forall|a: int, b: int| 0 <= a < b < s2.icons.len() implies (
    #[trigger] s2.icons[a]).bus_path != (#[trigger] s2.icons[b]).bus_path by {}
    assert forall|a: int| 0 <= a < s2.icons.len() implies (#[trigger] s2.icons[a]).id != s1.icons[i].id by {
        if a < i {
            assert(s1.icons[a].id != s1.icons[i].id);
        } else {
            assert(s1.icons[a + 1].id != s1.icons[i].id);
        }
    }
    assert forall|a: int| 0 <= a < s2.icons.len() implies (#[trigger] s2.icons[a]).bus_path
        != s1.icons[i].bus_path by {
        if a < i {
            assert(s1.icons[a].bus_path != s1.icons[i].bus_path);
        } else {
            assert(s1.icons[a + 1].bus_path != s1.icons[i].bus_path);
        }
    }
}

/// True when every pixmap in the list is consistent.
pub fn icons_consistent(v: &Vec<IconData>) -> (b: bool)
    ensures
        b == consistent_list(v.deep_view()),
{
    let n = v.len();
    let mut i: usize = 0;
    while i < n
        invariant
            n == v@.len(),
            0 <= i <= n,
            forall|j: int| 0 <= j < i ==> (#[trigger] v.deep_view()[j]).consistent(),
        decreases n - i,
    {
        assert(v.deep_view()[i as int] == v@[i as int].deep_view());
        let d = &v[i];
        let ok = if d.width <= 4096 && d.height <= 4096 {
            proof {
                assert((4 * (d.width as int)) * (d.height as int) <= 0x4000_0000
                    && (4 * (d.width as int)) * (d.height as int) == 4 * (d.width as nat) * (
                d.height as nat)) by (nonlinear_arith)
                    requires
                        d.width <= 4096,
                        d.height <= 4096,
                ;
            }
            (d.data.len() as u64) == 4u64 * (d.width as u64) * (d.height as u64)
        } else {
            false
        };
        if !ok {
            return false;
        }
        i = i + 1;
    }
    true
}

impl DaemonState {
    /// Ingests a non-`Create` event: routes it to the addressed icon,
    /// mutates the cached state, and names the signal to emit, or, for
    /// `Destroy`, removes the icon and releases its bus identity.  An
    /// unknown id, a pixmap-typed `Title`/`Status`, or an inconsistent
    /// pixmap is a fatal protocol violation and leaves the state as it
    /// was.
    pub fn handle_update(&mut self, ev: IconClientEvent) -> (r: Result<UpdateOutcome, DaemonError>)
        requires
            old(self)@.wf(),
            !(ev.event is Create),
        ensures
            final(self)@.wf(),
            !old(self)@.has_icon(ev.id) ==> r == Err::<UpdateOutcome, DaemonError>(
                DaemonError::UnknownId,
            ) && final(self)@ == old(self)@,
            old(self)@.has_icon(ev.id) ==> ({
                let i = old(self)@.icon_index(ev.id);
                &&& (ev.event@ is Destroy ==> final(self)@.icons == old(self)@.icons.remove(i)
                    && final(self)@.last_index == old(self)@.last_index && (r matches Ok(
                    UpdateOutcome::Destroyed { bus_path },
                ) && bus_path@ == old(self)@.icons[i].bus_path) && !final(self)@.has_icon(ev.id)
                    && !final(self)@.owns_path(old(self)@.icons[i].bus_path))
                &&& (!(ev.event@ is Destroy) ==> (match spec_apply_event(
                    old(self)@.icons[i],
                    ev.event@,
                ) {
                    Option::Some(t) => final(self)@.icons == old(self)@.icons.update(i, t.0)
                        && final(self)@.last_index == old(self)@.last_index && (r matches Ok(
                        UpdateOutcome::Signal { signal },
                    ) && signal@ == t.1),
                    Option::None => final(self)@ == old(self)@ && r is Err,
                }))
            }),
            old(self)@.has_icon(ev.id) ==> (ev.event@ matches ClientEventView::Icon {
                typ,
                data,
            } ==> (!consistent_list(data) ==> r == Err::<UpdateOutcome, DaemonError>(
                DaemonError::BadPixmap,
            )) && (consistent_list(data) && (typ == IconType::Title || typ == IconType::Status)
                ==> r == Err::<UpdateOutcome, DaemonError>(DaemonError::BadIconType))),
            old(self)@.has_icon(ev.id) ==> (ev.event@ matches ClientEventView::RemoveIcon(typ)
                && (typ == IconType::Title || typ == IconType::Status) ==> r == Err::<
                UpdateOutcome,
                DaemonError,
            >(DaemonError::BadIconType)),
            old(self)@.has_icon(ev.id) ==> (ev.event@ matches ClientEventView::Tooltip {
                icon_data,
                title,
                description,
            } && !consistent_list(icon_data) ==> r == Err::<UpdateOutcome, DaemonError>(
                DaemonError::BadPixmap,
            )),
    {
        let ghost evv = ev.event@;
        let idx: usize = match self.find_icon(ev.id) {
            Option::None => {
                return Err(DaemonError::UnknownId);
            },
            Option::Some(i) => i,
        };
        proof {
            assert(old(self)@.has_icon(ev.id));
            let ii = old(self)@.icon_index(ev.id);
            assert(0 <= ii < old(self)@.icons.len() && old(self)@.icons[ii].id == ev.id);
            if ii < idx as int {
                assert(old(self)@.icons[ii].id != old(self)@.icons[idx as int].id);
            } else if ii > idx as int {
                assert(old(self)@.icons[idx as int].id != old(self)@.icons[ii].id);
            }
            assert(ii == idx as int);
        }
        let ghost vpre = self.icons@;
        proof {
            assert forall|j: int| 0 <= j < vpre.len() implies #[trigger] vpre[j].deep_view()
                == old(self)@.icons[j] by {}
        }
        match ev.event {
            ClientEvent::Create { .. } => {
                proof {
                    assert(false);
                }
                Err(DaemonError::UnknownId)
            },
            ClientEvent::Title(t) => {
                let entry = vstd::std_specs::vec::vec_index_mut(&mut self.icons, idx);
                let signal = entry.set_title(t);
                proof {
                    self.lemma_after_update(old(self)@, vpre, idx as int);
                }
                Ok(UpdateOutcome::Signal { signal })
            },
            ClientEvent::Status(st) => {
                let entry = vstd::std_specs::vec::vec_index_mut(&mut self.icons, idx);
                let signal = entry.set_status(st);
                proof {
                    self.lemma_after_update(old(self)@, vpre, idx as int);
                }
                Ok(UpdateOutcome::Signal { signal })
            },
            ClientEvent::Icon { typ, data } => {
                let mut data = data;
                if !icons_consistent(&data) {
                    return Err(DaemonError::BadPixmap);
                }
                let ghost pre_border = data.deep_view();
                match typ {
                    IconType::Title | IconType::Status => Err(DaemonError::BadIconType),
                    IconType::Normal => {
                        apply_border_all(&mut data);
                        proof {
                            assert(data.deep_view() =~= bordered_list(pre_border));
                        }
                        let entry = vstd::std_specs::vec::vec_index_mut(&mut self.icons, idx);
                        let signal = entry.set_icon(Some(data));
                        proof {
                            self.lemma_after_update(old(self)@, vpre, idx as int);
                        }
                        Ok(UpdateOutcome::Signal { signal })
                    },
                    IconType::Attention => {
                        apply_border_all(&mut data);
                        proof {
                            assert(data.deep_view() =~= bordered_list(pre_border));
                        }
                        let entry = vstd::std_specs::vec::vec_index_mut(&mut self.icons, idx);
                        let signal = entry.set_attention_icon(Some(data));
                        proof {
                            self.lemma_after_update(old(self)@, vpre, idx as int);
                        }
                        Ok(UpdateOutcome::Signal { signal })
                    },
                    IconType::Overlay => {
                        apply_border_all(&mut data);
                        proof {
                            assert(data.deep_view() =~= bordered_list(pre_border));
                        }
                        let entry = vstd::std_specs::vec::vec_index_mut(&mut self.icons, idx);
                        let signal = entry.set_overlay_icon(Some(data));
                        proof {
                            self.lemma_after_update(old(self)@, vpre, idx as int);
                        }
                        Ok(UpdateOutcome::Signal { signal })
                    },
                }
            },
            ClientEvent::RemoveIcon(typ) => {
                match typ {
                    IconType::Title | IconType::Status => Err(DaemonError::BadIconType),
                    IconType::Normal => {
                        let entry = vstd::std_specs::vec::vec_index_mut(&mut self.icons, idx);
                        let signal = entry.set_icon(None);
                        proof {
                            self.lemma_after_update(old(self)@, vpre, idx as int);
                        }
                        Ok(UpdateOutcome::Signal { signal })
                    },
                    IconType::Attention => {
                        let entry = vstd::std_specs::vec::vec_index_mut(&mut self.icons, idx);
                        let signal = entry.set_attention_icon(None);
                        proof {
                            self.lemma_after_update(old(self)@, vpre, idx as int);
                        }
                        Ok(UpdateOutcome::Signal { signal })
                    },
                    IconType::Overlay => {
                        let entry = vstd::std_specs::vec::vec_index_mut(&mut self.icons, idx);
                        let signal = entry.set_overlay_icon(None);
                        proof {
                            self.lemma_after_update(old(self)@, vpre, idx as int);
                        }
                        Ok(UpdateOutcome::Signal { signal })
                    },
                }
            },
            ClientEvent::Tooltip { icon_data, title, description } => {
                if !icons_consistent(&icon_data) {
                    return Err(DaemonError::BadPixmap);
                }
                let entry = vstd::std_specs::vec::vec_index_mut(&mut self.icons, idx);
                let signal = entry.set_tooltip(Some(Tooltip { title, description, icon_data }));
                proof {
                    self.lemma_after_update(old(self)@, vpre, idx as int);
                }
                Ok(UpdateOutcome::Signal { signal })
            },
            ClientEvent::RemoveTooltip => {
                let entry = vstd::std_specs::vec::vec_index_mut(&mut self.icons, idx);
                let signal = entry.set_tooltip(None);
                proof {
                    self.lemma_after_update(old(self)@, vpre, idx as int);
                }
                Ok(UpdateOutcome::Signal { signal })
            },
            ClientEvent::Destroy => {
                let icon = self.icons.remove(idx);
                let bus_path = icon.bus_path();
                proof {
                    assert forall|j: int| 0 <= j < self.icons@.len() implies
                        #[trigger] self@.icons[j] == self.icons@[j]@ by {}
                    assert(self@.icons =~= old(self)@.icons.remove(idx as int));
                    lemma_wf_remove(old(self)@, self@, idx as int);
                }
                Ok(UpdateOutcome::Destroyed { bus_path })
            },
        }
    }

    /// After one icon at `i` was mutated in place, the view is the old
    /// view with index `i` updated, and well-formedness holds again when
    /// the new entry is well formed with id and identity unchanged.
    proof fn lemma_after_update(&self, s1: DaemonStateView, vpre: Seq<NotifierIcon>, i: int)
        requires
            s1.wf(),
            0 <= i < vpre.len(),
            vpre.len() == self.icons@.len(),
            s1.icons.len() == vpre.len(),
            self@.last_index == s1.last_index,
            self.icons@ == vpre.update(i, self.icons@[i]),
            forall|j: int| 0 <= j < vpre.len() ==> #[trigger] vpre[j].deep_view() == s1.icons[j],
            self.icons@[i]@.id == s1.icons[i].id,
            self.icons@[i]@.bus_path == s1.icons[i].bus_path,
            self.icons@[i]@.wf(),
        ensures
            self@.icons == s1.icons.update(i, self.icons@[i]@),
            self@.wf(),
    {
        assert forall|j: int| 0 <= j < self.icons@.len() implies #[trigger] self@.icons[j]
            == s1.icons.update(i, self.icons@[i]@)[j] by {
            assert(self@.icons[j] == self.icons@[j]@);
            if j != i {
                assert(self.icons@[j] == vpre[j]);
                assert(vpre[j].deep_view() == s1.icons[j]);
            }
        }
        assert(self@.icons =~= s1.icons.update(i, self.icons@[i]@));
        lemma_wf_update(s1, self@, i, self.icons@[i]@);
    }
}

// ---------------------------------------------------------------------------
// Bus-name suffix parsing.
// ---------------------------------------------------------------------------

pub open spec fn all_digits(s: Seq<char>) -> bool {
    forall|i: int| 0 <= i < s.len() ==> crate::sanitize::is_digit_char(#[trigger] s[i])
}

/// Value of a decimal digit string.
pub open spec fn dec_val(s: Seq<char>) -> int
    decreases s.len(),
{
    if s.len() == 0 {
        0
    } else {
        dec_val(s.drop_last()) * 10 + (s.last() as u32 as int - '0' as u32 as int)
    }
}

proof fn lemma_dec_val_nonneg(s: Seq<char>)
    requires
        all_digits(s),
    ensures
        dec_val(s) >= 0,
    decreases s.len(),
{
    if s.len() > 0 {
        assert(all_digits(s.drop_last())) by {
            assert(forall|i: int|
                0 <= i < s.len() - 1 ==> #[trigger] s.drop_last()[i] == s[i]);
        }
        lemma_dec_val_nonneg(s.drop_last());
        assert(crate::sanitize::is_digit_char(s.last()));
    }
}

proof fn lemma_dec_val_prefix(s: Seq<char>, k: int)
    requires
        all_digits(s),
        0 <= k <= s.len(),
    ensures
        dec_val(s.take(k)) <= dec_val(s),
    decreases s.len() - k,
{
    if k < s.len() {
        lemma_dec_val_prefix(s, k + 1);
        let t = s.take(k + 1);
        assert(t.drop_last() =~= s.take(k));
        assert(t.last() == s[k]);
        assert(dec_val(t) == dec_val(s.take(k)) * 10 + (s[k] as u32 as int - '0' as u32 as int));
        assert(crate::sanitize::is_digit_char(s[k]));
        assert(all_digits(s.take(k))) by {
            assert(forall|i: int| 0 <= i < k ==> #[trigger] s.take(k)[i] == s[i]);
        }
        lemma_dec_val_nonneg(s.take(k));
    } else {
        assert(s.take(k) =~= s);
    }
}

/// The conditions under which a destination string decomposes as
/// `prefix`, then a decimal number without leading zero, then `suffix`.
pub open spec fn parse_dest_ok(d: Seq<char>, prefix: Seq<char>, suffix: Seq<char>) -> bool {
    let m = d.subrange(prefix.len() as int, d.len() - suffix.len());
    &&& d.len() > prefix.len() + suffix.len()
    &&& d.subrange(0, prefix.len() as int) == prefix
    &&& d.subrange(d.len() - suffix.len(), d.len() as int) == suffix
    &&& '1' <= m[0] <= '9'
    &&& all_digits(m)
    &&& dec_val(m) <= u64::MAX
}

/// Extracts the decimal id between a fixed prefix and suffix of a bus
/// destination name.  Succeeds exactly when the name decomposes as the
/// prefix, a digit string starting with 1 through 9 whose value fits an
/// unsigned 64-bit integer, and the suffix.
pub fn parse_dest(d: &str, prefix: &str, suffix: &str) -> (r: Option<u64>)
    ensures
        r is Some <==> parse_dest_ok(d@, prefix@, suffix@),
        r matches Some(v) ==> v == dec_val(
            d@.subrange(prefix@.len() as int, d@.len() - suffix@.len()),
        ),
{
    let n = d.unicode_len();
    let pl = prefix.unicode_len();
    let sl = suffix.unicode_len();
    if n <= pl || n - pl <= sl {
        return None;
    }
    let ghost m = d@.subrange(pl as int, n as int - sl as int);
    let mut i: usize = 0;
    while i < pl
        invariant
            0 <= i <= pl,
            pl == prefix@.len(),
            pl < n == d@.len(),
            forall|j: int| 0 <= j < i ==> d@[j] == prefix@[j],
        decreases pl - i,
    {
        if d.get_char(i) != prefix.get_char(i) {
            proof {
                assert(d@.subrange(0, pl as int)[i as int] != prefix@[i as int]);
            }
            return None;
        }
        i = i + 1;
    }
    assert(d@.subrange(0, pl as int) =~= prefix@);
    let mut i: usize = 0;
    while i < sl
        invariant
            0 <= i <= sl,
            sl == suffix@.len(),
            pl == prefix@.len(),
            pl + sl < n == d@.len(),
            forall|j: int| 0 <= j < i ==> d@[n - sl + j] == suffix@[j],
        decreases sl - i,
    {
        if d.get_char(n - sl + i) != suffix.get_char(i) {
            proof {
                assert(d@.subrange(n as int - sl as int, n as int)[i as int] != suffix@[
                    i as int]);
            }
            return None;
        }
        i = i + 1;
    }
    assert(d@.subrange(n as int - sl as int, n as int) =~= suffix@);
    let c0 = d.get_char(pl);
    assert(c0 == m[0]);
    if !('1' as u32 <= c0 as u32 && c0 as u32 <= '9' as u32) {
        return None;
    }
    let mut val: u64 = 0;
    let mut i: usize = pl;
    let ghost end = n - sl;
    while i < n - sl
        invariant
            pl <= i <= n - sl,
            pl + sl < n == d@.len(),
            pl == prefix@.len(),
            sl == suffix@.len(),
            m == d@.subrange(pl as int, n as int - sl as int),
            forall|j: int| 0 <= j < i - pl ==> crate::sanitize::is_digit_char(#[trigger] m[j]),
            val as int == dec_val(m.take(i - pl)),
        decreases n - sl - i,
    {
        let c = d.get_char(i);
        assert(c == m[i - pl]);
        let u = c as u32;
        if !('0' as u32 <= u && u <= '9' as u32) {
            assert(!crate::sanitize::is_digit_char(m[i as int - pl as int]));
            return None;
        }
        let digit: u64 = (u - '0' as u32) as u64;
        if val > (u64::MAX - digit) / 10 {
            proof {
                let k = i - pl;
                assert(m.take(k + 1).drop_last() =~= m.take(k as int));
                assert(m.take(k + 1).last() == m[k as int]);
                assert(dec_val(m.take(k + 1)) == val as int * 10 + digit as int);
                assert(val as int * 10 + digit as int > u64::MAX as int);
                if all_digits(m) {
                    lemma_dec_val_prefix(m, k + 1);
                }
            }
            return None;
        }
        val = val * 10 + digit;
        proof {
            let k = i - pl;
            assert(m.take(k + 1).drop_last() =~= m.take(k as int));
            assert(m.take(k + 1).last() == m[k as int]);
        }
        i = i + 1;
    }
    assert(m.take(n as int - sl as int - pl as int) =~= m);
    Some(val)
}

// ---------------------------------------------------------------------------
// The id protocol over the event stream.
// ---------------------------------------------------------------------------

/// The id-level state of the stream protocol: the watermark of accepted
/// `Create` ids and the ids currently installed.
pub struct ProtocolState {
    pub last_index: u64,
    pub live: Seq<u64>,
}

pub open spec fn protocol_init() -> ProtocolState {
    ProtocolState { last_index: 0, live: Seq::empty() }
}

pub open spec fn index_of_live(live: Seq<u64>, id: u64) -> int {
    choose|i: int| 0 <= i < live.len() && live[i] == id
}

/// How one event moves the id protocol; `None` is a fatal violation.
/// A `Create` must carry an id above the watermark; one with an empty
/// category is then skipped without registering.  Every other event must
/// address an installed id, and `Destroy` uninstalls it.
pub open spec fn protocol_step(p: ProtocolState, ev: IconClientEventView) -> Option<
    ProtocolState,
> {
    match ev.event {
        ClientEventView::Create { category, app_id, is_menu } => if ev.id <= p.last_index {
            None
        } else if category.len() == 0 {
            Some(p)
        } else {
            Some(ProtocolState { last_index: ev.id, live: p.live.push(ev.id) })
        },
        ClientEventView::Destroy => if p.live.contains(ev.id) {
            Some(
                ProtocolState {
                    last_index: p.last_index,
                    live: p.live.remove(index_of_live(p.live, ev.id)),
                },
            )
        } else {
            None
        },
        _ => if p.live.contains(ev.id) {
            Some(p)
        } else {
            None
        },
    }
}

/// Folds the protocol over a stream; `None` as soon as a step is fatal.
pub open spec fn protocol_run(p: ProtocolState, evs: Seq<IconClientEventView>) -> Option<
    ProtocolState,
>
    decreases evs.len(),
{
    if evs.len() == 0 {
        Some(p)
    } else {
        match protocol_run(p, evs.drop_last()) {
            Option::None => None,
            Option::Some(q) => protocol_step(q, evs.last()),
        }
    }
}

/// The id protocol sees of the daemon state its watermark and the ids of
/// the installed icons.
pub open spec fn proto_of(s: DaemonStateView) -> ProtocolState {
    ProtocolState { last_index: s.last_index, live: s.icons.map_values(|ic: NotifierIconView| ic.id) }
}

proof fn lemma_run_prefix(p0: ProtocolState, evs: Seq<IconClientEventView>, k: int)
    requires
        protocol_run(p0, evs) is Some,
        0 <= k <= evs.len(),
    ensures
        protocol_run(p0, evs.take(k)) is Some,
    decreases evs.len(),
{
    if k == evs.len() {
        assert(evs.take(k) =~= evs);
    } else {
        assert(evs.drop_last().take(k) =~= evs.take(k));
        lemma_run_prefix(p0, evs.drop_last(), k);
    }
}

proof fn lemma_step_monotone(p: ProtocolState, ev: IconClientEventView)
    requires
        protocol_step(p, ev) is Some,
    ensures
        protocol_step(p, ev).unwrap().last_index >= p.last_index,
{
}

proof fn lemma_run_monotone(p0: ProtocolState, evs: Seq<IconClientEventView>, i: int, j: int)
    requires
        0 <= i <= j <= evs.len(),
        protocol_run(p0, evs.take(i)) is Some,
        protocol_run(p0, evs.take(j)) is Some,
        protocol_run(p0, evs) is Some,
    ensures
        protocol_run(p0, evs.take(j)).unwrap().last_index >= protocol_run(
            p0,
            evs.take(i),
        ).unwrap().last_index,
    decreases j - i,
{
    if i < j {
        lemma_run_prefix(p0, evs, j - 1);
        lemma_run_monotone(p0, evs, i, j - 1);
        let t = evs.take(j);
        assert(t.drop_last() =~= evs.take(j - 1));
        assert(t.last() == evs[j - 1]);
        lemma_step_monotone(protocol_run(p0, evs.take(j - 1)).unwrap(), evs[j - 1]);
    } else {
    }
}

/// Id monotonicity: on any stream the daemon accepts in full, a
/// registered `Create` is followed only by `Create`s with strictly
/// larger ids.
pub proof fn lemma_create_ids_increase(evs: Seq<IconClientEventView>, i: int, j: int)
    requires
        protocol_run(protocol_init(), evs) is Some,
        0 <= i < j < evs.len(),
        (evs[i].event matches ClientEventView::Create { category, .. } && category.len() > 0),
        evs[j].event is Create,
    ensures
        evs[i].id < evs[j].id,
{
    let p0 = protocol_init();
    lemma_run_prefix(p0, evs, i);
    lemma_run_prefix(p0, evs, i + 1);
    lemma_run_prefix(p0, evs, j);
    lemma_run_prefix(p0, evs, j + 1);
    let pi = protocol_run(p0, evs.take(i)).unwrap();
    let ti1 = evs.take(i + 1);
    assert(ti1.drop_last() =~= evs.take(i));
    assert(ti1.last() == evs[i]);
    let pi1 = protocol_run(p0, ti1).unwrap();
    assert(pi1.last_index == evs[i].id);
    lemma_run_monotone(p0, evs, i + 1, j);
    let pj = protocol_run(p0, evs.take(j)).unwrap();
    assert(pj.last_index >= evs[i].id);
    let tj1 = evs.take(j + 1);
    assert(tj1.drop_last() =~= evs.take(j));
    assert(tj1.last() == evs[j]);
    assert(protocol_step(pj, evs[j]) is Some);
    assert(evs[j].id > pj.last_index);
}

/// No `Destroy` for `id` lies strictly between positions `j` and `k`.
pub open spec fn no_destroy_between(
    evs: Seq<IconClientEventView>,
    j: int,
    k: int,
    id: u64,
) -> bool {
    forall|l: int|
        j < l < k ==> !((#[trigger] evs[l].event) is Destroy && evs[l].id == id)
}

/// There is a registered `Create` for `id` before position `k` with no
/// intervening `Destroy` for it.
pub open spec fn scoped_witness(evs: Seq<IconClientEventView>, k: int, id: u64) -> bool {
    exists|j: int|
        0 <= j < k && (#[trigger] evs[j].event) is Create && evs[j].id == id && no_destroy_between(
            evs,
            j,
            k,
            id,
        )
}

proof fn lemma_live_invariant(evs: Seq<IconClientEventView>, k: int)
    requires
        0 <= k <= evs.len(),
        protocol_run(protocol_init(), evs.take(k)) is Some,
    ensures
        ({
            let p = protocol_run(protocol_init(), evs.take(k)).unwrap();
            &&& forall|a: int| 0 <= a < p.live.len() ==> #[trigger] p.live[a] <= p.last_index
            &&& forall|a: int, b: int| 0 <= a < b < p.live.len() ==> p.live[a] != p.live[b]
            &&& forall|id: u64| p.live.contains(id) ==> #[trigger] scoped_witness(evs, k, id)
        }),
    decreases k,
{
    let p0 = protocol_init();
    if k == 0 {
        assert(evs.take(0) =~= Seq::<IconClientEventView>::empty());
        let p = protocol_run(p0, evs.take(0)).unwrap();
        assert(p == p0);
        assert(forall|id: u64| !p.live.contains(id));
    } else {
        let tk = evs.take(k);
        assert(tk.drop_last() =~= evs.take(k - 1));
        assert(tk.last() == evs[k - 1]);
        lemma_live_invariant(evs, k - 1);
        let q = protocol_run(p0, evs.take(k - 1)).unwrap();
        let p = protocol_run(p0, evs.take(k)).unwrap();
        let ev = evs[k - 1];
        assert(protocol_step(q, ev) == Some(p));
        match ev.event {
            ClientEventView::Create { category, app_id, is_menu } => {
                if category.len() == 0 {
                    assert(p == q);
                    assert forall|id: u64| p.live.contains(id) implies #[trigger] scoped_witness(
                        evs,
                        k,
                        id,
                    ) by {
                        lemma_witness_extends(evs, k, id);
                    }
                } else {
                    assert(p.live =~= q.live.push(ev.id));
                    assert forall|a: int| 0 <= a < p.live.len() implies #[trigger] p.live[a]
                        <= p.last_index by {
                        if a < q.live.len() {
                            assert(q.live[a] <= q.last_index);
                        }
                    }
                    assert forall|a: int, b: int| 0 <= a < b < p.live.len() implies p.live[a]
                        != p.live[b] by {
                        if b == q.live.len() {
                            assert(p.live[a] == q.live[a]);
                            assert(q.live[a] <= q.last_index);
                        }
                    }
                    assert forall|id: u64| p.live.contains(id) implies
                        #[trigger] scoped_witness(evs, k, id) by {
                        let a = choose|a: int| 0 <= a < p.live.len() && p.live[a] == id;
                        if a < q.live.len() {
                            assert(q.live.contains(id));
                            lemma_witness_extends(evs, k, id);
                        } else {
                            assert(id == ev.id);
                            assert((evs[k - 1].event) is Create && evs[k - 1].id == id);
                            assert(no_destroy_between(evs, k - 1, k, id));
                            assert(scoped_witness(evs, k, id));
                        }
                    }
                }
            },
            ClientEventView::Destroy => {
                let di = index_of_live(q.live, ev.id);
                assert(q.live.contains(ev.id));
                assert(0 <= di < q.live.len() && q.live[di] == ev.id);
                assert(p.live =~= q.live.remove(di));
                assert forall|a: int| 0 <= a < p.live.len() implies #[trigger] p.live[a]
                    <= p.last_index by {
                    if a < di {
                        assert(p.live[a] == q.live[a]);
                    } else {
                        assert(p.live[a] == q.live[a + 1]);
                    }
                }
                assert forall|a: int, b: int| 0 <= a < b < p.live.len() implies p.live[a]
                    != p.live[b] by {
                    assert(p.live[a] == (if a < di {
                        q.live[a]
                    } else {
                        q.live[a + 1]
                    }));
                    assert(p.live[b] == (if b < di {
                        q.live[b]
                    } else {
                        q.live[b + 1]
                    }));
                }
                assert forall|id: u64| p.live.contains(id) implies #[trigger] scoped_witness(
                    evs,
                    k,
                    id,
                ) by {
                    let a = choose|a: int| 0 <= a < p.live.len() && p.live[a] == id;
                    assert(p.live[a] == (if a < di {
                        q.live[a]
                    } else {
                        q.live[a + 1]
                    }));
                    assert(q.live.contains(id));
                    assert(id != ev.id) by {
                        if a < di {
                            assert(q.live[a] != q.live[di]);
                        } else {
                            assert(q.live[di] != q.live[a + 1]);
                        }
                    }
                    lemma_witness_extends(evs, k, id);
                }
            },
            _ => {
                assert(p == q);
                assert forall|id: u64| p.live.contains(id) implies #[trigger] scoped_witness(
                    evs,
                    k,
                    id,
                ) by {
                    lemma_witness_extends(evs, k, id);
                }
            },
        }
    }
}

proof fn lemma_witness_extends(evs: Seq<IconClientEventView>, k: int, id: u64)
    requires
        1 <= k <= evs.len(),
        scoped_witness(evs, k - 1, id),
        !((evs[k - 1].event) is Destroy && evs[k - 1].id == id),
    ensures
        scoped_witness(evs, k, id),
{
    let j = choose|j: int|
        0 <= j < k - 1 && (#[trigger] evs[j].event) is Create && evs[j].id == id
            && no_destroy_between(evs, j, k - 1, id);
    assert(no_destroy_between(evs, j, k, id)) by {
        assert forall|l: int| j < l < k implies !((#[trigger] evs[l].event) is Destroy
            && evs[l].id == id) by {
            if l < k - 1 {
            }
        }
    }
    assert(0 <= j < k && (evs[j].event) is Create && evs[j].id == id);
}

/// Id scoping: on any stream the daemon accepts in full, every
/// non-`Create` event is preceded by a registered `Create` with the same
/// id and no intervening `Destroy` for that id.
pub proof fn lemma_id_scoping(evs: Seq<IconClientEventView>, k: int)
    requires
        protocol_run(protocol_init(), evs) is Some,
        0 <= k < evs.len(),
        !((evs[k].event) is Create),
    ensures
        scoped_witness(evs, k, evs[k].id),
{
    let p0 = protocol_init();
    lemma_run_prefix(p0, evs, k);
    lemma_run_prefix(p0, evs, k + 1);
    lemma_live_invariant(evs, k);
    let pk = protocol_run(p0, evs.take(k)).unwrap();
    let tk1 = evs.take(k + 1);
    assert(tk1.drop_last() =~= evs.take(k));
    assert(tk1.last() == evs[k]);
    assert(protocol_step(pk, evs[k]) is Some);
    assert(pk.live.contains(evs[k].id));
}

/// A registered `Create` (as `handle_create` installs it) is one
/// protocol step.
pub proof fn lemma_proto_create_registered(
    s1: DaemonStateView,
    s2: DaemonStateView,
    ev: IconClientEventView,
    ni: NotifierIconView,
)
    requires
        (ev.event matches ClientEventView::Create { category, .. } && category.len() > 0),
        ev.id > s1.last_index,
        ni.id == ev.id,
        s2.last_index == ev.id,
        s2.icons == s1.icons.push(ni),
    ensures
        protocol_step(proto_of(s1), ev) == Some(proto_of(s2)),
{
    assert(proto_of(s2).live =~= proto_of(s1).live.push(ev.id));
}

/// A skipped `Create` (empty category, id above the watermark) is one
/// protocol step that changes nothing.
pub proof fn lemma_proto_create_skipped(s1: DaemonStateView, ev: IconClientEventView)
    requires
        (ev.event matches ClientEventView::Create { category, .. } && category.len() == 0),
        ev.id > s1.last_index,
    ensures
        protocol_step(proto_of(s1), ev) == Some(proto_of(s1)),
{
}

/// A state mutation (as `handle_update` performs it on a signal event)
/// is one protocol step that keeps the live ids.
pub proof fn lemma_proto_update(
    s1: DaemonStateView,
    s2: DaemonStateView,
    ev: IconClientEventView,
    ni: NotifierIconView,
)
    requires
        s1.wf(),
        !(ev.event is Create),
        !(ev.event is Destroy),
        s1.has_icon(ev.id),
        ni.id == ev.id,
        s2.icons == s1.icons.update(s1.icon_index(ev.id), ni),
        s2.last_index == s1.last_index,
    ensures
        protocol_step(proto_of(s1), ev) == Some(proto_of(s2)),
{
    let i = s1.icon_index(ev.id);
    assert(0 <= i < s1.icons.len() && s1.icons[i].id == ev.id);
    assert(proto_of(s1).live[i] == ev.id);
    assert(proto_of(s1).live.contains(ev.id));
    assert(proto_of(s2).live =~= proto_of(s1).live);
}

/// A `Destroy` (as `handle_update` performs it) is one protocol step
/// that removes the addressed id.
pub proof fn lemma_proto_destroy(s1: DaemonStateView, s2: DaemonStateView, ev: IconClientEventView)
    requires
        s1.wf(),
        ev.event is Destroy,
        s1.has_icon(ev.id),
        s2.icons == s1.icons.remove(s1.icon_index(ev.id)),
        s2.last_index == s1.last_index,
    ensures
        protocol_step(proto_of(s1), ev) == Some(proto_of(s2)),
{
    let i = s1.icon_index(ev.id);
    assert(0 <= i < s1.icons.len() && s1.icons[i].id == ev.id);
    let live = proto_of(s1).live;
    assert(live[i] == ev.id);
    assert(live.contains(ev.id));
    let di = index_of_live(live, ev.id);
    assert(0 <= di < live.len() && live[di] == ev.id);
    assert(di == i) by {
        if di < i {
            assert(s1.icons[di].id != s1.icons[i].id);
        } else if di > i {
            assert(s1.icons[i].id != s1.icons[di].id);
        }
    }
    assert(proto_of(s2).live =~= live.remove(i));
}

} // verus!

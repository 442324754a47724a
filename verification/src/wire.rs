//! Event types carried between the agent and the daemon, with their
//! mathematical views.

use vstd::prelude::*;

verus! {

/// Which icon-like property of a StatusNotifierItem an event or a
/// coalescing-mask bit refers to.
#[derive(Debug, Copy, Clone, PartialEq, Eq, Structural)]
pub enum IconType {
    Normal,
    Overlay,
    Attention,
    Status,
    Title,
}

impl IconType {
    /// Bit value of this property in the per-icon observation mask.
    pub open spec fn spec_bit(self) -> u8 {
        match self {
            IconType::Normal => 1,
            IconType::Overlay => 2,
            IconType::Attention => 4,
            IconType::Status => 8,
            IconType::Title => 16,
        }
    }

    /// Bit value of this property in the per-icon observation mask,
    /// also used as the wire tag of the property.
    #[verifier::when_used_as_spec(spec_bit)]
    pub fn bit(self) -> (b: u8)
        ensures
            b == self.spec_bit(),
    {
        match self {
            IconType::Normal => 1,
            IconType::Overlay => 2,
            IconType::Attention => 4,
            IconType::Status => 8,
            IconType::Title => 16,
        }
    }
}

/// Menu interaction kinds (reserved by the protocol).
#[derive(Debug, Copy, Clone, PartialEq, Eq, Structural)]
pub enum Event {
    Clicked,
    Hovered,
    Opened,
    Closed,
}

/// One ARGB32 pixmap: `data` holds `4 * width * height` bytes.
#[derive(Debug, Clone, PartialEq)]
pub struct IconData {
    pub width: u32,
    pub height: u32,
    pub data: Vec<u8>,
}

/// Mathematical view of an [`IconData`].
pub struct IconDataView {
    pub width: u32,
    pub height: u32,
    pub data: Seq<u8>,
}

impl View for IconData {
    type V = IconDataView;

    open spec fn view(&self) -> IconDataView {
        IconDataView { width: self.width, height: self.height, data: self.data@ }
    }
}

impl DeepView for IconData {
    type V = IconDataView;

    open spec fn deep_view(&self) -> IconDataView {
        self.view()
    }
}

impl IconDataView {
    /// A pixmap is consistent when its byte count matches its dimensions
    /// and the dimensions are within the sane limit.
    pub open spec fn consistent(self) -> bool {
        &&& self.data.len() == 4 * (self.width as nat) * (self.height as nat)
        &&& self.width <= 4096
        &&& self.height <= 4096
    }
}

/// True when every pixmap in the list is consistent.
pub open spec fn consistent_list(v: Seq<IconDataView>) -> bool {
    forall|i: int| 0 <= i < v.len() ==> (#[trigger] v[i]).consistent()
}

pub open spec fn consistent_opt(v: Option<Seq<IconDataView>>) -> bool {
    match v {
        Option::None => true,
        Option::Some(s) => consistent_list(s),
    }
}

/// Tooltip state forwarded for an icon.
#[derive(Debug, Clone, PartialEq)]
pub struct Tooltip {
    pub title: String,
    pub description: String,
    pub icon_data: Vec<IconData>,
}

/// Mathematical view of a [`Tooltip`].
pub struct TooltipView {
    pub title: Seq<char>,
    pub description: Seq<char>,
    pub icon_data: Seq<IconDataView>,
}

impl View for Tooltip {
    type V = TooltipView;

    open spec fn view(&self) -> TooltipView {
        TooltipView {
            title: self.title@,
            description: self.description@,
            icon_data: self.icon_data.deep_view(),
        }
    }
}

impl DeepView for Tooltip {
    type V = TooltipView;

    open spec fn deep_view(&self) -> TooltipView {
        self.view()
    }
}

/// Guest-to-host event: observable state of one tray icon.
#[derive(Debug, Clone, PartialEq)]
pub enum ClientEvent {
    Create { category: String, app_id: String, is_menu: bool },
    Title(Option<String>),
    Status(Option<String>),
    Icon { typ: IconType, data: Vec<IconData> },
    RemoveIcon(IconType),
    Destroy,
    Tooltip { icon_data: Vec<IconData>, title: String, description: String },
    RemoveTooltip,
}

/// Mathematical view of a [`ClientEvent`].
pub enum ClientEventView {
    Create { category: Seq<char>, app_id: Seq<char>, is_menu: bool },
    Title(Option<Seq<char>>),
    Status(Option<Seq<char>>),
    Icon { typ: IconType, data: Seq<IconDataView> },
    RemoveIcon(IconType),
    Destroy,
    Tooltip { icon_data: Seq<IconDataView>, title: Seq<char>, description: Seq<char> },
    RemoveTooltip,
}

impl View for ClientEvent {
    type V = ClientEventView;

    open spec fn view(&self) -> ClientEventView {
        match self {
            ClientEvent::Create { category, app_id, is_menu } => ClientEventView::Create {
                category: category@,
                app_id: app_id@,
                is_menu: *is_menu,
            },
            ClientEvent::Title(t) => ClientEventView::Title(t.deep_view()),
            ClientEvent::Status(s) => ClientEventView::Status(s.deep_view()),
            ClientEvent::Icon { typ, data } => ClientEventView::Icon {
                typ: *typ,
                data: data.deep_view(),
            },
            ClientEvent::RemoveIcon(t) => ClientEventView::RemoveIcon(*t),
            ClientEvent::Destroy => ClientEventView::Destroy,
            ClientEvent::Tooltip { icon_data, title, description } => ClientEventView::Tooltip {
                icon_data: icon_data.deep_view(),
                title: title@,
                description: description@,
            },
            ClientEvent::RemoveTooltip => ClientEventView::RemoveTooltip,
        }
    }
}

/// Host-to-guest event: one user interaction with a republished icon.
#[derive(Debug, Clone, PartialEq)]
pub enum ServerEvent {
    Activate { x: i32, y: i32 },
    ContextMenu { x: i32, y: i32 },
    SecondaryActivate { x: i32, y: i32 },
    Scroll { delta: i32, orientation: String },
}

/// Mathematical view of a [`ServerEvent`].
pub enum ServerEventView {
    Activate { x: i32, y: i32 },
    ContextMenu { x: i32, y: i32 },
    SecondaryActivate { x: i32, y: i32 },
    Scroll { delta: i32, orientation: Seq<char> },
}

impl View for ServerEvent {
    type V = ServerEventView;

    open spec fn view(&self) -> ServerEventView {
        match self {
            ServerEvent::Activate { x, y } => ServerEventView::Activate { x: *x, y: *y },
            ServerEvent::ContextMenu { x, y } => ServerEventView::ContextMenu { x: *x, y: *y },
            ServerEvent::SecondaryActivate { x, y } => ServerEventView::SecondaryActivate {
                x: *x,
                y: *y,
            },
            ServerEvent::Scroll { delta, orientation } => ServerEventView::Scroll {
                delta: *delta,
                orientation: orientation@,
            },
        }
    }
}

/// A [`ClientEvent`] addressed to one icon.
#[derive(Debug, Clone, PartialEq)]
pub struct IconClientEvent {
    pub id: u64,
    pub event: ClientEvent,
}

/// Mathematical view of an [`IconClientEvent`].
pub struct IconClientEventView {
    pub id: u64,
    pub event: ClientEventView,
}

impl View for IconClientEvent {
    type V = IconClientEventView;

    open spec fn view(&self) -> IconClientEventView {
        IconClientEventView { id: self.id, event: self.event@ }
    }
}

/// A [`ServerEvent`] addressed to one icon.
#[derive(Debug, Clone, PartialEq)]
pub struct IconServerEvent {
    pub id: u64,
    pub event: ServerEvent,
}

/// Mathematical view of an [`IconServerEvent`].
pub struct IconServerEventView {
    pub id: u64,
    pub event: ServerEventView,
}

impl View for IconServerEvent {
    type V = IconServerEventView;

    open spec fn view(&self) -> IconServerEventView {
        IconServerEventView { id: self.id, event: self.event@ }
    }
}

} // verus!

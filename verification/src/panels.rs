//! The parts of the screen around the board.

use vstd::prelude::*;

use crate::text::same_text;

verus! {

/// Parts of the screen, a bit for each.
pub const DIRTY_STATUSBAR: u32 = 1;

pub const DIRTY_SEL_INFO: u32 = 2;

pub const DIRTY_POPUP: u32 = 4;

pub const DIRTY_STATS: u32 = 8;

pub const DIRTY_REGIONS: u32 = 16;

pub const DIRTY_AUTH: u32 = 32;

pub const DIRTY_LOG: u32 = 64;

pub const DIRTY_SNAP: u32 = 128;

pub const DIRTY_COLOR: u32 = 256;

pub const DIRTY_ONLINE: u32 = 512;

pub const DIRTY_ALL: u32 = 0xffff_ffff;

#[derive(Debug, Clone, Copy, PartialEq, Eq, Structural)]
pub enum Widget {
    Help,
    Stats,
    Online,
    Regions,
    Auth,
    Log,
    Snap,
    ColorBar,
    StatusBar,
    SelInfo,
    InfoPopup,
}

/// Every widget, in the order in which they are drawn.
pub open spec fn all_widgets() -> Seq<Widget> {
    seq![
        Widget::Help,
        Widget::Stats,
        Widget::Online,
        Widget::Regions,
        Widget::Auth,
        Widget::Log,
        Widget::Snap,
        Widget::ColorBar,
        Widget::StatusBar,
        Widget::SelInfo,
        Widget::InfoPopup,
    ]
}

pub fn widgets() -> (r: Vec<Widget>)
    ensures
        r@ == all_widgets(),
{
    let r = vec![
        Widget::Help,
        Widget::Stats,
        Widget::Online,
        Widget::Regions,
        Widget::Auth,
        Widget::Log,
        Widget::Snap,
        Widget::ColorBar,
        Widget::StatusBar,
        Widget::SelInfo,
        Widget::InfoPopup,
    ];
    assert(r@ =~= all_widgets());
    r
}

impl Widget {
    /// The name of the widget in the page.
    pub open spec fn name(self) -> Seq<char> {
        match self {
            Widget::Help => "panel-help"@,
            Widget::Stats => "panel-stats"@,
            Widget::Online => "panel-online"@,
            Widget::Regions => "panel-regions"@,
            Widget::Auth => "panel-auth"@,
            Widget::Log => "panel-log"@,
            Widget::Snap => "panel-snap"@,
            Widget::ColorBar => "colorbar"@,
            Widget::StatusBar => "statusbar"@,
            Widget::SelInfo => "sel-info"@,
            Widget::InfoPopup => "info-popup"@,
        }
    }

    /// The name of the button that opens and closes the widget.
    pub open spec fn button(self) -> Option<Seq<char>> {
        match self {
            Widget::Help => Some("btn-help"@),
            Widget::Stats => Some("btn-stats"@),
            Widget::Online => Some("btn-online"@),
            Widget::Regions => Some("btn-regions"@),
            Widget::Auth => Some("btn-auth"@),
            Widget::Log => Some("btn-log"@),
            Widget::Snap => Some("btn-snap"@),
            Widget::ColorBar => Some("btn-color"@),
            _ => None,
        }
    }

    /// The bits that call for the widget to be drawn.
    pub open spec fn bits(self) -> u32 {
        match self {
            Widget::Help => 0,
            Widget::Stats => DIRTY_STATS,
            Widget::Online => DIRTY_ONLINE,
            Widget::Regions => DIRTY_REGIONS,
            Widget::Auth => DIRTY_AUTH,
            Widget::Log => DIRTY_LOG,
            Widget::Snap => DIRTY_SNAP | DIRTY_STATUSBAR,
            Widget::ColorBar => DIRTY_COLOR,
            Widget::StatusBar => DIRTY_STATUSBAR | DIRTY_POPUP,
            Widget::SelInfo => DIRTY_SEL_INFO,
            Widget::InfoPopup => DIRTY_POPUP,
        }
    }

    pub fn id(&self) -> (r: &'static str)
        ensures
            r@ == self.name(),
    {
        match self {
            Widget::Help => "panel-help",
            Widget::Stats => "panel-stats",
            Widget::Online => "panel-online",
            Widget::Regions => "panel-regions",
            Widget::Auth => "panel-auth",
            Widget::Log => "panel-log",
            Widget::Snap => "panel-snap",
            Widget::ColorBar => "colorbar",
            Widget::StatusBar => "statusbar",
            Widget::SelInfo => "sel-info",
            Widget::InfoPopup => "info-popup",
        }
    }

    /// The widget is a panel, that can be opened, closed and moved.
    pub fn has_panel(&self) -> (r: bool)
        ensures
            r == is_panel(*self),
    {
        match self {
            Widget::StatusBar | Widget::SelInfo | Widget::InfoPopup => false,
            _ => true,
        }
    }

    pub fn btn_id(&self) -> (r: Option<&'static str>)
        ensures
            match (r, self.button()) {
                (Some(s), Some(b)) => s@ == b,
                (None, None) => true,
                _ => false,
            },
    {
        match self {
            Widget::Help => Some("btn-help"),
            Widget::Stats => Some("btn-stats"),
            Widget::Online => Some("btn-online"),
            Widget::Regions => Some("btn-regions"),
            Widget::Auth => Some("btn-auth"),
            Widget::Log => Some("btn-log"),
            Widget::Snap => Some("btn-snap"),
            Widget::ColorBar => Some("btn-color"),
            _ => None,
        }
    }

    pub fn dirty_bit(&self) -> (r: u32)
        ensures
            r == self.bits(),
    {
        match self {
            Widget::Help => 0,
            Widget::Stats => DIRTY_STATS,
            Widget::Online => DIRTY_ONLINE,
            Widget::Regions => DIRTY_REGIONS,
            Widget::Auth => DIRTY_AUTH,
            Widget::Log => DIRTY_LOG,
            Widget::Snap => DIRTY_SNAP | DIRTY_STATUSBAR,
            Widget::ColorBar => DIRTY_COLOR,
            Widget::StatusBar => DIRTY_STATUSBAR | DIRTY_POPUP,
            Widget::SelInfo => DIRTY_SEL_INFO,
            Widget::InfoPopup => DIRTY_POPUP,
        }
    }
}

/// The widget is a panel, that can be opened, closed and moved.
pub open spec fn is_panel(w: Widget) -> bool {
    !(w is StatusBar || w is SelInfo || w is InfoPopup)
}

/// `w` is the first widget with this name.
pub open spec fn is_named(name: Seq<char>, w: Widget) -> bool {
    exists|i: int|
        0 <= i < all_widgets().len() && #[trigger] all_widgets()[i] == w && w.name() == name
            && forall|j: int| 0 <= j < i ==> (#[trigger] all_widgets()[j]).name() != name
}

/// The widget with this name.
pub open spec fn widget_named(name: Seq<char>) -> Option<Widget> {
    if exists|w: Widget| is_named(name, w) {
        Some(choose|w: Widget| is_named(name, w))
    } else {
        None
    }
}

proof fn lemma_named_once(name: Seq<char>, a: Widget, b: Widget)
    requires
        is_named(name, a),
        is_named(name, b),
    ensures
        a == b,
{
    let i = choose|i: int|
        0 <= i < all_widgets().len() && #[trigger] all_widgets()[i] == a && a.name() == name
            && forall|j: int| 0 <= j < i ==> (#[trigger] all_widgets()[j]).name() != name;
    let k = choose|i: int|
        0 <= i < all_widgets().len() && #[trigger] all_widgets()[i] == b && b.name() == name
            && forall|j: int| 0 <= j < i ==> (#[trigger] all_widgets()[j]).name() != name;
    if i < k {
        assert(all_widgets()[i].name() != name);
    } else if k < i {
        assert(all_widgets()[k].name() != name);
    }
}

/// The widget with this name.
pub fn find_widget(panel_id: &str) -> (r: Option<Widget>)
    ensures
        r == widget_named(panel_id@),
{
    let all = widgets();
    let mut i: usize = 0;
    while i < all.len()
        invariant
            i <= all@.len(),
            all@ == all_widgets(),
            forall|j: int| 0 <= j < i ==> (#[trigger] all_widgets()[j]).name() != panel_id@,
        decreases all@.len() - i,
    {
        let w = all[i];
        if same_text(w.id(), panel_id) {
            proof {
                assert(all_widgets()[i as int] == w);
                assert(is_named(panel_id@, w));
                lemma_named_once(panel_id@, w, widget_named(panel_id@)->0);
            }
            return Some(w);
        }
        i = i + 1;
    }
    assert forall|w: Widget| !is_named(panel_id@, w) by {
        if is_named(panel_id@, w) {
            let k = choose|k: int|
                0 <= k < all_widgets().len() && #[trigger] all_widgets()[k] == w && w.name()
                    == panel_id@ && forall|j: int|
                    0 <= j < k ==> (#[trigger] all_widgets()[j]).name() != panel_id@;
            assert(all_widgets()[k].name() != panel_id@);
        }
    }
    None
}

/// Which panels are open.
pub struct MiniTUI {
    visible: Vec<Widget>,
}

impl View for MiniTUI {
    type V = Set<Widget>;

    closed spec fn view(&self) -> Set<Widget> {
        self.visible@.to_set()
    }
}

impl MiniTUI {
    pub fn new() -> (r: Self)
        ensures
            r@ == Set::<Widget>::empty(),
    {
        let r = MiniTUI { visible: Vec::new() };
        assert(r@ =~= Set::<Widget>::empty());
        r
    }

    pub fn shows(&self, w: Widget) -> (r: bool)
        ensures
            r == self@.contains(w),
    {
        let mut i: usize = 0;
        while i < self.visible.len()
            invariant
                i <= self.visible@.len(),
                forall|j: int| 0 <= j < i ==> self.visible@[j] != w,
            decreases self.visible@.len() - i,
        {
            if self.visible[i] == w {
                assert(self.visible@.contains(w));
                return true;
            }
            i = i + 1;
        }
        false
    }

    fn show(&mut self, w: Widget)
        ensures
            final(self)@ == old(self)@.insert(w),
    {
        self.visible.push(w);
        proof {
            let (a, b) = (old(self).visible@, self.visible@);
            assert(b == a.push(w));
            assert forall|x: Widget| b.to_set().contains(x) <==> a.to_set().insert(w).contains(
                x,
            ) by {
                if a.contains(x) {
                    let k = choose|k: int| 0 <= k < a.len() && a[k] == x;
                    assert(b[k] == x);
                }
                if b.contains(x) {
                    let k = choose|k: int| 0 <= k < b.len() && b[k] == x;
                    if k < a.len() {
                        assert(a[k] == x);
                    }
                }
                assert(b[a.len() as int] == w);
            }
            assert(self@ =~= old(self)@.insert(w));
        }
    }

    fn conceal(&mut self, w: Widget)
        ensures
            final(self)@ == old(self)@.remove(w),
    {
        let mut kept: Vec<Widget> = Vec::new();
        let mut i: usize = 0;
        while i < self.visible.len()
            invariant
                i <= self.visible@.len(),
                *self == *old(self),
                forall|x: Widget| #[trigger]
                    kept@.contains(x) <==> x != w && exists|j: int|
                        0 <= j < i && #[trigger] self.visible@[j] == x,
            decreases self.visible@.len() - i,
        {
            let v = self.visible[i];
            let ghost before = kept@;
            if v != w {
                kept.push(v);
            }
            assert forall|x: Widget| #[trigger] kept@.contains(x) <==> x != w && exists|j: int|
                0 <= j < i + 1 && #[trigger] self.visible@[j] == x by {
                let had = exists|j: int| 0 <= j < i && #[trigger] self.visible@[j] == x;
                let has = exists|j: int| 0 <= j < i + 1 && #[trigger] self.visible@[j] == x;
                assert(before.contains(x) <==> x != w && had);
                if had {
                    let j = choose|j: int| 0 <= j < i && #[trigger] self.visible@[j] == x;
                    assert(0 <= j < i + 1 && self.visible@[j] == x);
                }
                if x == v {
                    assert(self.visible@[i as int] == x);
                }
                assert(has <==> had || x == v);
                if before.contains(x) {
                    let k = choose|k: int| 0 <= k < before.len() && before[k] == x;
                    assert(kept@[k] == x);
                }
                if v != w {
                    assert(kept@[before.len() as int] == v);
                }
                if kept@.contains(x) {
                    let k = choose|k: int| 0 <= k < kept@.len() && kept@[k] == x;
                    if k < before.len() {
                        assert(before[k] == x);
                    }
                }
            }
            i = i + 1;
        }
        self.visible = kept;
        proof {
            assert forall|x: Widget| self@.contains(x) <==> old(self)@.remove(w).contains(x) by {
                let o = old(self).visible@;
                if o.contains(x) {
                    let j = choose|j: int| 0 <= j < o.len() && o[j] == x;
                    assert(0 <= j < i && o[j] == x);
                }
            }
            assert(self@ =~= old(self)@.remove(w));
        }
    }

    /// Opens a panel as an earlier visit left it.
    pub(crate) fn show_again(&mut self, w: Widget)
        ensures
            final(self)@ == old(self)@.insert(w),
    {
        self.show(w);
    }

    pub fn is_open(&self, panel_id: &str) -> (r: bool)
        ensures
            r == (widget_named(panel_id@) matches Some(w) && self@.contains(w)),
    {
        match find_widget(panel_id) {
            Some(w) => self.shows(w),
            None => false,
        }
    }

    /// Opens a panel, and tells which; none, if there is none with this name.
    pub fn open(&mut self, panel_id: &str) -> (r: Option<Widget>)
        ensures
            r == widget_named(panel_id@),
            final(self)@ == (match r {
                Some(w) => old(self)@.insert(w),
                None => old(self)@,
            }),
    {
        let found = find_widget(panel_id);
        match found {
            Some(w) => self.show(w),
            None => {},
        }
        found
    }

    /// Closes a panel, and tells which; none, if there is none with this name.
    pub fn close(&mut self, panel_id: &str) -> (r: Option<Widget>)
        ensures
            r == widget_named(panel_id@),
            final(self)@ == (match r {
                Some(w) => old(self)@.remove(w),
                None => old(self)@,
            }),
    {
        let found = find_widget(panel_id);
        match found {
            Some(w) => self.conceal(w),
            None => {},
        }
        found
    }
}

} // verus!

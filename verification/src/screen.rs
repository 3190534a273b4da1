//! What the panels around the board do.

use vstd::prelude::*;
use vstd::string::StringExecFns;

use crate::color::{has_three_pairs, Rgb};
use crate::coords::{clamp_coord, board_clamp, WorldCoords, WorldRect};
use crate::editor::{BoardView, Editor, EditorView};
use crate::fold::FoldHashMap;
use crate::msg::ClientMsg;
use crate::panels::{
    all_widgets, find_widget, widget_named, widgets, Widget, DIRTY_COLOR, DIRTY_POPUP,
    DIRTY_STATUSBAR,
};
use crate::revert::lemma_filter_push;
use crate::text::{chars_of, dec_int, push_dec_int};
use crate::ui::{AuthState, AuthView, ClientMsgView, Order, OrderView, UiView};

verus! {

impl EditorView {
    /// What opening a panel asks for.
    pub open spec fn panel_filled(self, w: Widget) -> EditorView {
        match w {
            Widget::Stats => self.sent(ClientMsgView::FetchStats).redrawn(),
            Widget::Regions => self.sent(ClientMsgView::FetchRegions).redrawn(),
            _ => self,
        }
    }

    pub open spec fn opened(self, id: Seq<char>) -> EditorView {
        (match widget_named(id) {
            Some(w) => (EditorView { panels: self.panels.insert(w), ..self }).ordered(
                OrderView::ShowPanel(id),
            ).panel_filled(w),
            None => self,
        }).ordered(OrderView::SaveLayout)
    }

    pub open spec fn closed(self, id: Seq<char>) -> EditorView {
        (match widget_named(id) {
            Some(w) => (EditorView { panels: self.panels.remove(w), ..self }).ordered(
                OrderView::HidePanel(id),
            ),
            None => self,
        }).ordered(OrderView::SaveLayout)
    }

    pub open spec fn toggled(self, id: Seq<char>) -> EditorView {
        match widget_named(id) {
            Some(w) => if self.panels.contains(w) {
                self.closed(id)
            } else {
                self.opened(id)
            },
            None => self,
        }
    }

    /// The color to write in is changed.
    pub open spec fn recolored(self, color: Rgb) -> EditorView {
        (EditorView { ui: UiView { color, ..self.ui }, ..self }).marked(
            DIRTY_COLOR,
        ).scheduled().sent(ClientMsgView::UpdateCursor { pos: self.ui.cursor.pos, color }).ordered(
            OrderView::SaveLayout,
        )
    }

    /// The user is nobody in particular again.
    pub open spec fn logged_out(self) -> EditorView {
        let v = self.sent(ClientMsgView::Logout);
        (EditorView {
            ui: UiView { my_author: v.ui.my_anon_name, auth: AuthView::Anonymous, ..v.ui },
            ..v
        }).redrawn().ordered(OrderView::Log("logged out"@, "w"@))
    }
}

impl Editor {
    pub fn open_panel(&mut self, panel_id: &str)
        ensures
            final(self)@ == old(self)@.opened(panel_id@),
            old(self).wf() ==> final(self).wf(),
    {
        match self.panels.open(panel_id) {
            Some(w) => {
                self.order(Order::ShowPanel(panel_id.to_string()));
                match w {
                    Widget::Stats => {
                        self.send_msg(ClientMsg::FetchStats);
                        self.render_all();
                    },
                    Widget::Regions => {
                        self.send_msg(ClientMsg::FetchRegions);
                        self.render_all();
                    },
                    _ => {},
                }
            },
            None => {},
        }
        self.order(Order::SaveLayout);
    }

    pub fn close_panel(&mut self, panel_id: &str)
        ensures
            final(self)@ == old(self)@.closed(panel_id@),
            old(self).wf() ==> final(self).wf(),
    {
        match self.panels.close(panel_id) {
            Some(_) => {
                self.order(Order::HidePanel(panel_id.to_string()));
            },
            None => {},
        }
        self.order(Order::SaveLayout);
    }

    /// Opens a panel that is closed, and closes one that is open.
    pub fn toggle(&mut self, panel_id: &str)
        ensures
            final(self)@ == old(self)@.toggled(panel_id@),
            old(self).wf() ==> final(self).wf(),
    {
        if self.panels.is_open(panel_id) {
            self.close_panel(panel_id);
        } else if find_widget(panel_id).is_some() {
            self.open_panel(panel_id);
        }
    }

    pub fn render_popups(&mut self)
        ensures
            final(self)@ == old(self)@.marked(DIRTY_POPUP | DIRTY_STATUSBAR).scheduled(),
            old(self).wf() ==> final(self).wf(),
    {
        self.mark_dirty(DIRTY_POPUP | DIRTY_STATUSBAR);
        self.schedule_render();
    }

    /// Which widgets are to be drawn now.
    pub fn render_dirty(&mut self) -> (r: Vec<Widget>)
        ensures
            r@ == all_widgets().filter(|w: Widget| old(self)@.dirty_bits & w.bits() != 0),
            final(self)@ == (EditorView { dirty_bits: 0, ..old(self)@ }),
            old(self).wf() ==> final(self).wf(),
    {
        let bits: u32 = self.dirty_bits;
        self.dirty_bits = 0;
        let ghost due = |w: Widget| bits & w.bits() != 0;
        let all = widgets();
        let mut out: Vec<Widget> = Vec::new();
        let mut i: usize = 0;
        assert(all@.take(0) =~= Seq::<Widget>::empty());
        assert(all@.take(0).filter(due) =~= Seq::<Widget>::empty()) by {
            reveal(Seq::filter);
        }
        while i < all.len()
            invariant
                i <= all@.len(),
                due == (|w: Widget| bits & w.bits() != 0),
                out@ == all@.take(i as int).filter(due),
            decreases all@.len() - i,
        {
            proof {
                assert(all@.take(i + 1) =~= all@.take(i as int).push(all@[i as int]));
                lemma_filter_push(all@.take(i as int), all@[i as int], due);
            }
            let w = all[i];
            if bits & w.dirty_bit() != 0 {
                out.push(w);
            }
            i = i + 1;
        }
        assert(all@.take(i as int) =~= all@);
        out
    }

    /// The screen is drawn: the board too, if anything on it has changed.
    pub fn on_frame(&mut self) -> (draw_board: bool)
        ensures
            draw_board == old(self)@.canvas_dirty,
            final(self)@ == (EditorView { raf_pending: false, canvas_dirty: false, ..old(self)@ }),
            old(self).wf() ==> final(self).wf(),
    {
        self.raf_pending = false;
        let draw = self.canvas_dirty;
        self.canvas_dirty = false;
        draw
    }

    /// Logs in, or tells that something is missing.
    pub fn request_login(&mut self, username: String, password: String)
        ensures
            final(self)@ == (if username@.len() == 0 || password@.len() == 0 {
                old(self)@.ordered(OrderView::Status("enter credentials"@))
            } else {
                old(self)@.sent(
                    ClientMsgView::Login { username: username@, password: password@ },
                )
            }),
            old(self).wf() ==> final(self).wf(),
    {
        if chars_of(username.as_str()).len() == 0 || chars_of(password.as_str()).len() == 0 {
            self.order(Order::Status("enter credentials".to_string()));
            return;
        }
        self.send_msg(ClientMsg::Login { username, password });
    }

    pub fn request_logout(&mut self)
        ensures
            final(self)@ == old(self)@.logged_out(),
            old(self).wf() ==> final(self).wf(),
    {
        self.send_msg(ClientMsg::Logout);
        self.ui.my_author = self.ui.my_anon_name.clone();
        self.ui.auth = AuthState::Anonymous;
        self.render_all();
        self.order(Order::Log("logged out".to_string(), "w".to_string()));
    }

    /// Asks for the selection to be protected.
    pub fn request_region(&mut self, label: String)
        ensures
            final(self)@ == ({
                let sel = old(self)@.ui.cursor.sel;
                if !sel.active {
                    old(self)@.ordered(OrderView::Status("select area first"@))
                } else {
                    old(self)@.sent(
                        ClientMsgView::AddRegion {
                            bounds: WorldRect::spanned(sel.span.a, sel.span.b),
                            label: if label@.len() == 0 {
                                "protected"@
                            } else {
                                label@
                            },
                        },
                    )
                }
            }),
            old(self).wf() ==> final(self).wf(),
    {
        let label = if chars_of(label.as_str()).len() == 0 {
            "protected".to_string()
        } else {
            label
        };
        if !self.ui.cursor.sel.active {
            self.order(Order::Status("select area first".to_string()));
            return;
        }
        let bounds = self.ui.cursor.sel.rect();
        self.send_msg(ClientMsg::AddRegion { bounds, label });
    }

    /// Writes in another color from here on, given as hexadecimal digits.
    pub fn set_color(&mut self, hex: &str)
        requires
            has_three_pairs(hex@),
        ensures
            final(self)@ == old(self)@.recolored(Rgb::spec_from_hex(hex@)),
            old(self).wf() ==> final(self).wf(),
    {
        let c = Rgb::from_hex(hex);
        self.ui.color = c;
        self.mark_dirty(DIRTY_COLOR);
        self.schedule_render();
        self.resend_cursor();
        self.order(Order::SaveLayout);
    }
}

/// A place as it is shown: `(x,y)`.
pub open spec fn place_shown(x: int, y: int) -> Seq<char> {
    "("@ + dec_int(x) + ","@ + dec_int(y) + ")"@
}

pub fn show_place(x: i64, y: i64) -> (r: String)
    requires
        i64::MIN < x,
        i64::MIN < y,
    ensures
        r@ == place_shown(x as int, y as int),
{
    let mut s = "(".to_string();
    push_dec_int(&mut s, x);
    s.append(",");
    push_dec_int(&mut s, y);
    s.append(")");
    s
}

/// What tells how large the selection is.
pub open spec fn sel_text(r: WorldRect) -> Seq<char> {
    place_shown(r.a.x as int, r.a.y as int) + "->"@ + place_shown(r.b.x as int, r.b.y as int)
        + " "@ + dec_int(r.b.x - r.a.x + 1) + "x"@ + dec_int(r.b.y - r.a.y + 1)
        + "  [Ctrl+P=protect | Ctrl+C=copy]"@
}

impl Editor {
    /// What tells how large the selection is, while there is one.
    pub fn sel_info(&self) -> (r: Option<String>)
        ensures
            match r {
                Some(s) => self@.ui.cursor.sel.active && s@ == sel_text(
                    WorldRect::spanned(
                        self@.ui.cursor.sel.span.a,
                        self@.ui.cursor.sel.span.b,
                    ),
                ),
                None => !self@.ui.cursor.sel.active,
            },
    {
        if !self.ui.cursor.sel.active {
            return None;
        }
        let r = self.ui.cursor.sel.rect();
        let mut s = show_place(r.a.x as i64, r.a.y as i64);
        s.append("->");
        s.append(show_place(r.b.x as i64, r.b.y as i64).as_str());
        s.append(" ");
        push_dec_int(&mut s, r.width());
        s.append("x");
        push_dec_int(&mut s, r.height());
        s.append("  [Ctrl+P=protect | Ctrl+C=copy]");
        assert(s@ =~= sel_text(r));
        Some(s)
    }

    /// Keeps the place of the cursor under a name.
    pub fn add_bookmark(&mut self, name: String)
        ensures
            final(self)@.ui.bookmarks.len() == old(self)@.ui.bookmarks.len() + 1,
            final(self)@.ui.bookmarks.drop_last() == old(self)@.ui.bookmarks,
            ({
                let b = final(self)@.ui.bookmarks.last();
                let pos = old(self)@.ui.cursor.pos;
                &&& b.1 == pos.x && b.2 == pos.y
                &&& b.0@ == (if name@.len() == 0 {
                    place_shown(pos.x as int, pos.y as int)
                } else {
                    name@
                })
            }),
            final(self)@ == (EditorView {
                ui: UiView { bookmarks: final(self)@.ui.bookmarks, ..old(self)@.ui },
                ..old(self)@
            }).redrawn().ordered(OrderView::SaveLayout),
            old(self).wf() ==> final(self).wf(),
    {
        let pos = self.ui.cursor.pos;
        let (x, y): (i64, i64) = (pos.x as i64, pos.y as i64);
        let name = if chars_of(name.as_str()).len() == 0 {
            show_place(x, y)
        } else {
            name
        };
        let ghost before = self@.ui.bookmarks;
        self.ui.bookmarks.push((name, x, y));
        assert(self@.ui.bookmarks.drop_last() =~= before);
        assert(self@ =~= (EditorView {
            ui: UiView { bookmarks: self@.ui.bookmarks, ..old(self)@.ui },
            ..old(self)@
        }));
        self.render_all();
        self.order(Order::SaveLayout);
    }

    /// Forgets a bookmark, if there is one with this number.
    pub fn remove_bookmark(&mut self, i: usize)
        ensures
            final(self)@ == (EditorView {
                ui: UiView {
                    bookmarks: if i < old(self)@.ui.bookmarks.len() {
                        old(self)@.ui.bookmarks.remove(i as int)
                    } else {
                        old(self)@.ui.bookmarks
                    },
                    ..old(self)@.ui
                },
                ..old(self)@
            }).redrawn().ordered(OrderView::SaveLayout),
            old(self).wf() ==> final(self).wf(),
    {
        if i < self.ui.bookmarks.len() {
            let _ = self.ui.bookmarks.remove(i);
        }
        self.render_all();
        self.order(Order::SaveLayout);
    }

    /// The place of a bookmark, or the middle of the board if there is none with
    /// this number.
    pub fn bookmark_place(&self, i: usize) -> (r: WorldCoords)
        ensures
            r == (if i < self@.ui.bookmarks.len() {
                WorldCoords::nearest(
                    self@.ui.bookmarks[i as int].1 as int,
                    self@.ui.bookmarks[i as int].2 as int,
                )
            } else {
                WorldCoords { x: 0, y: 0 }
            }),
    {
        if i < self.ui.bookmarks.len() {
            WorldCoords::from_i64(self.ui.bookmarks[i].1, self.ui.bookmarks[i].2)
        } else {
            WorldCoords::from_i64(0, 0)
        }
    }

    /// Takes over the bookmarks of an earlier visit, each moved onto the board.
    pub fn restore_bookmarks(&mut self, saved: Vec<(String, i64, i64)>)
        ensures
            final(self)@.ui.bookmarks.len() == saved@.len(),
            forall|i: int|
                0 <= i < saved@.len() ==> {
                    let b = #[trigger] final(self)@.ui.bookmarks[i];
                    &&& b.0 == saved@[i].0
                    &&& b.1 == board_clamp(saved@[i].1 as int)
                    &&& b.2 == board_clamp(saved@[i].2 as int)
                },
            final(self)@ == (EditorView {
                ui: UiView { bookmarks: final(self)@.ui.bookmarks, ..old(self)@.ui },
                ..old(self)@
            }),
            old(self).wf() ==> final(self).wf(),
    {
        let ghost all = saved@;
        let mut out: Vec<(String, i64, i64)> = Vec::new();
        for b in iter: saved
            invariant
                iter.seq() == all,
                out@.len() == iter.index(),
                forall|i: int|
                    0 <= i < out@.len() ==> {
                        let b = #[trigger] out@[i];
                        &&& b.0 == all[i].0
                        &&& b.1 == board_clamp(all[i].1 as int)
                        &&& b.2 == board_clamp(all[i].2 as int)
                    },
        {
            let (name, x, y) = b;
            out.push((name, clamp_coord(x) as i64, clamp_coord(y) as i64));
        }
        self.ui.bookmarks = out;
    }

    /// Stops showing refusals whose time is up.
    pub fn drop_flashes(&mut self, now: u64)
        ensures
            final(self)@ == (EditorView {
                board: BoardView {
                    flash_deny: old(self)@.board.flash_deny.restrict(
                        Set::new(
                            |p: WorldCoords|
                                old(self)@.board.flash_deny.contains_key(p) && old(
                                    self,
                                )@.board.flash_deny[p] > now,
                        ),
                    ),
                    ..old(self)@.board
                },
                ..old(self)@
            }),
            old(self).wf() ==> final(self).wf(),
    {
        let keys = self.board.flash_deny.keys();
        let ghost before = self.board.flash_deny@;
        let mut kept: FoldHashMap<WorldCoords, u64> = FoldHashMap::new();
        let mut i: usize = 0;
        while i < keys.len()
            invariant
                i <= keys@.len(),
                *self == *old(self),
                before == self.board.flash_deny@,
                keys@.no_duplicates(),
                forall|p: WorldCoords| #[trigger] keys@.contains(p) <==> before.contains_key(p),
                forall|p: WorldCoords| #[trigger]
                    kept@.contains_key(p) ==> before.contains_key(p) && kept@[p] == before[p]
                        && before[p] > now,
                forall|k: int|
                    0 <= k < i && before[#[trigger] keys@[k]] > now ==> kept@.contains_key(keys@[k]),
            decreases keys@.len() - i,
        {
            let p = keys[i];
            assert(keys@.contains(p));
            match self.board.flash_deny.get(&p) {
                Some(t) => {
                    if *t > now {
                        kept.insert(p, *t);
                    }
                },
                None => {},
            }
            i = i + 1;
        }
        proof {
            let want = before.restrict(
                Set::new(|p: WorldCoords| before.contains_key(p) && before[p] > now),
            );
            assert forall|p: WorldCoords| want.contains_key(p) implies kept@.contains_key(p) by {
                assert(keys@.contains(p));
                let k = choose|k: int| 0 <= k < keys@.len() && keys@[k] == p;
                assert(before[keys@[k]] > now);
            }
            assert(kept@ =~= want);
        }
        self.board.flash_deny = kept;
    }
}

} // verus!

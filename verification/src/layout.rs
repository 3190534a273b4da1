//! What is kept of the screen from one visit to the next.

use vstd::prelude::*;

use crate::color::{has_three_pairs, law_hex_round_trip, Rgb};
use crate::coords::board_clamp;
use crate::editor::{Editor, EditorView};
use crate::panels::{all_widgets, is_panel, widgets, Widget, DIRTY_COLOR};
use crate::revert::lemma_filter_push;
use crate::text::chars_of;
use crate::ui::UiView;

verus! {

/// A panel: whether it is open, and where it was moved to, as distances from
/// the left and from the top.
pub struct SavedPanel {
    pub widget: Widget,
    pub open: bool,
    pub left: Option<String>,
    pub top: Option<String>,
}

/// What an earlier visit left. A part that is missing is `None`.
pub struct SavedLayout {
    pub color: Option<String>,
    pub bookmarks: Option<Vec<(String, i64, i64)>>,
    pub panels: Vec<SavedPanel>,
}

/// What is to be done to a panel on the screen.
pub struct PanelStep {
    pub widget: Widget,
    pub move_to: Option<(String, String)>,
    pub show: bool,
}

impl SavedPanel {
    /// The panel was moved, and where to.
    pub open spec fn place(self) -> Option<(String, String)> {
        match (self.left, self.top) {
            (Some(l), Some(t)) => if l@.len() > 0 {
                Some((l, t))
            } else {
                None
            },
            _ => None,
        }
    }
}

/// The panels that are open in the end.
pub open spec fn with_opened(open: Set<Widget>, panels: Seq<SavedPanel>) -> Set<Widget>
    decreases panels.len(),
{
    if panels.len() == 0 {
        open
    } else {
        let before = with_opened(open, panels.drop_last());
        if panels.last().open {
            before.insert(panels.last().widget)
        } else {
            before
        }
    }
}

/// The bookmarks of an earlier visit, each moved onto the board.
pub open spec fn bookmarks_read(saved: Seq<(String, i64, i64)>, b: Seq<(String, i64, i64)>) -> bool {
    &&& b.len() == saved.len()
    &&& forall|i: int|
        0 <= i < b.len() ==> (#[trigger] b[i]).0 == saved[i].0 && b[i].1 == board_clamp(
            saved[i].1 as int,
        ) && b[i].2 == board_clamp(saved[i].2 as int)
}

impl EditorView {
    /// The editor that an earlier visit's layout leads to, `bookmarks` being what
    /// is read of its bookmarks.
    pub open spec fn laid_out(self, saved: SavedLayout, bookmarks: Seq<(String, i64, i64)>) -> EditorView {
        let a = match saved.color {
            Some(hex) => (EditorView {
                ui: UiView { color: Rgb::spec_from_hex(hex@), ..self.ui },
                ..self
            }).marked(DIRTY_COLOR),
            None => self,
        };
        (EditorView {
            ui: UiView { bookmarks, ..a.ui },
            panels: with_opened(a.panels, saved.panels@),
            ..a
        }).redrawn()
    }
}

/// The steps that put the panels where they were.
pub open spec fn steps_of(panels: Seq<SavedPanel>, steps: Seq<PanelStep>) -> bool {
    &&& steps.len() == panels.len()
    &&& forall|i: int|
        0 <= i < steps.len() ==> (#[trigger] steps[i]) == (PanelStep {
            widget: panels[i].widget,
            move_to: panels[i].place(),
            show: panels[i].open,
        })
}

impl Editor {
    /// Takes over what an earlier visit left; on a first visit, opens the help.
    pub fn load_layout(&mut self, saved: Option<SavedLayout>) -> (steps: Vec<PanelStep>)
        requires
            saved matches Some(s) ==> (s.color matches Some(hex) ==> has_three_pairs(hex@)),
        ensures
            match saved {
                None => final(self)@ == old(self)@.opened("panel-help"@) && steps@.len() == 0,
                Some(s) => {
                    &&& match s.bookmarks {
                        Some(b) => bookmarks_read(b@, final(self)@.ui.bookmarks),
                        None => final(self)@.ui.bookmarks == old(self)@.ui.bookmarks,
                    }
                    &&& final(self)@ == old(self)@.laid_out(s, final(self)@.ui.bookmarks)
                    &&& steps_of(s.panels@, steps@)
                },
            },
            old(self).wf() ==> final(self).wf(),
    {
        let mut steps: Vec<PanelStep> = Vec::new();
        let saved = match saved {
            Some(s) => s,
            None => {
                self.open_panel("panel-help");
                return steps;
            },
        };
        let ghost all = saved;
        match &saved.color {
            Some(hex) => {
                self.ui.color = Rgb::from_hex(hex.as_str());
                self.mark_dirty(DIRTY_COLOR);
            },
            None => {},
        }
        match saved.bookmarks {
            Some(b) => {
                self.restore_bookmarks(b);
            },
            None => {},
        }
        let ghost mid = self@;
        let ghost panels = saved.panels@;
        assert(panels.take(0) =~= Seq::<SavedPanel>::empty());
        assert(self@ =~= (EditorView { panels: with_opened(mid.panels, panels.take(0)), ..mid }));
        for p in iter: saved.panels
            invariant
                iter.seq() == panels,
                self@ == (EditorView {
                    panels: with_opened(mid.panels, panels.take(iter.index() as int)),
                    ..mid
                }),
                old(self).wf() ==> self.wf(),
                steps@.len() == iter.index(),
                forall|i: int|
                    0 <= i < steps@.len() ==> (#[trigger] steps@[i]) == (PanelStep {
                        widget: panels[i].widget,
                        move_to: panels[i].place(),
                        show: panels[i].open,
                    }),
        {
            let ghost n = iter.index() as int;
            assert(panels.take(n + 1).drop_last() =~= panels.take(n));
            assert(panels.take(n + 1).last() == p);
            if p.open {
                self.panels.show_again(p.widget);
            }
            let move_to = match (p.left, p.top) {
                (Some(l), Some(t)) => if chars_of(l.as_str()).len() > 0 {
                    Some((l, t))
                } else {
                    None
                },
                _ => None,
            };
            steps.push(PanelStep { widget: p.widget, move_to, show: p.open });
            assert(self@ =~= (EditorView {
                panels: with_opened(mid.panels, panels.take(n + 1)),
                ..mid
            }));
        }
        assert(panels.take(panels.len() as int) =~= panels);
        self.render_all();
        steps
    }
}

/// The widget was moved, as the list tells, and where to.
pub open spec fn moved_place(moved: Seq<(Widget, String, String)>, w: Widget) -> Option<(String, String)>
    decreases moved.len(),
{
    if moved.len() == 0 {
        None
    } else if moved.last().0 == w {
        Some((moved.last().1, moved.last().2))
    } else {
        moved_place(moved.drop_last(), w)
    }
}

/// `p` is what is kept of a panel.
pub open spec fn keeps(
    p: SavedPanel,
    w: Widget,
    open: Set<Widget>,
    moved: Seq<(Widget, String, String)>,
) -> bool {
    &&& p.widget == w
    &&& p.open == open.contains(w)
    &&& match moved_place(moved, w) {
        Some((l, t)) => p.left == Some(l) && p.top == Some(t),
        None => p.left is None && p.top is None,
    }
}

/// The widgets that are panels.
pub open spec fn all_panels() -> Seq<Widget> {
    all_widgets().filter(|w: Widget| is_panel(w))
}

fn find_place(moved: &Vec<(Widget, String, String)>, w: Widget) -> (r: Option<(String, String)>)
    ensures
        r == moved_place(moved@, w),
{
    let mut i: usize = moved.len();
    assert(moved@.take(i as int) =~= moved@);
    while i > 0
        invariant
            i <= moved@.len(),
            moved_place(moved@.take(i as int), w) == moved_place(moved@, w),
        decreases i,
    {
        assert(moved@.take(i as int).drop_last() =~= moved@.take(i - 1));
        assert(moved@.take(i as int).last() == moved@[i - 1]);
        let (v, l, t) = &moved[i - 1];
        if *v == w {
            return Some((l.clone(), t.clone()));
        }
        i = i - 1;
    }
    None
}

impl Editor {
    /// What is kept for the next visit; `moved` tells which panels stand where
    /// the user put them.
    pub fn save_layout(&self, moved: &Vec<(Widget, String, String)>) -> (r: SavedLayout)
        ensures
            r.color matches Some(hex) && hex@ == self@.ui.color.spec_to_hex(),
            r.bookmarks matches Some(b) && b@ == self@.ui.bookmarks,
            r.panels@.len() == all_panels().len(),
            forall|i: int|
                0 <= i < r.panels@.len() ==> keeps(
                    #[trigger] r.panels@[i],
                    all_panels()[i],
                    self@.panels,
                    moved@,
                ),
    {
        let mut bookmarks: Vec<(String, i64, i64)> = Vec::new();
        let mut i: usize = 0;
        while i < self.ui.bookmarks.len()
            invariant
                i <= self.ui.bookmarks@.len(),
                bookmarks@ =~= self.ui.bookmarks@.take(i as int),
            decreases self.ui.bookmarks@.len() - i,
        {
            let (n, x, y) = &self.ui.bookmarks[i];
            bookmarks.push((n.clone(), *x, *y));
            i = i + 1;
        }
        let all = widgets();
        let ghost panel = |w: Widget| is_panel(w);
        let mut panels: Vec<SavedPanel> = Vec::new();
        let mut k: usize = 0;
        assert(all@.take(0).filter(panel) =~= Seq::<Widget>::empty()) by {
            reveal(Seq::filter);
        }
        while k < all.len()
            invariant
                k <= all@.len(),
                panel == (|w: Widget| is_panel(w)),
                panels@.len() == all@.take(k as int).filter(panel).len(),
                forall|i: int|
                    0 <= i < panels@.len() ==> keeps(
                        #[trigger] panels@[i],
                        all@.take(k as int).filter(panel)[i],
                        self@.panels,
                        moved@,
                    ),
            decreases all@.len() - k,
        {
            let w = all[k];
            proof {
                assert(all@.take(k + 1) =~= all@.take(k as int).push(w));
                lemma_filter_push(all@.take(k as int), w, panel);
            }
            if w.has_panel() {
                let (left, top) = match find_place(moved, w) {
                    Some((l, t)) => (Some(l), Some(t)),
                    None => (None, None),
                };
                panels.push(SavedPanel { widget: w, open: self.panels.shows(w), left, top });
            }
            k = k + 1;
        }
        assert(all@.take(k as int) =~= all@);
        assert(bookmarks@ =~= self.ui.bookmarks@);
        SavedLayout { color: Some(self.ui.color.to_hex()), bookmarks: Some(bookmarks), panels }
    }
}

proof fn lemma_opened(open: Set<Widget>, panels: Seq<SavedPanel>, w: Widget)
    ensures
        with_opened(open, panels).contains(w) <==> open.contains(w) || exists|i: int|
            0 <= i < panels.len() && (#[trigger] panels[i]).open && panels[i].widget == w,
    decreases panels.len(),
{
    if panels.len() > 0 {
        let d = panels.drop_last();
        lemma_opened(open, d, w);
        if exists|i: int| 0 <= i < d.len() && (#[trigger] d[i]).open && d[i].widget == w {
            let i = choose|i: int| 0 <= i < d.len() && (#[trigger] d[i]).open && d[i].widget == w;
            assert(panels[i].open);
        }
        if panels.last().open && panels.last().widget == w {
            assert(panels[panels.len() - 1].open);
        }
        if exists|i: int|
            0 <= i < panels.len() && (#[trigger] panels[i]).open && panels[i].widget == w {
            let i = choose|i: int|
                0 <= i < panels.len() && (#[trigger] panels[i]).open && panels[i].widget == w;
            if i < d.len() {
                assert(d[i].open);
            }
        }
    }
}

/// What is kept at the end of a visit is there again at the start of the next:
/// the color, the bookmarks, and which panels are open.
pub proof fn law_layout_is_restored(
    kept: EditorView,
    moved: Seq<(Widget, String, String)>,
    saved: SavedLayout,
    fresh: EditorView,
    bookmarks: Seq<(String, i64, i64)>,
    w: Widget,
)
    requires
        saved.color matches Some(hex) && hex@ == kept.ui.color.spec_to_hex(),
        saved.bookmarks matches Some(b) && b@ == kept.ui.bookmarks,
        saved.panels@.len() == all_panels().len(),
        forall|i: int|
            0 <= i < saved.panels@.len() ==> keeps(
                #[trigger] saved.panels@[i],
                all_panels()[i],
                kept.panels,
                moved,
            ),
        bookmarks_read(kept.ui.bookmarks, bookmarks),
        forall|i: int|
            0 <= i < kept.ui.bookmarks.len() ==> board_clamp(
                (#[trigger] kept.ui.bookmarks[i]).1 as int,
            ) == kept.ui.bookmarks[i].1 && board_clamp(kept.ui.bookmarks[i].2 as int)
                == kept.ui.bookmarks[i].2,
        fresh.panels == Set::<Widget>::empty(),
        is_panel(w),
        all_widgets().contains(w),
    ensures
        has_three_pairs(saved.color->0@),
        fresh.laid_out(saved, bookmarks).ui.color == kept.ui.color,
        fresh.laid_out(saved, bookmarks).ui.bookmarks == kept.ui.bookmarks,
        fresh.laid_out(saved, bookmarks).panels.contains(w) <==> kept.panels.contains(w),
{
    law_hex_round_trip(kept.ui.color);
    assert(bookmarks =~= kept.ui.bookmarks) by {
        assert forall|i: int| 0 <= i < bookmarks.len() implies bookmarks[i]
            == kept.ui.bookmarks[i] by {
            assert(bookmarks[i].0 == kept.ui.bookmarks[i].0);
        }
    }
    let panel = |w: Widget| is_panel(w);
    lemma_opened(fresh.panels, saved.panels@, w);
    all_widgets().filter_lemma(panel);
    assert(all_panels().contains(w)) by {
        let k = choose|k: int| 0 <= k < all_widgets().len() && all_widgets()[k] == w;
        assert(panel(all_widgets()[k]));
    }
    let j = choose|j: int| 0 <= j < all_panels().len() && all_panels()[j] == w;
    assert(keeps(saved.panels@[j], w, kept.panels, moved));
    if exists|i: int|
        0 <= i < saved.panels@.len() && (#[trigger] saved.panels@[i]).open
            && saved.panels@[i].widget == w {
        let i = choose|i: int|
            0 <= i < saved.panels@.len() && (#[trigger] saved.panels@[i]).open
                && saved.panels@[i].widget == w;
        assert(keeps(saved.panels@[i], all_panels()[i], kept.panels, moved));
    }
}

} // verus!

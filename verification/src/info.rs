//! What the panels show.

use vstd::prelude::*;
use vstd::string::StringExecFns;

use crate::chunks::cell_at;
use crate::coords::{WorldCoords, WorldRect};
use crate::editor::{BoardState, BoardView, Editor};
use crate::link::LinkView;
use crate::msg::RegionRecord;
use crate::screen::{place_shown, show_place};
use crate::text::{dec_int, push_dec_int, same_text};
use crate::ui::HoveredLink;

verus! {

/// What is known of a region.
pub struct RegionInfo {
    pub label: String,
    pub owner: String,
    pub size: String,
    pub bounds: String,
}

/// What is known of a character.
pub struct CellInfo {
    pub ch: char,
    pub author: String,
    pub ts: i64,
    pub place: String,
}

/// Where a link leads, and what a click on it does.
pub struct LinkInfo {
    pub dest: String,
    pub action: String,
}

/// What is shown about a cell.
pub struct Popup {
    pub region: Option<RegionInfo>,
    pub cell: Option<CellInfo>,
    pub link: Option<LinkInfo>,
}

/// How large a rectangle is.
pub open spec fn size_text(r: WorldRect) -> Seq<char> {
    dec_int(r.spec_width() as int) + "x"@ + dec_int(r.spec_height() as int)
}

/// From where to where a rectangle reaches.
pub open spec fn bounds_text(r: WorldRect) -> Seq<char> {
    place_shown(r.a.x as int, r.a.y as int) + "->"@ + place_shown(r.b.x as int, r.b.y as int)
}

impl RegionInfo {
    pub open spec fn tells(self, r: RegionRecord) -> bool {
        &&& self.label@ == r.label@
        &&& self.owner@ == r.owner@
        &&& self.size@ == size_text(r.bounds)
        &&& self.bounds@ == bounds_text(r.bounds)
    }
}

impl BoardView {
    /// `info` tells of a region around `pos`, if there is one.
    pub open spec fn region_told(self, pos: WorldCoords, info: Option<RegionInfo>) -> bool {
        match info {
            Some(i) => exists|id: u32| #[trigger]
                self.regions.contains_key(id) && self.regions[id].bounds.has(pos) && i.tells(
                    self.regions[id],
                ),
            None => forall|id: u32| #[trigger]
                self.regions.contains_key(id) ==> !self.regions[id].bounds.has(pos),
        }
    }

    /// `info` tells what stands at `pos`.
    pub open spec fn cell_told(self, pos: WorldCoords, info: Option<CellInfo>) -> bool {
        match (cell_at(self.nodes, pos), info) {
            (Some(c), Some(i)) => {
                &&& i.ch == c.ch
                &&& i.author@ == self.name_of(c.author_id)
                &&& i.ts == c.ts
                &&& i.place@ == place_shown(pos.x as int, pos.y as int)
            },
            (None, None) => true,
            _ => false,
        }
    }
}

impl LinkInfo {
    pub open spec fn tells(self, l: LinkView) -> bool {
        match l {
            LinkView::Coord(p) => {
                &&& self.dest@ == dec_int(p.x as int) + ","@ + dec_int(p.y as int)
                &&& self.action@ == "go to coords"@
            },
            LinkView::Url(u) => self.dest@ == u && self.action@ == "open in new tab"@,
        }
    }
}

/// The place under the pointer, or of the cursor, as the status bar shows it.
pub fn pos_text(pos: WorldCoords) -> (r: String)
    ensures
        r@ == dec_int(pos.x as int) + ","@ + dec_int(pos.y as int),
{
    let mut s = String::new();
    push_dec_int(&mut s, pos.x as i64);
    s.append(",");
    push_dec_int(&mut s, pos.y as i64);
    assert(s@ =~= dec_int(pos.x as int) + ","@ + dec_int(pos.y as int));
    s
}

fn size_of_rect(r: &WorldRect) -> (s: String)
    ensures
        s@ == size_text(*r),
{
    let mut s = String::new();
    push_dec_int(&mut s, r.width());
    s.append("x");
    push_dec_int(&mut s, r.height());
    assert(s@ =~= size_text(*r));
    s
}

fn region_info(r: &RegionRecord) -> (i: RegionInfo)
    ensures
        i.tells(*r),
{
    let mut bounds = show_place(r.bounds.a.x as i64, r.bounds.a.y as i64);
    bounds.append("->");
    bounds.append(show_place(r.bounds.b.x as i64, r.bounds.b.y as i64).as_str());
    RegionInfo {
        label: r.label.clone(),
        owner: r.owner.clone(),
        size: size_of_rect(&r.bounds),
        bounds,
    }
}

impl BoardState {
    fn region_around(&self, pos: WorldCoords) -> (r: Option<RegionInfo>)
        ensures
            self@.region_told(pos, r),
    {
        let keys = self.regions.keys();
        let mut i: usize = 0;
        while i < keys.len()
            invariant
                i <= keys@.len(),
                forall|k: u32| #[trigger] keys@.contains(k) <==> self.regions@.contains_key(k),
                forall|k: int|
                    0 <= k < i ==> !self.regions@[#[trigger] keys@[k]].bounds.has(pos),
            decreases keys@.len() - i,
        {
            let id: u32 = keys[i];
            assert(keys@.contains(id));
            match self.regions.get(&id) {
                Some(r) => {
                    if r.bounds.contains(pos) {
                        let info = region_info(r);
                        assert(self@.regions.contains_key(id));
                        return Some(info);
                    }
                },
                None => {},
            }
            i = i + 1;
        }
        assert forall|id: u32| #[trigger] self@.regions.contains_key(id) implies !self@.regions[id].bounds.has(
            pos,
        ) by {
            assert(keys@.contains(id));
            let k = choose|k: int| 0 <= k < keys@.len() && keys@[k] == id;
            assert(!self.regions@[keys@[k]].bounds.has(pos));
        }
        None
    }

    /// What is shown about a cell, over which a link may lie.
    pub fn popup_at(&self, pos: WorldCoords, link: &Option<HoveredLink>) -> (r: Popup)
        requires
            self.chunk_manager.wf(),
        ensures
            self@.region_told(pos, r.region),
            self@.cell_told(pos, r.cell),
            match (r.link, link) {
                (Some(i), Some(l)) => i.tells(l@),
                (None, None) => true,
                _ => false,
            },
    {
        let cell = match self.chunk_manager.get_cell(pos) {
            Some(c) => Some(
                CellInfo {
                    ch: c.ch,
                    author: self.author_name(c.author_id),
                    ts: c.ts,
                    place: show_place(pos.x as i64, pos.y as i64),
                },
            ),
            None => None,
        };
        let told = match link {
            Some(HoveredLink::Coord(p)) => Some(
                LinkInfo { dest: pos_text(*p), action: "go to coords".to_string() },
            ),
            Some(HoveredLink::Url(u)) => Some(
                LinkInfo { dest: u.clone(), action: "open in new tab".to_string() },
            ),
            None => None,
        };
        Popup { region: self.region_around(pos), cell, link: told }
    }
}

/// Somebody who is online.
pub struct OnlineRow {
    pub id: u32,
    pub name: String,
    pub pos: Option<WorldCoords>,
}

/// A region in the list of regions.
pub struct RegionRow {
    pub id: u32,
    pub label: String,
    pub bounds: WorldRect,
    /// Who protects it: `you`, or a name.
    pub owner: String,
    /// It can be given up.
    pub is_mine: bool,
}

impl OnlineRow {
    pub open spec fn tells(self, b: BoardView) -> bool {
        &&& b.online_users.contains_key(self.id)
        &&& self.name@ == b.online_users[self.id].0
        &&& self.pos == (if b.remote_cursors.contains_key(self.id) {
            Some(b.remote_cursors[self.id].0)
        } else {
            None
        })
    }
}

impl RegionRow {
    pub open spec fn tells(self, r: RegionRecord, my_id: u32) -> bool {
        &&& self.id == r.id
        &&& self.label@ == r.label@
        &&& self.bounds == r.bounds
        &&& self.is_mine == (r.owner_id == my_id)
        &&& self.owner@ == (if self.is_mine {
            "you"@
        } else {
            r.owner@
        })
    }
}

/// `rows` tell of each of the regions `ids`, in this order.
pub open spec fn rows_tell(
    rows: Seq<RegionRow>,
    ids: Seq<u32>,
    regions: Map<u32, RegionRecord>,
    my_id: u32,
) -> bool {
    &&& rows.len() == ids.len()
    &&& forall|i: int|
        0 <= i < ids.len() ==> (#[trigger] rows[i]).tells(regions[ids[i]], my_id)
}

/// `ids` are those of the regions that `me` owns, or does not own, each once.
pub open spec fn lists_owned(
    ids: Seq<u32>,
    regions: Map<u32, RegionRecord>,
    me: Seq<char>,
    owned: bool,
) -> bool {
    &&& ids.no_duplicates()
    &&& forall|id: u32| #[trigger]
        ids.contains(id) <==> regions.contains_key(id) && (regions[id].owner@ == me) == owned
}

impl Editor {
    /// Those who are online, each once.
    pub fn online_rows(&self) -> (r: Vec<OnlineRow>)
        ensures
            forall|i: int| 0 <= i < r@.len() ==> (#[trigger] r@[i]).tells(self@.board),
            forall|i: int, j: int| 0 <= i < j < r@.len() ==> r@[i].id != r@[j].id,
            forall|id: u32| #[trigger]
                self@.board.online_users.contains_key(id) ==> exists|i: int|
                    0 <= i < r@.len() && (#[trigger] r@[i]).id == id,
    {
        let keys = self.board.online_users.keys();
        let mut out: Vec<OnlineRow> = Vec::new();
        let mut i: usize = 0;
        while i < keys.len()
            invariant
                i <= keys@.len(),
                keys@.no_duplicates(),
                forall|k: u32| #[trigger]
                    keys@.contains(k) <==> self.board.online_users@.contains_key(k),
                out@.len() == i,
                forall|k: int| 0 <= k < i ==> (#[trigger] out@[k]).id == keys@[k],
                forall|k: int| 0 <= k < i ==> (#[trigger] out@[k]).tells(self@.board),
            decreases keys@.len() - i,
        {
            let id: u32 = keys[i];
            assert(keys@.contains(id));
            let name = match self.board.online_users.get(&id) {
                Some(u) => u.0.clone(),
                None => String::new(),
            };
            let pos = match self.board.remote_cursors.get(&id) {
                Some(c) => Some(c.0),
                None => None,
            };
            out.push(OnlineRow { id, name, pos });
            i = i + 1;
        }
        assert forall|id: u32| #[trigger]
            self@.board.online_users.contains_key(id) implies exists|k: int|
            0 <= k < out@.len() && (#[trigger] out@[k]).id == id by {
            assert(keys@.contains(id));
            let k = choose|k: int| 0 <= k < keys@.len() && keys@[k] == id;
            assert(out@[k].id == id);
        }
        out
    }

    /// The regions, those that carry the user's name and the others.
    pub fn region_rows(&self) -> (r: (Vec<RegionRow>, Vec<RegionRow>))
        ensures
            exists|mine: Seq<u32>, others: Seq<u32>|
                {
                    &&& #[trigger] lists_owned(
                        mine,
                        self@.board.regions,
                        self@.ui.my_author,
                        true,
                    )
                    &&& #[trigger] lists_owned(
                        others,
                        self@.board.regions,
                        self@.ui.my_author,
                        false,
                    )
                    &&& rows_tell(r.0@, mine, self@.board.regions, self@.ui.my_id)
                    &&& rows_tell(r.1@, others, self@.board.regions, self@.ui.my_id)
                },
    {
        let (mine, Ghost(a)) = self.rows_owned(true);
        let (others, Ghost(b)) = self.rows_owned(false);
        assert(lists_owned(a, self@.board.regions, self@.ui.my_author, true));
        assert(lists_owned(b, self@.board.regions, self@.ui.my_author, false));
        (mine, others)
    }

    fn rows_owned(&self, owned: bool) -> (r: (Vec<RegionRow>, Ghost<Seq<u32>>))
        ensures
            lists_owned(r.1@, self@.board.regions, self@.ui.my_author, owned),
            rows_tell(r.0@, r.1@, self@.board.regions, self@.ui.my_id),
    {
        let keys = self.board.regions.keys();
        let ghost regions = self.board.regions@;
        let mut out: Vec<RegionRow> = Vec::new();
        let ghost mut ids = Seq::<u32>::empty();
        let mut i: usize = 0;
        while i < keys.len()
            invariant
                i <= keys@.len(),
                keys@.no_duplicates(),
                regions == self.board.regions@,
                forall|k: u32| #[trigger] keys@.contains(k) <==> regions.contains_key(k),
                rows_tell(out@, ids, regions, self@.ui.my_id),
                ids.no_duplicates(),
                forall|k: int| 0 <= k < ids.len() ==> keys@.take(i as int).contains(#[trigger] ids[k])
                    && (regions[ids[k]].owner@ == self@.ui.my_author) == owned,
                forall|k: int|
                    0 <= k < i && (regions[#[trigger] keys@[k]].owner@ == self@.ui.my_author)
                        == owned ==> ids.contains(keys@[k]),
            decreases keys@.len() - i,
        {
            let id: u32 = keys[i];
            assert(keys@.contains(id));
            let ghost before = ids;
            assert(keys@.take(i + 1) =~= keys@.take(i as int).push(id));
            assert(!keys@.take(i as int).contains(id)) by {
                if keys@.take(i as int).contains(id) {
                    let k = choose|k: int| 0 <= k < i && keys@.take(i as int)[k] == id;
                    assert(keys@[k] == keys@[i as int]);
                }
            }
            assert forall|x: u32| keys@.take(i as int).contains(x) implies keys@.take(
                i + 1,
            ).contains(x) by {
                let k = choose|k: int| 0 <= k < i && keys@.take(i as int)[k] == x;
                assert(keys@.take(i + 1)[k] == x);
            }
            assert(keys@.take(i + 1)[i as int] == id);
            match self.board.regions.get(&id) {
                Some(r) => {
                    if same_text(r.owner.as_str(), self.ui.my_author.as_str()) == owned {
                        let is_mine = r.owner_id == self.ui.my_id;
                        let owner = if is_mine {
                            "you".to_string()
                        } else {
                            r.owner.clone()
                        };
                        out.push(
                            RegionRow {
                                id: r.id,
                                label: r.label.clone(),
                                bounds: r.bounds,
                                owner,
                                is_mine,
                            },
                        );
                        proof {
                            ids = ids.push(id);
                            assert(ids[before.len() as int] == id);
                            assert forall|k: int| 0 <= k < before.len() implies ids[k]
                                == #[trigger] before[k] by {}
                        }
                    }
                },
                None => {},
            }
            proof {
                assert forall|k: int|
                    0 <= k < i + 1 && (regions[#[trigger] keys@[k]].owner@ == self@.ui.my_author)
                        == owned implies ids.contains(keys@[k]) by {
                    if k < i {
                        assert(before.contains(keys@[k]));
                        let j = choose|j: int| 0 <= j < before.len() && before[j] == keys@[k];
                        assert(ids[j] == keys@[k]);
                    }
                }
            }
            i = i + 1;
        }
        proof {
            assert forall|id: u32| #[trigger] ids.contains(id) <==> regions.contains_key(id) && (
            regions[id].owner@ == self@.ui.my_author) == owned by {
                if ids.contains(id) {
                    let k = choose|k: int| 0 <= k < ids.len() && ids[k] == id;
                    assert(keys@.take(i as int).contains(ids[k]));
                    assert(keys@.take(i as int) =~= keys@);
                }
                if regions.contains_key(id) {
                    assert(keys@.contains(id));
                    let k = choose|k: int| 0 <= k < keys@.len() && keys@[k] == id;
                    assert(keys@[k] == id);
                }
            }
        }
        (out, Ghost(ids))
    }
}

} // verus!

//! What client and server say to each other, and the glyph atlas file.

use std::collections::HashMap;
use vstd::prelude::*;

use crate::color::Rgb;
use crate::coords::{ChunkCoords, ChunkLocalCoords, WorldCoords, WorldRect};

verus! {

/// A character of a chunk, as it is sent to a client.
#[derive(Debug, Clone, Copy, PartialEq, Eq, Structural)]
pub struct ChunkCell {
    pub local: ChunkLocalCoords,
    pub ch: char,
    pub color: Rgb,
    pub ts: i64,
    pub author_id: u32,
}

/// One coloured block of a chunk that is seen from afar.
#[derive(Debug, Clone, Copy, PartialEq, Eq, Structural)]
pub struct LodCell {
    pub local: ChunkLocalCoords,
    pub color: Rgb,
}

#[derive(Debug, Clone)]
pub struct RegionRecord {
    pub id: u32,
    pub bounds: WorldRect,
    pub label: String,
    pub owner_id: u32,
    pub owner: String,
}

#[derive(Debug, Clone)]
pub struct AuthorStat {
    pub name: String,
    pub count: u32,
}

/// A character that a client wants written, or a place it wants cleared.
#[derive(Debug, Clone, Copy, PartialEq, Eq, Structural)]
pub struct CellWrite {
    pub pos: WorldCoords,
    pub ch: Option<char>,
    pub color: Rgb,
}

#[derive(Debug, Clone, Copy, PartialEq, Eq, Structural)]
pub struct RestoreCoord {
    pub pos: WorldCoords,
}

/// What became of one cell.
#[derive(Debug, Clone, Copy, PartialEq, Eq, Structural)]
pub struct CellUpdateEntry {
    pub pos: WorldCoords,
    pub ch: Option<char>,
    pub color: Rgb,
    pub ts: i64,
    pub author_id: u32,
}

#[derive(Debug, Clone)]
pub struct OnlineUser {
    pub user_id: u32,
    pub name: String,
    pub color: Rgb,
    pub pos: Option<WorldCoords>,
}

#[derive(Debug, Clone)]
pub enum ServerMsg {
    Welcome { author_id: u32, author: String, anon_name: String, session_token: String },
    CellUpdate { entry: CellUpdateEntry, author: String },
    CellUpdateBatch { updates: Vec<CellUpdateEntry>, authors: Vec<(u32, String)> },
    ChunkDataBatch {
        chunks: Vec<(ChunkCoords, Vec<ChunkCell>)>,
        authors: HashMap<u32, String>,
    },
    LodDataBatch { entries: Vec<(ChunkCoords, u8, Vec<LodCell>)> },
    Stats { total_cells: u32, online: u16, top_authors: Vec<AuthorStat> },
    RegionData(Vec<RegionRecord>),
    RegionAdded(RegionRecord),
    RegionRemoved { id: u32 },
    Denied { pos: WorldCoords, reason: String },
    DeniedBatch { positions: Vec<WorldCoords>, reason: String },
    Error(String),
    AuthOk { username: String, protected_cells: u32 },
    AuthFail { reason: String },
    CursorUpdate { user_id: u32, name: String, pos: WorldCoords, color: Rgb },
    CursorLeft { user_id: u32 },
    OnlineList { users: Vec<OnlineUser> },
    Kicked,
}

/// Glyph bitmaps packed into one image, one bit for each pixel, with a row of
/// the tables for each glyph.
#[derive(Debug, Clone)]
pub struct FontAtlasFile {
    pub atlas_w: u16,
    pub atlas_h: u16,
    pub cell_w: u8,
    pub cell_h: u8,
    pub codepoints: Vec<u32>,
    pub atlas_x: Vec<u16>,
    pub atlas_y: Vec<u16>,
    pub w: Vec<u8>,
    pub h: Vec<u8>,
    pub cell_off_x: Vec<i8>,
    pub cell_off_y: Vec<i8>,
    pub pixels_1bit: Vec<u8>,
}

#[derive(Debug, Clone)]
pub enum ClientMsg {
    SetCellBatch { cells: Vec<CellWrite>, commit: bool },
    RestoreCellBatch { cells: Vec<RestoreCoord> },
    FetchChunkBatch { chunks: Vec<ChunkCoords> },
    FetchLodBatch { entries: Vec<(ChunkCoords, u8)> },
    FetchStats,
    FetchRegions,
    AddRegion { bounds: WorldRect, label: String },
    RemoveRegion { id: u32 },
    Login { username: String, password: String },
    Logout,
    UpdateViewport(WorldRect),
    UpdateCursor { pos: WorldCoords, color: Rgb },
}

} // verus!

//! A shared text canvas: the board and its addressing, the server state that
//! people edit together, the log that makes edits durable, and the editor that
//! draws and changes the board.

pub mod access;
pub mod actions;
pub mod admin;
pub mod asking;
pub mod auth;
pub mod chunks;
pub mod client;
pub mod codec;
pub mod color;
pub mod connection;
pub mod coords;
pub mod correction;
pub mod drawing;
pub mod edit;
pub mod editor;
pub mod entering;
pub mod error;
pub mod fetch;
pub mod fold;
pub mod font;
pub mod guard;
pub mod hearing;
pub mod history;
pub mod holding;
pub mod http;
pub mod hydrate;
pub mod info;
pub mod keeping;
pub mod keys;
pub mod layout;
pub mod leading;
pub mod lettering;
pub mod link;
pub mod logbook;
pub mod login;
pub mod migrate;
pub mod model;
pub mod msg;
pub mod nav;
pub mod news;
pub mod paint;
pub mod panels;
pub mod parse;
pub mod playing;
pub mod pointer;
pub mod preview;
pub mod protocol;
pub mod query;
pub mod rate;
pub mod reading;
pub mod records;
pub mod region;
pub mod replay;
pub mod revert;
pub mod ruler;
pub mod scene;
pub mod screen;
pub mod segment;
pub mod serving;
pub mod session;
pub mod sight;
pub mod snapshot;
pub mod sort;
pub mod state;
pub mod steering;
pub mod summary;
pub mod survey;
pub mod table;
pub mod telling;
pub mod text;
pub mod typing;
pub mod ui;
pub mod video;
pub mod world;

//! A note-graph engine for a plain-text zettelkasten: it extracts wiki-style
//! links and tags from note text, keeps a queryable index of note records,
//! propagates renames across every file that references a changed note, and
//! derives graph views (backlinks, ghosts, isolated notes) from the index.

pub mod pattern;
pub mod text;
pub mod zettel;
pub mod index;
pub mod propagate;
pub mod backlinks;
pub mod order;

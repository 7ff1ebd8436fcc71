//! Text logic of a small macOS text viewer: number formatting for the status
//! bar, word detection and highlight ranges, file names, line counts and the
//! check on URLs that the viewer fetches.

pub mod thousands;
pub mod text_offsets;
pub mod words;
pub mod highlight;
pub mod document;
pub mod url;

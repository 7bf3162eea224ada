//! A time-synchronized lyric parser: it turns a raw lyric document whose
//! lines are prefixed with bracketed time tags into an ordered timeline of
//! text spans, each carrying a start and an end playback offset.

pub mod document;
pub mod line;
pub mod model;
pub mod time_tag;

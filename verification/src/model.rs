use vstd::prelude::*;

verus! {

/// A timed span of display text. The parser works at line granularity, so a
/// word carries a whole display line; the text bytes are owned, so a parse
/// result outlives the document buffer it came from.
pub struct LyricWord {
    /// Playback offset at which the text becomes current, in milliseconds.
    pub start_time: usize,
    /// Playback offset at which the next span starts, in milliseconds; the
    /// last span of a timeline ends at its own start.
    pub end_time: usize,
    /// The display text, taken verbatim from the source line.
    pub word: Vec<u8>,
}

/// One display line of the assembled timeline. The two-level shape leaves
/// room for formats that time single words; this parser always produces
/// exactly one word per line.
pub struct LyricLine {
    pub words: Vec<LyricWord>,
}

/// The mathematical content of a run of words whose end times are not yet
/// known: each word as a pair of its start offset and its text.
pub open spec fn words_entries(s: Seq<LyricWord>) -> Seq<(usize, Seq<u8>)> {
    Seq::new(s.len(), |k: int| (s[k].start_time, s[k].word@))
}

} // verus!

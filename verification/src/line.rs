use vstd::prelude::*;
use vstd::slice::{slice_subrange, slice_to_vec};

use crate::model::{LyricLine, LyricWord};
use crate::time_tag::{lemma_time_tag_consumed, parse_time, spec_time_tag};

verus! {

/// The ASCII line feed byte.
pub const LINE_FEED: u8 = 10;

/// The ASCII carriage return byte.
pub const CARRIAGE_RETURN: u8 = 13;

/// True of the two bytes that end a physical line.
pub open spec fn is_break(b: u8) -> bool {
    b == LINE_FEED || b == CARRIAGE_RETURN
}

/// The first position at or after `i` holding a line break byte, or the end
/// of the sequence if none follows.
pub open spec fn break_scan(s: Seq<u8>, i: int) -> int
    decreases s.len() - i,
{
    if i < 0 || i >= s.len() {
        i
    } else if !is_break(s[i]) {
        break_scan(s, i + 1)
    } else {
        i
    }
}

/// The offsets of the maximal run of leading time tags of `s`, in the order
/// written. A tag whose offset does not fit a machine word ends the run, as
/// it cannot be represented; so does any malformed tag.
pub open spec fn spec_tags(s: Seq<u8>) -> Seq<usize>
    decreases s.len(),
{
    match spec_time_tag(s) {
        Some(p) => {
            if p.1 > usize::MAX {
                Seq::empty()
            } else if 1 <= p.0 <= s.len() {
                seq![p.1 as usize] + spec_tags(s.skip(p.0))
            } else {
                seq![p.1 as usize]
            }
        },
        None => Seq::empty(),
    }
}

/// The position right after the maximal run of leading time tags of `s`.
pub open spec fn spec_tags_end(s: Seq<u8>) -> int
    decreases s.len(),
{
    match spec_time_tag(s) {
        Some(p) => {
            if p.1 > usize::MAX {
                0
            } else if 1 <= p.0 <= s.len() {
                p.0 + spec_tags_end(s.skip(p.0))
            } else {
                p.0
            }
        },
        None => 0,
    }
}

/// The display text of a line: everything between the last leading time tag
/// and the first line break, verbatim, leading whitespace included.
pub open spec fn spec_line_text(s: Seq<u8>) -> Seq<u8> {
    s.subrange(spec_tags_end(s), break_scan(s, spec_tags_end(s)))
}

/// Where parsing one line stops: after the display text and one line ending
/// (a line feed or a carriage return and line feed pair), if one follows it.
pub open spec fn spec_line_rest(s: Seq<u8>) -> int {
    let q = break_scan(s, spec_tags_end(s));
    if q >= s.len() {
        s.len() as int
    } else if s[q] == LINE_FEED {
        q + 1
    } else if q + 1 < s.len() && s[q] == CARRIAGE_RETURN && s[q + 1] == LINE_FEED {
        q + 2
    } else {
        q
    }
}

/// The end of the run of non-break bytes that starts at `from`.
fn break_run(src: &[u8], from: usize) -> (r: usize)
    requires
        from <= src@.len(),
    ensures
        r as int == break_scan(src@, from as int),
        from <= r <= src@.len(),
{
    let mut i = from;
    while i < src.len() && src[i] != LINE_FEED && src[i] != CARRIAGE_RETURN
        invariant
            from <= i <= src@.len(),
            break_scan(src@, from as int) == break_scan(src@, i as int),
        decreases src@.len() - i,
    {
        i = i + 1;
    }
    i
}

/// Parses one physical line: one or more leading time tags, then the rest of
/// the line verbatim as display text. Yields one lyric line per tag, each
/// holding a single word whose start offset is that tag's value, whose end
/// offset is a placeholder of zero, and whose text is the shared trailing
/// text; empty trailing text is an empty string, not a failure. Yields
/// nothing exactly when no leading tag is found, and then consumes nothing.
pub fn parse_line(src: &[u8]) -> (r: Option<(usize, Vec<LyricLine>)>)
    ensures
        r is Some <==> spec_tags(src@).len() > 0,
        r matches Some(p) ==> ({
            &&& p.0 as int == spec_line_rest(src@)
            &&& p.1@.len() == spec_tags(src@).len()
            &&& forall|k: int|
                0 <= k < p.1@.len() ==> {
                    &&& (#[trigger] p.1@[k]).words@.len() == 1
                    &&& p.1@[k].words@[0].start_time == spec_tags(src@)[k]
                    &&& p.1@[k].words@[0].end_time == 0
                    &&& p.1@[k].words@[0].word@ == spec_line_text(src@)
                }
        }),
{
    let n = src.len();
    let mut i: usize = 0;
    let mut times: Vec<usize> = Vec::new();
    proof {
        assert(src@.skip(0) =~= src@);
        assert(Seq::<usize>::empty() + spec_tags(src@) =~= spec_tags(src@));
    }
    loop
        invariant
            i <= n,
            n == src@.len(),
            spec_tags(src@) == times@ + spec_tags(src@.skip(i as int)),
            spec_tags_end(src@) == i + spec_tags_end(src@.skip(i as int)),
        ensures
            times@ == spec_tags(src@),
            i as int == spec_tags_end(src@),
            i <= n,
            n == src@.len(),
        decreases n - i,
    {
        let sub = slice_subrange(src, i, n);
        proof {
            assert(sub@ =~= src@.skip(i as int));
        }
        match parse_time(sub) {
            Some(pair) => {
                let adv = pair.0;
                let t = pair.1;
                proof {
                    lemma_time_tag_consumed(sub@);
                    assert(src@.skip(i as int).skip(adv as int) =~= src@.skip((i + adv) as int));
                    assert(times@.push(t) =~= times@ + seq![t]);
                    assert((times@ + seq![t]) + spec_tags(src@.skip((i + adv) as int)) =~= times@
                        + (seq![t] + spec_tags(src@.skip((i + adv) as int))));
                }
                times.push(t);
                i = i + adv;
            },
            None => {
                proof {
                    assert(spec_tags(src@.skip(i as int)) =~= Seq::<usize>::empty());
                    assert(times@ + Seq::<usize>::empty() =~= times@);
                }
                break ;
            },
        }
    }
    if times.len() == 0 {
        return None;
    }
    let q = break_run(src, i);
    let text = slice_subrange(src, i, q);
    proof {
        assert(text@ =~= spec_line_text(src@));
    }
    let rest: usize = if q == n {
        q
    } else if src[q] == LINE_FEED {
        q + 1
    } else if q + 1 < n && src[q] == CARRIAGE_RETURN && src[q + 1] == LINE_FEED {
        q + 2
    } else {
        q
    };
    assert(rest as int == spec_line_rest(src@));
    let mut lines: Vec<LyricLine> = Vec::new();
    let mut k: usize = 0;
    while k < times.len()
        invariant
            k <= times@.len(),
            times@ == spec_tags(src@),
            text@ == spec_line_text(src@),
            lines@.len() == k,
            forall|j: int|
                0 <= j < k ==> {
                    &&& (#[trigger] lines@[j]).words@.len() == 1
                    &&& lines@[j].words@[0].start_time == spec_tags(src@)[j]
                    &&& lines@[j].words@[0].end_time == 0
                    &&& lines@[j].words@[0].word@ == spec_line_text(src@)
                },
        decreases times@.len() - k,
    {
        let w = slice_to_vec(text);
        let t = times[k];
        let mut words: Vec<LyricWord> = Vec::new();
        words.push(LyricWord { start_time: t, end_time: 0, word: w });
        lines.push(LyricLine { words });
        k = k + 1;
    }
    Some((rest, lines))
}

} // verus!

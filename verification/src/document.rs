use vstd::prelude::*;
use vstd::slice::slice_subrange;

use crate::line::{parse_line, spec_line_text, spec_tags, LINE_FEED};
use crate::model::{words_entries, LyricLine, LyricWord};

verus! {

/// A parsed entry before end times are known: a start offset and its text.
pub type Entry = (usize, Seq<u8>);

/// A finished timeline entry: start offset, end offset, text.
pub type TimedEntry = (usize, usize, Seq<u8>);

/// The first position at or after `i` holding a line feed, or the end of the
/// sequence if none follows.
pub open spec fn lf_scan(s: Seq<u8>, i: int) -> int
    decreases s.len() - i,
{
    if i < 0 || i >= s.len() {
        i
    } else if s[i] != LINE_FEED {
        lf_scan(s, i + 1)
    } else {
        i
    }
}

/// The physical lines of a document: the pieces between line feeds, the
/// trailing piece without a terminator included, and no empty piece after a
/// final line feed. A carriage return stays in its piece; the line parser
/// treats it as end of text.
pub open spec fn spec_doc_lines(s: Seq<u8>) -> Seq<Seq<u8>>
    decreases s.len(),
{
    if s.len() == 0 {
        Seq::empty()
    } else {
        let j = lf_scan(s, 0);
        if 0 <= j < s.len() {
            seq![s.subrange(0, j)] + spec_doc_lines(s.skip(j + 1))
        } else {
            seq![s]
        }
    }
}

/// The entries one physical line contributes: one per leading time tag, all
/// sharing the line's display text, in the order the tags were written.
pub open spec fn spec_line_entries(l: Seq<u8>) -> Seq<Entry> {
    Seq::new(spec_tags(l).len(), |k: int| (spec_tags(l)[k], spec_line_text(l)))
}

/// All entries of a document, line by line, in encounter order.
pub open spec fn spec_doc_entries(ls: Seq<Seq<u8>>) -> Seq<Entry>
    decreases ls.len(),
{
    if ls.len() == 0 {
        Seq::empty()
    } else {
        spec_line_entries(ls.first()) + spec_doc_entries(ls.drop_first())
    }
}

/// Non-decreasing by start offset.
pub open spec fn sorted_by_start(s: Seq<Entry>) -> bool {
    forall|i: int, j: int| 0 <= i <= j < s.len() ==> s[i].0 <= s[j].0
}

/// Inserts `e` into the sorted sequence `s` after every entry whose start
/// offset does not exceed `e`'s, so entries with equal starts keep their
/// encounter order.
pub open spec fn spec_insert_sorted(e: Entry, s: Seq<Entry>) -> Seq<Entry>
    decreases s.len(),
{
    if s.len() == 0 {
        seq![e]
    } else if s.first().0 <= e.0 {
        seq![s.first()] + spec_insert_sorted(e, s.drop_first())
    } else {
        seq![e] + s
    }
}

/// Stable insertion sort by start offset: entries with equal starts keep the
/// order in which they were encountered.
pub open spec fn spec_stable_sort(s: Seq<Entry>) -> Seq<Entry>
    decreases s.len(),
{
    if s.len() == 0 {
        Seq::empty()
    } else {
        spec_insert_sorted(s.last(), spec_stable_sort(s.drop_last()))
    }
}

/// Attaches end times: each entry ends where its successor starts, and the
/// last entry ends at its own start, marking that no successor is known.
pub open spec fn spec_with_end_times(s: Seq<Entry>) -> Seq<TimedEntry> {
    Seq::new(
        s.len(),
        |k: int|
            (
                s[k].0,
                if k + 1 < s.len() {
                    s[k + 1].0
                } else {
                    s[k].0
                },
                s[k].1,
            ),
    )
}

/// The whole assembly: split the document into physical lines, parse each
/// line (dropping those without a leading time tag), stable-sort all entries
/// by start offset, and attach end times.
pub open spec fn spec_parse_lrc(s: Seq<u8>) -> Seq<TimedEntry> {
    spec_with_end_times(spec_stable_sort(spec_doc_entries(spec_doc_lines(s))))
}

/// A scan that meets a line feed at `j`, and nothing before `j`, stops at
/// `j`.
proof fn lemma_lf_scan_unique(s: Seq<u8>, i: int, j: int)
    requires
        0 <= i <= j <= s.len(),
        forall|k: int| i <= k < j ==> s[k] != LINE_FEED,
        j < s.len() ==> s[j] == LINE_FEED,
    ensures
        lf_scan(s, i) == j,
    decreases j - i,
{
    if i < j {
        lemma_lf_scan_unique(s, i + 1, j);
    }
}

/// Appending a line to a document appends the line's entries.
pub proof fn lemma_doc_entries_push(ls: Seq<Seq<u8>>, l: Seq<u8>)
    ensures
        spec_doc_entries(ls.push(l)) == spec_doc_entries(ls) + spec_line_entries(l),
    decreases ls.len(),
{
    if ls.len() == 0 {
        assert(ls.push(l).drop_first() =~= ls);
        assert(ls.push(l).first() == l);
        assert(spec_doc_entries(ls) =~= Seq::<Entry>::empty());
        assert(spec_line_entries(l) + Seq::<Entry>::empty() =~= spec_line_entries(l));
        assert(Seq::<Entry>::empty() + spec_line_entries(l) =~= spec_line_entries(l));
        assert(spec_doc_entries(ls.push(l)) =~= spec_doc_entries(ls) + spec_line_entries(l));
    } else {
        lemma_doc_entries_push(ls.drop_first(), l);
        assert(ls.push(l).drop_first() =~= ls.drop_first().push(l));
        assert(ls.push(l).first() == ls.first());
        assert(spec_doc_entries(ls.push(l)) =~= spec_doc_entries(ls) + spec_line_entries(l));
    }
}

/// Insertion adds exactly one entry.
pub proof fn lemma_insert_sorted_len(e: Entry, s: Seq<Entry>)
    ensures
        spec_insert_sorted(e, s).len() == s.len() + 1,
    decreases s.len(),
{
    if s.len() > 0 && s.first().0 <= e.0 {
        lemma_insert_sorted_len(e, s.drop_first());
    }
}

/// Insertion into a sorted sequence keeps it sorted.
pub proof fn lemma_insert_sorted_sorted(e: Entry, s: Seq<Entry>)
    requires
        sorted_by_start(s),
    ensures
        sorted_by_start(spec_insert_sorted(e, s)),
    decreases s.len(),
{
    if s.len() > 0 && s.first().0 <= e.0 {
        assert(sorted_by_start(s.drop_first()));
        lemma_insert_sorted_sorted(e, s.drop_first());
        lemma_insert_sorted_len(e, s.drop_first());
        let r = spec_insert_sorted(e, s);
        let inner = spec_insert_sorted(e, s.drop_first());
        assert(forall|k: int| 0 <= k < inner.len() ==> r[k + 1] == inner[k]);
        assert(inner.len() > 0 && s.first().0 <= inner[0].0);
        assert forall|i: int, j: int| 0 <= i <= j < r.len() implies r[i].0 <= r[j].0 by {
            if 0 < i {
                assert(r[i] == inner[i - 1] && r[j] == inner[j - 1]);
            } else if 0 < j {
                assert(r[j] == inner[j - 1]);
                assert(inner[0].0 <= inner[j - 1].0);
            }
        }
    }
}

/// A stably sorted sequence is sorted.
pub proof fn lemma_stable_sort_sorted(s: Seq<Entry>)
    ensures
        sorted_by_start(spec_stable_sort(s)),
    decreases s.len(),
{
    if s.len() > 0 {
        lemma_stable_sort_sorted(s.drop_last());
        lemma_insert_sorted_sorted(s.last(), spec_stable_sort(s.drop_last()));
    }
}

/// Sorting one more entry is inserting it into the sorted rest.
pub proof fn lemma_stable_sort_push(s: Seq<Entry>, e: Entry)
    ensures
        spec_stable_sort(s.push(e)) == spec_insert_sorted(e, spec_stable_sort(s)),
{
    assert(s.push(e).drop_last() =~= s);
    assert(s.push(e).last() == e);
}

/// Where the insertion lands: right before the first entry whose start
/// offset exceeds the new entry's.
pub proof fn lemma_insert_sorted_split(e: Entry, s: Seq<Entry>, i: int)
    requires
        0 <= i <= s.len(),
        forall|j: int| 0 <= j < i ==> s[j].0 <= e.0,
        i < s.len() ==> s[i].0 > e.0,
    ensures
        spec_insert_sorted(e, s) == s.take(i) + seq![e] + s.skip(i),
    decreases i,
{
    if i == 0 {
        assert(spec_insert_sorted(e, s) =~= s.take(0) + seq![e] + s.skip(0));
    } else {
        assert(s.first().0 <= e.0);
        lemma_insert_sorted_split(e, s.drop_first(), i - 1);
        assert(spec_insert_sorted(e, s) =~= s.take(i) + seq![e] + s.skip(i));
    }
}

/// A line with no leading time tag contributes nothing: dropping it from a
/// document leaves the entries unchanged.
pub proof fn lemma_untimed_line_dropped(ls: Seq<Seq<u8>>, i: int)
    requires
        0 <= i < ls.len(),
        spec_tags(ls[i]).len() == 0,
    ensures
        spec_doc_entries(ls) == spec_doc_entries(ls.remove(i)),
    decreases i,
{
    if i == 0 {
        assert(spec_line_entries(ls[0]) =~= Seq::<Entry>::empty());
        assert(ls.remove(0) =~= ls.drop_first());
        assert(spec_doc_entries(ls) =~= spec_doc_entries(ls.remove(0)));
    } else {
        lemma_untimed_line_dropped(ls.drop_first(), i - 1);
        assert(ls.remove(i).first() == ls.first());
        assert(ls.remove(i).drop_first() =~= ls.drop_first().remove(i - 1));
        assert(spec_doc_entries(ls) =~= spec_doc_entries(ls.remove(i)));
    }
}

/// A document all of whose lines lack a leading time tag assembles to the
/// empty timeline; so does the empty document.
pub proof fn lemma_all_untimed_empty(s: Seq<u8>)
    requires
        forall|i: int|
            0 <= i < spec_doc_lines(s).len() ==> spec_tags(#[trigger] spec_doc_lines(s)[i]).len()
                == 0,
    ensures
        spec_parse_lrc(s).len() == 0,
{
    lemma_doc_entries_untimed(spec_doc_lines(s));
}

/// Helper: a run of untimed lines yields no entries.
proof fn lemma_doc_entries_untimed(ls: Seq<Seq<u8>>)
    requires
        forall|i: int| 0 <= i < ls.len() ==> spec_tags(#[trigger] ls[i]).len() == 0,
    ensures
        spec_doc_entries(ls).len() == 0,
    decreases ls.len(),
{
    if ls.len() > 0 {
        assert(spec_line_entries(ls.first()).len() == 0);
        lemma_doc_entries_untimed(ls.drop_first());
    }
}

/// The end of the run of non-line-feed bytes that starts at `from`.
fn lf_run(src: &[u8], from: usize) -> (r: usize)
    requires
        from <= src@.len(),
    ensures
        from <= r <= src@.len(),
        forall|k: int| from <= k < r ==> src@[k] != LINE_FEED,
        r < src@.len() ==> src@[r as int] == LINE_FEED,
{
    let mut i = from;
    while i < src.len() && src[i] != LINE_FEED
        invariant
            from <= i <= src@.len(),
            forall|k: int| from <= k < i ==> src@[k] != LINE_FEED,
        decreases src@.len() - i,
    {
        i = i + 1;
    }
    i
}

/// Parses a whole lyric document into its finished timeline, as
/// `spec_parse_lrc` lays it out: lines without a leading time tag are
/// silently dropped, the entries are stably sorted by start offset, and each
/// entry ends where its successor starts (the last at its own start). The
/// result is never an error: a document with no parseable line yields an
/// empty timeline.
pub fn parse_lrc(src: &[u8]) -> (r: Vec<LyricLine>)
    ensures
        r@.len() == spec_parse_lrc(src@).len(),
        forall|k: int|
            0 <= k < r@.len() ==> {
                &&& (#[trigger] r@[k]).words@.len() == 1
                &&& r@[k].words@[0].start_time == spec_parse_lrc(src@)[k].0
                &&& r@[k].words@[0].end_time == spec_parse_lrc(src@)[k].1
                &&& r@[k].words@[0].word@ == spec_parse_lrc(src@)[k].2
            },
        forall|k: int|
            0 <= k && k + 1 < r@.len() ==> (#[trigger] r@[k]).words@[0].start_time <= r@[k
                + 1].words@[0].start_time,
        forall|k: int|
            0 <= k && k + 1 < r@.len() ==> (#[trigger] r@[k]).words@[0].end_time == r@[k
                + 1].words@[0].start_time,
        r@.len() > 0 ==> r@[r@.len() - 1].words@[0].end_time == r@[r@.len()
            - 1].words@[0].start_time,
{
    let n = src.len();
    let mut sorted: Vec<LyricWord> = Vec::new();
    let mut pos: usize = 0;
    let ghost mut done: Seq<Seq<u8>> = Seq::empty();
    proof {
        assert(src@.skip(0) =~= src@);
        assert(Seq::<Seq<u8>>::empty() + spec_doc_lines(src@) =~= spec_doc_lines(src@));
        assert(words_entries(sorted@) =~= spec_stable_sort(spec_doc_entries(done)));
    }
    while pos < n
        invariant
            pos <= n,
            n == src@.len(),
            spec_doc_lines(src@) == done + spec_doc_lines(src@.skip(pos as int)),
            words_entries(sorted@) == spec_stable_sort(spec_doc_entries(done)),
        decreases n - pos,
    {
        let e = lf_run(src, pos);
        let line = slice_subrange(src, pos, e);
        let next_pos = if e == n {
            e
        } else {
            e + 1
        };
        proof {
            let sk = src@.skip(pos as int);
            assert(forall|k: int| 0 <= k < sk.len() ==> sk[k] == src@[pos + k]);
            lemma_lf_scan_unique(sk, 0, e - pos);
            assert(sk.subrange(0, e - pos) =~= line@);
            if e < n {
                assert(sk.skip(e - pos + 1) =~= src@.skip(next_pos as int));
                assert(spec_doc_lines(sk) == seq![line@] + spec_doc_lines(
                    src@.skip(next_pos as int),
                ));
            } else {
                assert(sk =~= line@);
                assert(spec_doc_lines(src@.skip(next_pos as int)) =~= Seq::<Seq<u8>>::empty());
                assert(seq![line@] + spec_doc_lines(src@.skip(next_pos as int)) =~= seq![line@]);
            }
            assert(done + (seq![line@] + spec_doc_lines(src@.skip(next_pos as int))) =~= done.push(
                line@,
            ) + spec_doc_lines(src@.skip(next_pos as int)));
        }
        let parsed = parse_line(line);
        match parsed {
            None => {
                proof {
                    lemma_doc_entries_push(done, line@);
                    assert(spec_line_entries(line@) =~= Seq::<Entry>::empty());
                    assert(spec_doc_entries(done) + spec_line_entries(line@) =~= spec_doc_entries(
                        done,
                    ));
                    done = done.push(line@);
                }
            },
            Some(p) => {
                let mut rest_lines = p.1;
                let total = rest_lines.len();
                let ghost lentries = spec_line_entries(line@);
                let ghost base = spec_doc_entries(done);
                let mut t: usize = 0;
                proof {
                    assert(lentries.take(0) =~= Seq::<Entry>::empty());
                    assert(base + lentries.take(0) =~= base);
                }
                while t < total
                    invariant
                        t <= total,
                        total as int == lentries.len(),
                        total as int == spec_tags(line@).len(),
                        lentries == spec_line_entries(line@),
                        rest_lines@.len() == total - t,
                        forall|j: int|
                            0 <= j < rest_lines@.len() ==> {
                                &&& (#[trigger] rest_lines@[j]).words@.len() == 1
                                &&& rest_lines@[j].words@[0].start_time == spec_tags(line@)[t + j]
                                &&& rest_lines@[j].words@[0].word@ == spec_line_text(line@)
                            },
                        words_entries(sorted@) == spec_stable_sort(base + lentries.take(t as int)),
                    decreases total - t,
                {
                    let mut ll = rest_lines.remove(0);
                    let w = ll.words.remove(0);
                    let ghost entry = lentries[t as int];
                    proof {
                        assert((w.start_time, w.word@) == entry);
                    }
                    let mut ins: usize = 0;
                    while ins < sorted.len() && sorted[ins].start_time <= w.start_time
                        invariant
                            ins <= sorted@.len(),
                            forall|j: int| 0 <= j < ins ==> sorted@[j].start_time <= w.start_time,
                        decreases sorted@.len() - ins,
                    {
                        ins = ins + 1;
                    }
                    proof {
                        let cur = base + lentries.take(t as int);
                        let scur = spec_stable_sort(cur);
                        lemma_stable_sort_sorted(cur);
                        assert(forall|j: int| 0 <= j < ins ==> scur[j].0 <= entry.0);
                        assert(ins < scur.len() ==> scur[ins as int].0 > entry.0);
                        lemma_insert_sorted_split(entry, scur, ins as int);
                        lemma_stable_sort_push(cur, entry);
                        assert(cur.push(entry) =~= base + lentries.take(t as int + 1));
                    }
                    sorted.insert(ins, w);
                    proof {
                        let cur = base + lentries.take(t as int);
                        let scur = spec_stable_sort(cur);
                        assert(words_entries(sorted@) =~= scur.take(ins as int) + seq![entry]
                            + scur.skip(ins as int));
                        assert(words_entries(sorted@) == spec_stable_sort(
                            base + lentries.take(t as int + 1),
                        ));
                    }
                    t = t + 1;
                }
                proof {
                    lemma_doc_entries_push(done, line@);
                    assert(lentries.take(total as int) =~= lentries);
                    done = done.push(line@);
                    assert(spec_doc_entries(done) == base + lentries);
                }
            },
        }
        pos = next_pos;
    }
    proof {
        assert(src@.skip(n as int) =~= Seq::<u8>::empty());
        assert(spec_doc_lines(src@.skip(n as int)) =~= Seq::<Seq<u8>>::empty());
        assert(done + Seq::<Seq<u8>>::empty() =~= done);
        assert(done == spec_doc_lines(src@));
    }
    let ghost sseq = spec_stable_sort(spec_doc_entries(spec_doc_lines(src@)));
    let ghost fin = spec_parse_lrc(src@);
    proof {
        lemma_stable_sort_sorted(spec_doc_entries(spec_doc_lines(src@)));
        assert(words_entries(sorted@) =~= sseq.skip(0));
    }
    let mut result: Vec<LyricLine> = Vec::new();
    while sorted.len() > 0
        invariant
            words_entries(sorted@) == sseq.skip(result@.len() as int),
            result@.len() + sorted@.len() == sseq.len(),
            sorted_by_start(sseq),
            fin == spec_with_end_times(sseq),
            forall|k: int|
                0 <= k < result@.len() ==> {
                    &&& (#[trigger] result@[k]).words@.len() == 1
                    &&& result@[k].words@[0].start_time == fin[k].0
                    &&& result@[k].words@[0].end_time == fin[k].1
                    &&& result@[k].words@[0].word@ == fin[k].2
                },
        decreases sorted@.len(),
    {
        let ghost d = result@.len() as int;
        proof {
            assert(words_entries(sorted@)[0] == sseq.skip(d)[0]);
            assert(sseq.skip(d)[0] == sseq[d]);
            if sorted@.len() > 1 {
                assert(words_entries(sorted@)[1] == sseq.skip(d)[1]);
                assert(sseq.skip(d)[1] == sseq[d + 1]);
            }
        }
        let w = sorted.remove(0);
        proof {
            assert(forall|k: int|
                0 <= k < sorted@.len() ==> #[trigger] words_entries(sorted@)[k] == sseq.skip(d)[k
                    + 1]);
            assert(forall|k: int|
                0 <= k < sorted@.len() ==> #[trigger] sseq.skip(d + 1)[k] == sseq.skip(d)[k + 1]);
            assert(words_entries(sorted@) =~= sseq.skip(d + 1));
        }
        let end = if sorted.len() == 0 {
            w.start_time
        } else {
            sorted[0].start_time
        };
        proof {
            assert((w.start_time, w.word@) == sseq[d]);
            if sorted@.len() > 0 {
                assert(words_entries(sorted@)[0] == sseq.skip(d + 1)[0]);
                assert((sorted@[0].start_time, sorted@[0].word@) == sseq[d + 1]);
            }
            assert(end == fin[d].1);
        }
        let mut words: Vec<LyricWord> = Vec::new();
        words.push(LyricWord { start_time: w.start_time, end_time: end, word: w.word });
        result.push(LyricLine { words });
    }
    proof {
        lemma_timeline_sorted_inner(sseq, fin);
    }
    result
}

/// Helper: transfers sortedness of the entry sequence to the finished
/// timeline's start and end offsets.
proof fn lemma_timeline_sorted_inner(sseq: Seq<Entry>, fin: Seq<TimedEntry>)
    requires
        sorted_by_start(sseq),
        fin == spec_with_end_times(sseq),
    ensures
        forall|k: int| 0 <= k && k + 1 < fin.len() ==> (#[trigger] fin[k]).0 <= fin[k + 1].0,
        forall|k: int| 0 <= k && k + 1 < fin.len() ==> (#[trigger] fin[k]).1 == fin[k + 1].0,
        fin.len() > 0 ==> fin[fin.len() - 1].1 == fin[fin.len() - 1].0,
{
}

/// The assembled timeline is non-decreasing by start offset.
pub proof fn lemma_timeline_sorted(s: Seq<u8>)
    ensures
        forall|k: int|
            0 <= k && k + 1 < spec_parse_lrc(s).len() ==> (#[trigger] spec_parse_lrc(s)[k]).0
                <= spec_parse_lrc(s)[k + 1].0,
{
    lemma_stable_sort_sorted(spec_doc_entries(spec_doc_lines(s)));
}

/// No timeline entry ends before it starts: its end is either its
/// successor's start, which sorting keeps at or after its own, or its own
/// start.
pub proof fn lemma_start_not_after_end(s: Seq<u8>)
    ensures
        forall|k: int|
            0 <= k < spec_parse_lrc(s).len() ==> (#[trigger] spec_parse_lrc(s)[k]).0
                <= spec_parse_lrc(s)[k].1,
{
    lemma_stable_sort_sorted(spec_doc_entries(spec_doc_lines(s)));
}

/// Every timeline entry ends where its successor starts; the last entry ends
/// at its own start.
pub proof fn lemma_timeline_end_times(s: Seq<u8>)
    ensures
        forall|k: int|
            0 <= k && k + 1 < spec_parse_lrc(s).len() ==> (#[trigger] spec_parse_lrc(s)[k]).1
                == spec_parse_lrc(s)[k + 1].0,
        spec_parse_lrc(s).len() > 0 ==> spec_parse_lrc(s)[spec_parse_lrc(s).len() - 1].1
            == spec_parse_lrc(s)[spec_parse_lrc(s).len() - 1].0,
{
}

} // verus!

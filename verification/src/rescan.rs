//! Lines that a scan writes out as they are: lines in which the scan finds
//! nothing but the placeholders that an earlier scan has put in.

use vstd::prelude::*;
use vstd::seq_lib::lemma_multiset_commutative;
use crate::config::Profile;
use crate::laws::joined;
use crate::negative::{
    cut_start, lemma_remove_span_behind, lemma_remove_span_concat, remainders, remove_span,
};
use crate::order::{lemma_sorted_by_start_of_rearranged, rising_starts, sorted_by_start, Spanned};
use crate::parse::{line_end, line_output, lines_output, lines_session, visible};
use crate::range::Range;
use crate::ranges::{remove_closed, Spans};
use crate::render::{
    concat, fragment_bytes, fragments, newline, placeholder, string_fragments, text_fragments,
    Fragment, Piece,
};
use crate::scanner::Session;

verus! {

/// The offset up to which the strings reach: the end of the last one.
pub open spec fn covered(closed: Seq<Range>) -> int {
    if closed.len() == 0 {
        0
    } else {
        closed.last().end as int
    }
}

/// Whether the strings `closed` stand in the line one behind the other, each
/// holding exactly the bytes `mark`, and none starting one byte behind the
/// string before it or one byte behind the start of the line.
pub open spec fn placeholders_in(line: Seq<u8>, mark: Seq<u8>, closed: Seq<Range>) -> bool
    decreases closed.len(),
{
    closed.len() == 0 || {
        let before = closed.drop_last();
        let last = closed.last();
        &&& placeholders_in(line, mark, before)
        &&& covered(before) <= last.start < last.end <= line.len()
        &&& last.start != covered(before) + 1
        &&& line.subrange(last.start as int, last.end as int) == mark
    }
}

/// The visible interval between the offset `from` and a string that starts
/// at `to`, if there is one.
pub open spec fn gap(from: int, to: int) -> Seq<Range> {
    if to - 1 > from {
        seq![Range { start: from as usize, end: (to - 1) as usize }]
    } else {
        Seq::empty()
    }
}

/// The visible intervals in front of and between the strings.
pub open spec fn gaps(closed: Seq<Range>) -> Seq<Range>
    decreases closed.len(),
{
    if closed.len() == 0 {
        Seq::empty()
    } else {
        gaps(closed.drop_last()) + gap(covered(closed.drop_last()), closed.last().start as int)
    }
}

/// The visible interval behind the last string, if the line goes on there.
pub open spec fn rest(closed: Seq<Range>, line_len: usize) -> Seq<Range> {
    if line_len > covered(closed) {
        seq![Range { start: covered(closed) as usize, end: line_len }]
    } else {
        Seq::empty()
    }
}

/// A placeholder for each string.
pub open spec fn marks(closed: Seq<Range>) -> Seq<Fragment> {
    closed.map_values(|r: Range| Fragment { range: r, kind: Piece::Placeholder })
}

/// The fragments up to the end of the last string, in the order of the
/// line: the text in front of each string, then its placeholder.
pub open spec fn body(closed: Seq<Range>) -> Seq<Fragment>
    decreases closed.len(),
{
    if closed.len() == 0 {
        Seq::empty()
    } else {
        body(closed.drop_last()) + text_fragments(
            gap(covered(closed.drop_last()), closed.last().start as int),
        ) + seq![Fragment { range: closed.last(), kind: Piece::Placeholder }]
    }
}

/// What holds of the strings of a line that are placeholders, and of the
/// intervals between them.
proof fn lemma_gaps(line: Seq<u8>, mark: Seq<u8>, closed: Seq<Range>)
    requires
        placeholders_in(line, mark, closed),
    ensures
        0 <= covered(closed) <= line.len(),
        forall|i: int|
            0 <= i < gaps(closed).len() ==> (#[trigger] gaps(closed)[i]).start < gaps(closed)[i].end
                < covered(closed),
        forall|i: int|
            0 <= i < body(closed).len() ==> (#[trigger] body(closed)[i]).range.start < covered(
                closed,
            ),
        rising_starts(body(closed)),
        body(closed).to_multiset() == (text_fragments(gaps(closed)) + marks(closed)).to_multiset(),
        concat(line, mark, body(closed)) == line.subrange(0, covered(closed)),
    decreases closed.len(),
{
    if closed.len() == 0 {
        assert(text_fragments(gaps(closed)) + marks(closed) =~= body(closed));
        assert(concat(line, mark, body(closed)) =~= line.subrange(0, 0));
    } else {
        let before = closed.drop_last();
        let last = closed.last();
        let from = covered(before);
        lemma_gaps(line, mark, before);
        let between = gap(from, last.start as int);
        let mark_last = Fragment { range: last, kind: Piece::Placeholder };

        let g = gaps(closed);
        assert forall|i: int| 0 <= i < g.len() implies (#[trigger] g[i]).start < g[i].end < covered(
            closed,
        ) by {
            if i < gaps(before).len() {
                assert(g[i] == gaps(before)[i]);
            } else {
                assert(g[i] == between[i - gaps(before).len()]);
            }
        }

        let b = body(closed);
        let b0 = body(before);
        let texts = text_fragments(between);
        assert(b == b0 + texts + seq![mark_last]);
        assert forall|i: int| 0 <= i < b.len() implies (#[trigger] b[i]).range.start < covered(
            closed,
        ) by {
            if i < b0.len() {
                assert(b[i] == b0[i]);
            } else if i < b0.len() + texts.len() {
                assert(b[i] == texts[i - b0.len()]);
            } else {
                assert(b[i] == mark_last);
            }
        }
        assert forall|i: int, j: int| 0 <= i < j < b.len() implies (#[trigger] b[i]).range.start < (
        #[trigger] b[j]).range.start by {
            if j < b0.len() {
                assert(b[i] == b0[i] && b[j] == b0[j]);
                assert(b0[i].span_start() < b0[j].span_start());
            } else if i < b0.len() {
                assert(b[i] == b0[i]);
                if j < b0.len() + texts.len() {
                    assert(b[j] == texts[j - b0.len()]);
                } else {
                    assert(b[j] == mark_last);
                }
            } else {
                assert(b[i] == texts[i - b0.len()]);
                assert(b[j] == mark_last);
            }
        }
        assert(rising_starts(b)) by {
            assert forall|i: int, j: int| 0 <= i < j < b.len() implies (#[trigger] b[i]).span_start()
                < (#[trigger] b[j]).span_start() by {
                assert(b[i].range.start < b[j].range.start);
            }
        }

        // The same fragments, in the order in which they are collected.
        let collected = text_fragments(g) + marks(closed);
        assert(text_fragments(g) =~= text_fragments(gaps(before)) + texts);
        assert(marks(closed) =~= marks(before) + seq![mark_last]);
        lemma_multiset_commutative(text_fragments(gaps(before)), marks(before));
        lemma_multiset_commutative(text_fragments(gaps(before)), texts);
        lemma_multiset_commutative(marks(before), seq![mark_last]);
        lemma_multiset_commutative(text_fragments(g), marks(closed));
        lemma_multiset_commutative(b0, texts);
        lemma_multiset_commutative(b0 + texts, seq![mark_last]);
        assert(b.to_multiset() =~= collected.to_multiset());

        lemma_concat_of_parts(line, mark, b0 + texts, seq![mark_last]);
        lemma_concat_of_parts(line, mark, b0, texts);
        assert(concat(line, mark, seq![mark_last]) =~= mark) by {
            assert(seq![mark_last].drop_last() =~= Seq::<Fragment>::empty());
            assert(concat(line, mark, Seq::<Fragment>::empty()) =~= Seq::<u8>::empty());
        }
        if last.start - 1 > from {
            let text = Fragment {
                range: Range { start: from as usize, end: (last.start - 1) as usize },
                kind: Piece::Text,
            };
            assert(texts =~= seq![text]);
            assert(concat(line, mark, seq![text]) =~= line.subrange(from, last.start as int)) by {
                assert(seq![text].drop_last() =~= Seq::<Fragment>::empty());
                assert(concat(line, mark, Seq::<Fragment>::empty()) =~= Seq::<u8>::empty());
            }
        } else {
            assert(texts =~= Seq::<Fragment>::empty());
            assert(concat(line, mark, texts) =~= Seq::<u8>::empty());
            assert(last.start == from);
            assert(line.subrange(from, last.start as int) =~= Seq::<u8>::empty());
        }
        assert(line.subrange(0, from) + line.subrange(from, last.start as int) + line.subrange(
            last.start as int,
            last.end as int,
        ) =~= line.subrange(0, last.end as int));
    }
}

/// The bytes of fragments that come in two parts are the bytes of the one
/// part and then those of the other.
pub proof fn lemma_concat_of_parts(line: Seq<u8>, mark: Seq<u8>, front: Seq<Fragment>, back: Seq<Fragment>)
    ensures
        concat(line, mark, front + back) == concat(line, mark, front) + concat(line, mark, back),
    decreases back.len(),
{
    if back.len() == 0 {
        assert(front + back =~= front);
        assert(concat(line, mark, front) + concat(line, mark, back) =~= concat(line, mark, front));
    } else {
        lemma_concat_of_parts(line, mark, front, back.drop_last());
        assert((front + back).drop_last() =~= front + back.drop_last());
        assert((front + back).last() == back.last());
        assert(concat(line, mark, front) + (concat(line, mark, back.drop_last()) + fragment_bytes(
            line,
            mark,
            back.last(),
        )) =~= concat(line, mark, front) + concat(line, mark, back.drop_last()) + fragment_bytes(
            line,
            mark,
            back.last(),
        ));
    }
}

/// What is visible of a line whose strings are placeholders: what stands in
/// front of and between the strings, and what stands behind the last one.
proof fn lemma_visible_around_placeholders(line: Seq<u8>, mark: Seq<u8>, closed: Seq<Range>)
    requires
        placeholders_in(line, mark, closed),
        0 < line.len() <= usize::MAX,
    ensures
        remove_closed(seq![Range { start: 0, end: line.len() as usize }], closed) == gaps(closed)
            + rest(closed, line.len() as usize),
    decreases closed.len(),
{
    let len = line.len() as usize;
    let whole = seq![Range { start: 0, end: len }];
    if closed.len() == 0 {
        assert(gaps(closed) + rest(closed, len) =~= whole);
    } else {
        let before = closed.drop_last();
        let last = closed.last();
        let from = covered(before);
        lemma_visible_around_placeholders(line, mark, before);
        lemma_gaps(line, mark, before);
        let held = gaps(before) + rest(before, len);
        assert(remove_closed(whole, closed) == remove_span(held, last.start, last.end));
        lemma_remove_span_concat(gaps(before), rest(before, len), last.start, last.end);
        assert forall|i: int| 0 <= i < gaps(before).len() implies (#[trigger] gaps(before)[i]).start
            < gaps(before)[i].end <= cut_start(last.start) by {
        }
        lemma_remove_span_behind(gaps(before), last.start, last.end);
        let tail = Range { start: from as usize, end: len };
        assert(rest(before, len) =~= seq![tail]);
        assert(seq![tail].drop_last() =~= Seq::<Range>::empty());
        assert(remove_span(Seq::<Range>::empty(), last.start, last.end) =~= Seq::<Range>::empty());
        assert(remove_span(seq![tail], last.start, last.end) =~= remainders(
            tail,
            last.start,
            last.end,
        ));
        assert(remainders(tail, last.start, last.end) =~= gap(from, last.start as int) + rest(
            closed,
            len,
        ));
        assert(gaps(before) + (gap(from, last.start as int) + rest(closed, len)) =~= gaps(closed)
            + rest(closed, len));
    }
}

/// Whether a scan finds nothing in the line that it would take out: at the
/// end of the line there is no line comment and no multi-line comment and,
/// unless strings are kept, no open string, and the closed strings are
/// placeholders.
pub open spec fn reads_as_written(profile: Profile, session: Session, line: Seq<u8>) -> bool {
    let end = line_end(profile, session, line);
    &&& end.line_range.is_unset()
    &&& end.session.multiline_ranges == Spans::empty()
    &&& !profile.keep_strings ==> {
        &&& end.session.string_ranges.open.len() == 0
        &&& placeholders_in(line, placeholder(profile.strings), end.session.string_ranges.closed)
    }
}

/// A line in which a scan finds nothing that it would take out is written
/// out as it is, followed by a line break.
pub proof fn lemma_line_reads_as_written(profile: Profile, session: Session, line: Seq<u8>)
    requires
        reads_as_written(profile, session, line),
        line.len() <= usize::MAX,
    ensures
        line_output(profile, session, line) == line + newline(),
{
    let len = line.len() as usize;
    let end = line_end(profile, session, line);
    let whole = seq![Range { start: 0, end: len }];
    let mark = placeholder(profile.strings);
    let strings = end.session.string_ranges;
    if len == 0 {
        assert(line + newline() =~= newline());
    } else if profile.keep_strings {
        assert(visible(true, end, len) == whole);
        let text = Fragment { range: whole[0], kind: Piece::Text };
        let pieces = fragments(true, whole, strings, len);
        assert(pieces =~= seq![text]);
        assert(pieces.drop_last() =~= Seq::<Fragment>::empty());
        assert(sorted_by_start(pieces.drop_last()) =~= Seq::<Fragment>::empty());
        assert(sorted_by_start(pieces) =~= seq![text]);
        assert(concat(line, mark, Seq::<Fragment>::empty()) =~= Seq::<u8>::empty());
        assert(seq![text].drop_last() =~= Seq::<Fragment>::empty());
        assert(concat(line, mark, seq![text]) =~= line.subrange(0, line.len() as int));
        assert(line.subrange(0, line.len() as int) =~= line);
    } else {
        let closed = strings.closed;
        lemma_visible_around_placeholders(line, mark, closed);
        lemma_gaps(line, mark, closed);
        assert(strings.open =~= Seq::<usize>::empty());
        let seen = gaps(closed) + rest(closed, len);
        assert(visible(false, end, len) == seen);
        let collected = fragments(false, seen, strings, len);
        assert(string_fragments(strings, len) =~= marks(closed));
        assert(text_fragments(seen) =~= text_fragments(gaps(closed)) + text_fragments(
            rest(closed, len),
        ));
        let texts = text_fragments(gaps(closed));
        let tail = text_fragments(rest(closed, len));
        assert(collected == texts + tail + marks(closed));
        let in_order = body(closed) + tail;

        assert forall|i: int, j: int| 0 <= i < j < in_order.len() implies (
        #[trigger] in_order[i]).span_start() < (#[trigger] in_order[j]).span_start() by {
            if j < body(closed).len() {
                assert(in_order[i] == body(closed)[i] && in_order[j] == body(closed)[j]);
            } else {
                assert(in_order[i] == body(closed)[i]);
                assert(in_order[j] == tail[j - body(closed).len()]);
            }
        }
        lemma_multiset_commutative(texts, tail);
        lemma_multiset_commutative(texts + tail, marks(closed));
        lemma_multiset_commutative(texts, marks(closed));
        lemma_multiset_commutative(body(closed), tail);
        assert(collected.to_multiset() =~= in_order.to_multiset());
        lemma_sorted_by_start_of_rearranged(collected, in_order);

        lemma_concat_of_parts(line, mark, body(closed), tail);
        if len > covered(closed) {
            let last = Fragment {
                range: Range { start: covered(closed) as usize, end: len },
                kind: Piece::Text,
            };
            assert(tail =~= seq![last]);
            assert(seq![last].drop_last() =~= Seq::<Fragment>::empty());
            assert(concat(line, mark, Seq::<Fragment>::empty()) =~= Seq::<u8>::empty());
            assert(concat(line, mark, tail) =~= line.subrange(covered(closed), len as int));
        } else {
            assert(tail =~= Seq::<Fragment>::empty());
            assert(concat(line, mark, tail) =~= Seq::<u8>::empty());
            assert(line.subrange(covered(closed), len as int) =~= Seq::<u8>::empty());
        }
        assert(line.subrange(0, covered(closed)) + line.subrange(covered(closed), len as int)
            =~= line);
    }
}

/// Whether a scan that goes through the lines from the state `session` on
/// finds nothing in any of them that it would take out.
pub open spec fn all_read_as_written(profile: Profile, session: Session, lines: Seq<Seq<u8>>) -> bool
    decreases lines.len(),
{
    lines.len() == 0 || {
        &&& all_read_as_written(profile, session, lines.drop_last())
        &&& reads_as_written(
            profile,
            lines_session(profile, session, lines.drop_last()),
            lines.last(),
        )
        &&& lines.last().len() <= usize::MAX
    }
}

/// Lines in which a scan finds nothing that it would take out are written
/// out as they are, each followed by a line break.
pub proof fn lemma_lines_read_as_written(profile: Profile, session: Session, lines: Seq<Seq<u8>>)
    requires
        all_read_as_written(profile, session, lines),
    ensures
        lines_output(profile, session, lines) == joined(lines),
    decreases lines.len(),
{
    if lines.len() > 0 {
        let init = lines.drop_last();
        lemma_lines_read_as_written(profile, session, init);
        lemma_line_reads_as_written(profile, lines_session(profile, session, init), lines.last());
        assert(joined(init) + (lines.last() + newline()) =~= joined(init) + lines.last() + newline());
    }
}

/// What the lines become in the output, line by line and without the line
/// breaks.
pub open spec fn written_lines(profile: Profile, session: Session, lines: Seq<Seq<u8>>) -> Seq<Seq<u8>>
    decreases lines.len(),
{
    if lines.len() == 0 {
        Seq::empty()
    } else {
        written_lines(profile, session, lines.drop_last()).push(
            line_output(
                profile,
                lines_session(profile, session, lines.drop_last()),
                lines.last(),
            ).drop_last(),
        )
    }
}

/// The output of a scan is made of one line for each line of the input, each
/// ended by a line break.
pub proof fn lemma_output_is_written_lines(profile: Profile, session: Session, lines: Seq<Seq<u8>>)
    ensures
        written_lines(profile, session, lines).len() == lines.len(),
        lines_output(profile, session, lines) == joined(written_lines(profile, session, lines)),
    decreases lines.len(),
{
    if lines.len() > 0 {
        let init = lines.drop_last();
        lemma_output_is_written_lines(profile, session, init);
        let out = line_output(profile, lines_session(profile, session, init), lines.last());
        assert(out =~= out.drop_last() + newline());
        let written = written_lines(profile, session, lines);
        assert(written.drop_last() =~= written_lines(profile, session, init));
        assert(joined(written) =~= joined(written_lines(profile, session, init)) + out);
    }
}

/// Scanning once more what a scan has written gives the same again, where
/// the second scan finds nothing in it that it would take out: no comment,
/// and no string but the placeholders.
pub proof fn lemma_rescan_of_written_output(profile: Profile, session: Session, lines: Seq<Seq<u8>>)
    requires
        all_read_as_written(profile, Session::fresh(), written_lines(profile, session, lines)),
    ensures
        lines_output(profile, Session::fresh(), written_lines(profile, session, lines))
            == lines_output(profile, session, lines),
{
    lemma_output_is_written_lines(profile, session, lines);
    lemma_lines_read_as_written(profile, Session::fresh(), written_lines(profile, session, lines));
}

} // verus!

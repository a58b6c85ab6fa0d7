//! What holds of every scan.

use vstd::prelude::*;
use crate::blacklist::{accepted_blacklist, drop_blacklisted, overlaps_any};
use crate::config::Profile;
use crate::negative::{
    ascending, lemma_remove_span_ascending, lemma_remove_span_within, remainders, remove_span,
    within,
};
use crate::order::{ascending_starts, lemma_sorted_by_start, sorted_by_start};
use crate::parse::{
    line_end, line_matches, line_output, line_session, line_start, lines_output, lines_session,
    visible,
};
use crate::range::Range;
use crate::ranges::{
    lemma_remove_closed_ascending, lemma_remove_open_ascending, remove_closed, remove_open, Spans,
};
use crate::render::{concat, fragments, newline, placeholder, Fragment, Piece};
use crate::rescan::{lemma_line_reads_as_written, reads_as_written};
use crate::scanner::{lemma_replay_settled, replay, step, LineState, Session};
use crate::token::{all_matches, in_line, lemma_all_matches_in_line, Match, TokenKind};

verus! {

/// The lines, each followed by a line break.
pub open spec fn joined(lines: Seq<Seq<u8>>) -> Seq<u8>
    decreases lines.len(),
{
    if lines.len() == 0 {
        Seq::empty()
    } else {
        joined(lines.drop_last()) + lines.last() + newline()
    }
}

/// A line comment that starts within an earlier line comment changes
/// nothing: the line is excluded from the first one on.
pub proof fn lemma_second_line_comment_is_inert(nested: bool, state: LineState, m: Match, line_len: usize)
    requires
        line_len < usize::MAX,
        m.kind == TokenKind::LineComment,
        state.line_range.start <= m.range.start,
        state.line_range.start < state.line_range.end,
        state.line_range.end == line_len + 1,
    ensures
        step(nested, state, m, line_len) == state,
{
}

/// A line comment covers the line from its token to behind the end of the
/// line, whatever covered part of the line before.
pub proof fn lemma_line_comment_runs_to_line_end(nested: bool, state: LineState, m: Match, line_len: usize)
    requires
        line_len < usize::MAX,
        m.kind == TokenKind::LineComment,
        m.range.start <= line_len,
        !state.session.multiline_ranges.contains(m.range.start),
        !state.session.string_ranges.contains(m.range.start),
        state.line_range.is_unset() || state.line_range.end == line_len + 1,
    ensures
        step(nested, state, m, line_len).session == state.session,
        step(nested, state, m, line_len).line_range.end == line_len + 1,
        step(nested, state, m, line_len).line_range.spec_contains(m.range.start),
{
}

/// The token of a multi-line comment or of a string that starts within a
/// line comment changes nothing.
pub proof fn lemma_token_in_line_comment_is_inert(nested: bool, state: LineState, m: Match, line_len: usize)
    requires
        m.kind != TokenKind::LineComment,
        state.line_range.spec_contains(m.range.start),
    ensures
        step(nested, state, m, line_len) == state,
{
}

/// A line-comment token that starts within a multi-line comment or within a
/// string changes nothing.
pub proof fn lemma_line_comment_in_span_is_inert(nested: bool, state: LineState, m: Match, line_len: usize)
    requires
        m.kind == TokenKind::LineComment,
        state.session.multiline_ranges.contains(m.range.start) || state.session.string_ranges.contains(
            m.range.start,
        ),
    ensures
        step(nested, state, m, line_len) == state,
{
}

/// Once a line comment has started, the tokens in the rest of the line change
/// nothing: whichever tokens `rest` holds from the start of the comment on,
/// the state stays as it was.
pub proof fn lemma_rest_of_line_is_inert(nested: bool, state: LineState, rest: Seq<Match>, line_len: usize)
    requires
        line_len < usize::MAX,
        state.line_range.start < state.line_range.end,
        state.line_range.end == line_len + 1,
        forall|i: int|
            0 <= i < rest.len() ==> state.line_range.start <= (#[trigger] rest[i]).range.start
                <= line_len,
    ensures
        replay(nested, state, rest, line_len) == state,
    decreases rest.len(),
{
    if rest.len() > 0 {
        let init = rest.drop_last();
        assert forall|i: int| 0 <= i < init.len() implies state.line_range.start <= (
        #[trigger] init[i]).range.start <= line_len by {
            assert(init[i] == rest[i]);
        }
        lemma_rest_of_line_is_inert(nested, state, init, line_len);
        let last = rest[rest.len() - 1];
        if last.kind == TokenKind::LineComment {
            lemma_second_line_comment_is_inert(nested, state, last, line_len);
        } else {
            lemma_token_in_line_comment_is_inert(nested, state, last, line_len);
        }
    }
}

/// A comment or string that is open at the end of a line covers the whole of
/// the next line until it is closed.
pub proof fn lemma_open_span_covers_next_line(spans: Spans, index: usize)
    requires
        spans.open.len() > 0,
    ensures
        spans.next_line().contains(index),
        spans.next_line().open.len() == spans.open.len(),
{
    assert(spans.next_line().open[0] <= index);
}

/// The token of a multi-line comment that starts within a string, and a
/// string delimiter that starts within a multi-line comment, change nothing.
pub proof fn lemma_comment_and_string_exclude_each_other(nested: bool, state: LineState, m: Match, line_len: usize)
    requires
        match m.kind {
            TokenKind::MultiStart(_) | TokenKind::MultiEnd(_) => state.session.string_ranges.contains(
                m.range.start,
            ),
            TokenKind::String(_) => state.session.multiline_ranges.contains(m.range.start),
            TokenKind::LineComment => false,
        },
    ensures
        step(nested, state, m, line_len) == state,
{
}

/// Where comments nest, every opening token opens one more comment,
/// whichever pair it belongs to.
pub proof fn lemma_nested_opener_adds_depth(state: LineState, m: Match, id: usize, line_len: usize)
    requires
        m.kind == TokenKind::MultiStart(id),
        !state.line_range.spec_contains(m.range.start),
        !state.session.string_ranges.contains(m.range.start),
    ensures
        step(true, state, m, line_len).session.multiline_ids == state.session.multiline_ids.push(id),
        step(true, state, m, line_len).session.multiline_ranges.open
            == state.session.multiline_ranges.open.push(m.range.start),
{
}

/// Where comments nest, a closing token that does not belong to the pair of
/// the innermost open comment changes nothing.
pub proof fn lemma_mismatched_closer_is_inert(state: LineState, m: Match, id: usize, line_len: usize)
    requires
        m.kind == TokenKind::MultiEnd(id),
        state.session.multiline_ids.len() == 0 || state.session.multiline_ids.last() != id,
    ensures
        step(true, state, m, line_len) == state,
{
}

/// Where comments nest, the closing token of the pair of the innermost open
/// comment closes that comment and no other.
pub proof fn lemma_matching_closer_closes_innermost(state: LineState, m: Match, id: usize, line_len: usize)
    requires
        m.kind == TokenKind::MultiEnd(id),
        !state.line_range.spec_contains(m.range.start),
        !state.session.string_ranges.contains(m.range.start),
        state.session.multiline_ids.len() > 0,
        state.session.multiline_ids.last() == id,
        state.session.wf(true),
    ensures
        step(true, state, m, line_len).session.multiline_ids
            == state.session.multiline_ids.drop_last(),
        step(true, state, m, line_len).session.multiline_ranges.open
            == state.session.multiline_ranges.open.drop_last(),
        step(true, state, m, line_len).session.multiline_ranges.closed
            == state.session.multiline_ranges.closed.push(
            Range { start: state.session.multiline_ranges.open.last(), end: m.range.end },
        ),
{
}

/// Where comments do not nest, an opening token within an open comment
/// changes nothing.
pub proof fn lemma_flat_opener_in_comment_is_inert(state: LineState, m: Match, id: usize, line_len: usize)
    requires
        m.kind == TokenKind::MultiStart(id),
        state.session.multiline_ranges.open.len() > 0,
    ensures
        step(false, state, m, line_len) == state,
{
}

/// While a string is open, the delimiter of another kind of string changes
/// nothing: only the delimiter that opened a string closes it.
pub proof fn lemma_other_delimiter_is_inert(nested: bool, state: LineState, m: Match, id: usize, line_len: usize)
    requires
        m.kind == TokenKind::String(id),
        state.session.current_string is Some,
        state.session.current_string != Some(id),
    ensures
        step(nested, state, m, line_len) == state,
{
}

/// No match that is kept overlaps a blacklist range, and a match that
/// overlaps none is kept.
pub proof fn lemma_drop_blacklisted(matches: Seq<Match>, blacklisted: Seq<Range>)
    ensures
        forall|i: int|
            0 <= i < drop_blacklisted(matches, blacklisted).len() ==> !overlaps_any(
                (#[trigger] drop_blacklisted(matches, blacklisted)[i]).range,
                blacklisted,
            ) && matches.contains(drop_blacklisted(matches, blacklisted)[i]),
        forall|i: int|
            0 <= i < matches.len() && !overlaps_any((#[trigger] matches[i]).range, blacklisted)
                ==> drop_blacklisted(matches, blacklisted).contains(matches[i]),
        blacklisted.len() == 0 ==> drop_blacklisted(matches, blacklisted) == matches,
    decreases matches.len(),
{
    if matches.len() > 0 {
        let init = matches.drop_last();
        lemma_drop_blacklisted(init, blacklisted);
        let kept = drop_blacklisted(init, blacklisted);
        let all = drop_blacklisted(matches, blacklisted);
        assert forall|i: int| 0 <= i < all.len() implies !overlaps_any(
            (#[trigger] all[i]).range,
            blacklisted,
        ) && matches.contains(all[i]) by {
            if i < kept.len() {
                assert(all[i] == kept[i]);
                assert(init.contains(kept[i]));
                let w = choose|w: int| 0 <= w < init.len() && init[w] == kept[i];
                assert(matches[w] == kept[i]);
            } else {
                assert(all[i] == matches[matches.len() - 1]);
            }
        }
        assert forall|i: int|
            0 <= i < matches.len() && !overlaps_any(
                (#[trigger] matches[i]).range,
                blacklisted,
            ) implies all.contains(matches[i]) by {
            if i < init.len() {
                assert(init[i] == matches[i]);
                assert(kept.contains(matches[i]));
                let w = choose|w: int| 0 <= w < kept.len() && kept[w] == matches[i];
                assert(all[w] == matches[i]);
            } else {
                assert(all[all.len() - 1] == matches[i]);
            }
        }
        if blacklisted.len() == 0 {
            assert(init.push(matches.last()) =~= matches);
        }
    }
}

/// A profile without comment tokens and without string delimiters finds no
/// token in any line.
pub proof fn lemma_no_tokens_no_matches(profile: Profile, line: Seq<u8>)
    requires
        profile.line_comments.len() == 0,
        profile.multiline_comments.len() == 0,
        profile.strings.len() == 0,
    ensures
        line_matches(profile, line) == Seq::<Match>::empty(),
{
    assert(all_matches(profile, line) =~= Seq::<Match>::empty());
}

/// Whether the token can start nothing that a scan takes out: it closes a
/// multi-line comment, or it is a string delimiter while strings are kept.
pub open spec fn starts_nothing(keep_strings: bool, m: Match) -> bool {
    m.kind is MultiEnd || (keep_strings && m.kind is String)
}

/// Whether a scan has nothing to take out of the line: no token that counts
/// in it starts a comment, nor a string unless strings are kept.
pub open spec fn nothing_to_strip(profile: Profile, line: Seq<u8>) -> bool {
    forall|i: int|
        0 <= i < line_matches(profile, line).len() ==> starts_nothing(
            profile.keep_strings,
            #[trigger] line_matches(profile, line)[i],
        )
}

/// Whether a scan that stands at the start of a line has nothing open that
/// it would take out: no comment, and no string unless strings are kept.
pub open spec fn nothing_open(profile: Profile, session: Session) -> bool {
    &&& session.multiline_ranges == Spans::empty()
    &&& !profile.keep_strings ==> session.string_ranges == Spans::empty()
}

/// Tokens that start nothing, read while no comment is open, leave the line
/// comment unset and the comments closed; and the strings as they were,
/// unless strings are kept.
pub proof fn lemma_replay_starts_nothing(nested: bool, keep_strings: bool, state: LineState, matches: Seq<Match>, line_len: usize)
    requires
        state.line_range.is_unset(),
        state.session.multiline_ranges == Spans::empty(),
        forall|i: int| 0 <= i < matches.len() ==> starts_nothing(keep_strings, #[trigger] matches[i]),
    ensures
        replay(nested, state, matches, line_len).line_range == state.line_range,
        replay(nested, state, matches, line_len).session.multiline_ranges == Spans::empty(),
        !keep_strings ==> replay(nested, state, matches, line_len).session.string_ranges
            == state.session.string_ranges,
    decreases matches.len(),
{
    if matches.len() > 0 {
        let init = matches.drop_last();
        assert forall|i: int| 0 <= i < init.len() implies starts_nothing(
            keep_strings,
            #[trigger] init[i],
        ) by {
            assert(init[i] == matches[i]);
        }
        lemma_replay_starts_nothing(nested, keep_strings, state, init, line_len);
        assert(starts_nothing(keep_strings, matches[matches.len() - 1]));
    }
}

/// A line out of which a scan has nothing to take, scanned while nothing is
/// open, is written out as it is, followed by a line break; and nothing is
/// open behind it.
pub proof fn lemma_line_with_nothing_to_strip(profile: Profile, session: Session, line: Seq<u8>)
    requires
        nothing_open(profile, session),
        nothing_to_strip(profile, line),
        line.len() <= usize::MAX,
    ensures
        reads_as_written(profile, session, line),
        line_output(profile, session, line) == line + newline(),
        nothing_open(profile, line_session(profile, session, line)),
{
    let end = line_end(profile, session, line);
    lemma_replay_starts_nothing(
        profile.nested_comments,
        profile.keep_strings,
        line_start(session),
        line_matches(profile, line),
        line.len() as usize,
    );
    assert(end.session.next_line().multiline_ranges.open =~= Seq::<usize>::empty());
    if !profile.keep_strings {
        assert(end.session.next_line().string_ranges.open =~= Seq::<usize>::empty());
    }
    lemma_line_reads_as_written(profile, session, line);
}

/// Lines out of which a scan has nothing to take, scanned while nothing is
/// open, are written out as they are, each followed by a line break.
pub proof fn lemma_lines_with_nothing_to_strip(profile: Profile, session: Session, lines: Seq<Seq<u8>>)
    requires
        nothing_open(profile, session),
        forall|i: int|
            0 <= i < lines.len() ==> nothing_to_strip(profile, #[trigger] lines[i])
                && lines[i].len() <= usize::MAX,
    ensures
        lines_output(profile, session, lines) == joined(lines),
        nothing_open(profile, lines_session(profile, session, lines)),
    decreases lines.len(),
{
    if lines.len() > 0 {
        let init = lines.drop_last();
        assert forall|i: int| 0 <= i < init.len() implies nothing_to_strip(
            profile,
            #[trigger] init[i],
        ) && init[i].len() <= usize::MAX by {
            assert(init[i] == lines[i]);
        }
        lemma_lines_with_nothing_to_strip(profile, session, init);
        assert(lines.last() == lines[lines.len() - 1]);
        lemma_line_with_nothing_to_strip(
            profile,
            lines_session(profile, session, init),
            lines.last(),
        );
        assert(joined(init) + (lines.last() + newline()) =~= joined(init) + lines.last() + newline());
    }
}

/// With a profile that has no comment tokens and no string delimiters, every
/// line is written out unchanged and followed by one line break.
pub proof fn lemma_empty_profile_copies_lines(profile: Profile, lines: Seq<Seq<u8>>)
    requires
        profile.line_comments.len() == 0,
        profile.multiline_comments.len() == 0,
        profile.strings.len() == 0,
        forall|i: int| 0 <= i < lines.len() ==> (#[trigger] lines[i]).len() <= usize::MAX,
    ensures
        lines_output(profile, Session::fresh(), lines) == joined(lines),
{
    assert forall|i: int| 0 <= i < lines.len() implies nothing_to_strip(
        profile,
        #[trigger] lines[i],
    ) && lines[i].len() <= usize::MAX by {
        lemma_no_tokens_no_matches(profile, lines[i]);
    }
    lemma_lines_with_nothing_to_strip(profile, Session::fresh(), lines);
}

/// The tokens of a line that count lie within the line, in ascending order
/// of their starts.
pub proof fn lemma_line_matches_in_order(profile: Profile, line: Seq<u8>)
    requires
        line.len() <= usize::MAX,
    ensures
        ascending_starts(line_matches(profile, line)),
        forall|i: int|
            0 <= i < line_matches(profile, line).len() ==> in_line(
                #[trigger] line_matches(profile, line)[i],
                line.len() as int,
            ),
{
    let all = all_matches(profile, line);
    let listed = accepted_blacklist(line, profile.blacklist);
    let kept = drop_blacklisted(all, listed);
    let sorted = line_matches(profile, line);
    lemma_sorted_by_start(kept);
    lemma_drop_blacklisted(all, listed);
    lemma_all_matches_in_line(profile, line);
    sorted.to_multiset_ensures();
    kept.to_multiset_ensures();
    assert forall|i: int| 0 <= i < sorted.len() implies in_line(
        #[trigger] sorted[i],
        line.len() as int,
    ) by {
        assert(sorted.contains(sorted[i]));
        assert(kept.to_multiset().count(sorted[i]) > 0);
        assert(kept.contains(sorted[i]));
        let k = choose|k: int| 0 <= k < kept.len() && kept[k] == sorted[i];
        assert(all.contains(kept[k]));
        let a = choose|a: int| 0 <= a < all.len() && all[a] == kept[k];
        assert(in_line(all[a], line.len() as int));
    }
}

/// In a line that is scanned from a state in which everything open starts at
/// the start of the line, the visible part is made of intervals that lie
/// within the line, in ascending order, no two sharing an offset; and the
/// line behind it starts from such a state again.
pub proof fn lemma_visible_is_in_order(profile: Profile, session: Session, line: Seq<u8>)
    requires
        line.len() < usize::MAX,
        line_start(session).settled(0),
    ensures
        within(
            visible(profile.keep_strings, line_end(profile, session, line), line.len() as usize),
            line.len() as int,
        ),
        ascending(
            visible(profile.keep_strings, line_end(profile, session, line), line.len() as usize),
        ),
        line_start(line_session(profile, session, line)).settled(0),
{
    let len = line.len() as usize;
    lemma_line_matches_in_order(profile, line);
    lemma_replay_settled(
        profile.nested_comments,
        line_start(session),
        line_matches(profile, line),
        len,
        0,
    );
    let end = line_end(profile, session, line);
    let whole = seq![Range { start: 0, end: len }];
    assert(within(whole, len as int) && ascending(whole));
    lemma_remove_span_within(whole, end.line_range.start, end.line_range.end, len as int);
    lemma_remove_span_ascending(whole, end.line_range.start, end.line_range.end, len as int);
    let uncommented = end.line_range.spec_remove(whole);
    let comments = end.session.multiline_ranges;
    lemma_remove_closed_ascending(uncommented, comments.closed, len as int);
    lemma_remove_open_ascending(
        remove_closed(uncommented, comments.closed),
        comments.open,
        len as int,
    );
    let strings = end.session.string_ranges;
    let unquoted = comments.remove(uncommented);
    lemma_remove_closed_ascending(unquoted, strings.closed, len as int);
    lemma_remove_open_ascending(remove_closed(unquoted, strings.closed), strings.open, len as int);
}

/// A scan from the start of an input reaches every line in a state in which
/// everything open starts at the start of the line.
pub proof fn lemma_scan_is_settled(profile: Profile, lines: Seq<Seq<u8>>)
    requires
        forall|i: int| 0 <= i < lines.len() ==> (#[trigger] lines[i]).len() < usize::MAX,
    ensures
        line_start(lines_session(profile, Session::fresh(), lines)).settled(0),
    decreases lines.len(),
{
    if lines.len() > 0 {
        let init = lines.drop_last();
        assert forall|i: int| 0 <= i < init.len() implies (#[trigger] init[i]).len()
            < usize::MAX by {
            assert(init[i] == lines[i]);
        }
        lemma_scan_is_settled(profile, init);
        assert(lines.last() == lines[lines.len() - 1]);
        lemma_visible_is_in_order(
            profile,
            lines_session(profile, Session::fresh(), init),
            lines.last(),
        );
    }
}

/// Taking out everything from the start of the line on leaves nothing.
pub proof fn lemma_remove_from_line_start(held: Seq<Range>)
    ensures
        remove_span(held, 0, usize::MAX) == Seq::<Range>::empty(),
    decreases held.len(),
{
    if held.len() > 0 {
        lemma_remove_from_line_start(held.drop_last());
        assert(remainders(held.last(), 0, usize::MAX) =~= Seq::<Range>::empty());
    }
}

/// Nothing is visible of a line in which a span is open that started at the
/// start of the line.
pub proof fn lemma_remove_open_from_line_start(held: Seq<Range>, open: Seq<usize>, at: int)
    requires
        0 <= at < open.len(),
        open[at] == 0,
    ensures
        remove_open(held, open) == Seq::<Range>::empty(),
    decreases open.len(),
{
    if at == open.len() - 1 {
        lemma_remove_from_line_start(remove_open(held, open.drop_last()));
    } else {
        assert(open.drop_last()[at] == open[at]);
        lemma_remove_open_from_line_start(held, open.drop_last(), at);
    }
}

/// A line at whose end a multi-line comment is open that was open at its
/// start already is written as a line break alone, where no string is to
/// be marked in it.
pub proof fn lemma_line_within_comment_is_blank(profile: Profile, session: Session, line: Seq<u8>, at: int)
    requires
        0 <= at < line_end(profile, session, line).session.multiline_ranges.open.len(),
        line_end(profile, session, line).session.multiline_ranges.open[at] == 0,
        profile.keep_strings || line_end(profile, session, line).session.string_ranges
            == Spans::empty(),
    ensures
        line_output(profile, session, line) == newline(),
{
    let len = line.len() as usize;
    let end = line_end(profile, session, line);
    let whole = seq![Range { start: 0, end: len }];
    let comments = end.session.multiline_ranges;
    lemma_remove_open_from_line_start(
        remove_closed(end.line_range.spec_remove(whole), comments.closed),
        comments.open,
        at,
    );
    let seen = visible(profile.keep_strings, end, len);
    assert(seen == Seq::<Range>::empty());
    if line.len() > 0 {
        let pieces = fragments(profile.keep_strings, seen, end.session.string_ranges, len);
        assert(pieces =~= Seq::<Fragment>::empty());
        assert(concat(line, placeholder(profile.strings), sorted_by_start(pieces))
            =~= Seq::<u8>::empty());
        assert(Seq::<u8>::empty() + newline() =~= newline());
    }
}

/// A line in which a line comment starts at the offset `at`, and nothing
/// else is taken out, is written up to that offset, followed by a line
/// break. Where the comment starts one byte behind the start of the line,
/// that byte is not written either.
pub proof fn lemma_line_comment_truncates(profile: Profile, session: Session, line: Seq<u8>, at: usize)
    requires
        line.len() < usize::MAX,
        at <= line.len(),
        line_end(profile, session, line).line_range == (Range {
            start: at,
            end: (line.len() + 1) as usize,
        }),
        line_end(profile, session, line).session.multiline_ranges == Spans::empty(),
        profile.keep_strings || line_end(profile, session, line).session.string_ranges
            == Spans::empty(),
    ensures
        line_output(profile, session, line) == (if at == 1 {
            Seq::<u8>::empty()
        } else {
            line.subrange(0, at as int)
        }) + newline(),
{
    let len = line.len() as usize;
    let end = line_end(profile, session, line);
    let whole = seq![Range { start: 0, end: len }];
    let mark = placeholder(profile.strings);
    assert(whole.drop_last() =~= Seq::<Range>::empty());
    assert(remove_span(Seq::<Range>::empty(), at, (len + 1) as usize) =~= Seq::<Range>::empty());
    let seen = visible(profile.keep_strings, end, len);
    assert(seen =~= remainders(whole[0], at, (len + 1) as usize));
    assert(concat(line, mark, Seq::<Fragment>::empty()) =~= Seq::<u8>::empty());
    if line.len() == 0 {
        assert(line.subrange(0, at as int) + newline() =~= newline());
    } else if at >= 2 {
        let text = Fragment { range: Range { start: 0, end: (at - 1) as usize }, kind: Piece::Text };
        let pieces = fragments(profile.keep_strings, seen, end.session.string_ranges, len);
        assert(pieces =~= seq![text]);
        assert(pieces.drop_last() =~= Seq::<Fragment>::empty());
        assert(sorted_by_start(pieces.drop_last()) =~= Seq::<Fragment>::empty());
        assert(sorted_by_start(pieces) =~= seq![text]);
        assert(concat(line, mark, seq![text]) =~= line.subrange(0, at as int));
    } else {
        let pieces = fragments(profile.keep_strings, seen, end.session.string_ranges, len);
        assert(pieces =~= Seq::<Fragment>::empty());
        assert(sorted_by_start(pieces) =~= Seq::<Fragment>::empty());
        assert(line.subrange(0, 0) =~= Seq::<u8>::empty());
    }
}

} // verus!

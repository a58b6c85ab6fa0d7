//! Scanning: line by line, the tokens of the profile are found, the open
//! comments and strings are followed, and what is left of the line is
//! written out.

use vstd::prelude::*;
use vstd::utf8::encode_utf8;
use crate::blacklist::{accepted_blacklist, collect_blacklist_ranges, drop_blacklisted, retain_unlisted};
use crate::config::{bytes_of, LangConfig, Profile};
use crate::negative::NegativeRange;
use crate::order::{sort_by_start, sorted_by_start};
use crate::range::Range;
use crate::render::{render, rendered};
use crate::scanner::{lemma_next_line_wf, lemma_replay_wf, replay, LineState, Scanner, Session};
use crate::token::{all_matches, find_matches, Match};

verus! {

/// The tokens of a line that count: those that no blacklist range overlaps,
/// in ascending order of their starts. Of tokens that start at the same
/// offset, the one that the profile lists first comes first.
pub open spec fn line_matches(profile: Profile, line: Seq<u8>) -> Seq<Match> {
    sorted_by_start(
        drop_blacklisted(all_matches(profile, line), accepted_blacklist(line, profile.blacklist)),
    )
}

/// The visible part of a line of `line_len` bytes once its tokens have been
/// read: the line without the line comment, without the multi-line comments
/// and, unless strings are kept, without the strings.
pub open spec fn visible(keep_strings: bool, state: LineState, line_len: usize) -> Seq<Range> {
    let whole = seq![Range { start: 0, end: line_len }];
    let uncommented = state.session.multiline_ranges.remove(state.line_range.spec_remove(whole));
    if keep_strings {
        uncommented
    } else {
        state.session.string_ranges.remove(uncommented)
    }
}

/// The state in which a line starts to be read.
pub open spec fn line_start(session: Session) -> LineState {
    LineState { session, line_range: Range { start: 0, end: 0 } }
}

/// The state after the tokens of the line have been read.
pub open spec fn line_end(profile: Profile, session: Session, line: Seq<u8>) -> LineState {
    replay(
        profile.nested_comments,
        line_start(session),
        line_matches(profile, line),
        line.len() as usize,
    )
}

/// What one line becomes in the output.
pub open spec fn line_output(profile: Profile, session: Session, line: Seq<u8>) -> Seq<u8> {
    let end = line_end(profile, session, line);
    rendered(
        profile,
        visible(profile.keep_strings, end, line.len() as usize),
        end.session.string_ranges,
        line,
    )
}

/// The state in which the line behind this one starts.
pub open spec fn line_session(profile: Profile, session: Session, line: Seq<u8>) -> Session {
    line_end(profile, session, line).session.next_line()
}

/// The state after the lines have been scanned one after the other.
pub open spec fn lines_session(profile: Profile, session: Session, lines: Seq<Seq<u8>>) -> Session
    decreases lines.len(),
{
    if lines.len() == 0 {
        session
    } else {
        line_session(profile, lines_session(profile, session, lines.drop_last()), lines.last())
    }
}

/// What the lines become in the output, one after the other.
pub open spec fn lines_output(profile: Profile, session: Session, lines: Seq<Seq<u8>>) -> Seq<u8>
    decreases lines.len(),
{
    if lines.len() == 0 {
        Seq::empty()
    } else {
        lines_output(profile, session, lines.drop_last()) + line_output(
            profile,
            lines_session(profile, session, lines.drop_last()),
            lines.last(),
        )
    }
}

impl Scanner {
    /// Scans one line, given without its line break, and returns what it
    /// becomes in the output. The scanner then stands at the start of the
    /// next line.
    pub fn scan_line(&mut self, config: &LangConfig, line: &str) -> (out: Vec<u8>)
        requires
            encode_utf8(line@).len() < usize::MAX,
        ensures
            out@ == line_output(config@, old(self)@, encode_utf8(line@)),
            final(self)@ == line_session(config@, old(self)@, encode_utf8(line@)),
            old(self)@.wf(config.nested_comments) ==> final(self)@.wf(config.nested_comments),
    {
        let bytes = line.as_bytes();
        let mut matches = find_matches(config, bytes);
        let blacklisted = collect_blacklist_ranges(line, config.blacklist.as_slice());
        retain_unlisted(&mut matches, &blacklisted);
        sort_by_start(&mut matches);
        assert(matches@ == line_matches(config@, bytes@));
        let line_range = self.replay(config.nested_comments, &matches, bytes.len());
        let ghost end = LineState { session: self@, line_range };
        assert(end == line_end(config@, old(self)@, bytes@));

        let mut negative = NegativeRange::new(bytes.len());
        line_range.remove(&mut negative);
        self.multiline_ranges.remove(&mut negative);
        if !config.keep_strings {
            self.string_ranges.remove(&mut negative);
        }
        proof {
            if old(self)@.wf(config.nested_comments) {
                lemma_replay_wf(
                    config.nested_comments,
                    line_start(old(self)@),
                    matches@,
                    bytes.len(),
                );
                lemma_next_line_wf(config.nested_comments, end.session);
            }
        }
        let out = render(config, &negative, &self.string_ranges, bytes);
        self.next_line();
        out
    }
}

/// Scans the lines of an input from its start and appends to `output` what
/// they become. Each line is given without its line break.
pub fn handle_input(config: LangConfig, input: &Vec<String>, output: &mut Vec<u8>)
    requires
        forall|i: int| 0 <= i < input@.len() ==> encode_utf8(#[trigger] input@[i]@).len() < usize::MAX,
    ensures
        final(output)@ == old(output)@ + lines_output(config@, Session::fresh(), bytes_of(input@)),
{
    let ghost lines = bytes_of(input@);
    let mut scanner = Scanner::new();
    let mut i: usize = 0;
    assert(output@ =~= old(output)@ + lines_output(config@, Session::fresh(), lines.take(0)));
    while i < input.len()
        invariant
            i <= input.len(),
            lines == bytes_of(input@),
            forall|i: int| 0 <= i < input@.len() ==> encode_utf8(#[trigger] input@[i]@).len() < usize::MAX,
            scanner@ == lines_session(config@, Session::fresh(), lines.take(i as int)),
            output@ == old(output)@ + lines_output(config@, Session::fresh(), lines.take(i as int)),
        decreases input.len() - i,
    {
        proof {
            let upto = lines.take(i + 1);
            assert(upto.drop_last() == lines.take(i as int));
            assert(upto.last() == lines[i as int]);
        }
        let mut out = scanner.scan_line(&config, input[i].as_str());
        output.append(&mut out);
        assert(output@ =~= old(output)@ + lines_output(
            config@,
            Session::fresh(),
            lines.take(i + 1),
        ));
        i += 1;
    }
    assert(lines.take(i as int) == lines);
}

} // verus!

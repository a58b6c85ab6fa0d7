//! The state that a scan carries from line to line, and how one token
//! changes it.

use vstd::prelude::*;
use crate::range::Range;
use crate::ranges::{Ranges, Spans};
use crate::order::{ascending_starts, Spanned};
use crate::token::{in_line, Match, TokenKind};

verus! {

/// What a `Scanner` holds.
pub struct Session {
    /// Which comment pair opened each multi-line comment that is still open,
    /// the innermost last. Used only where comments nest.
    pub multiline_ids: Seq<usize>,
    /// The multi-line comments.
    pub multiline_ranges: Spans,
    /// The delimiter of the string that is open, if one is.
    pub current_string: Option<usize>,
    /// The strings.
    pub string_ranges: Spans,
}

impl Session {
    /// The state in which a scan starts: nothing is open.
    pub open spec fn fresh() -> Session {
        Session {
            multiline_ids: Seq::empty(),
            multiline_ranges: Spans::empty(),
            current_string: None,
            string_ranges: Spans::empty(),
        }
    }

    /// The state at the start of the next line: open comments and strings
    /// run on, closed ones are forgotten.
    pub open spec fn next_line(self) -> Session {
        Session {
            multiline_ranges: self.multiline_ranges.next_line(),
            string_ranges: self.string_ranges.next_line(),
            ..self
        }
    }

    /// What always holds of the state of a scan. Without nesting, at most
    /// one multi-line comment is open and no pair is remembered; with
    /// nesting, one pair is remembered for each open comment. A string is
    /// open exactly when its delimiter is remembered, and one at most.
    pub open spec fn wf(self, nested: bool) -> bool {
        &&& !nested ==> self.multiline_ids.len() == 0 && self.multiline_ranges.open.len() <= 1
        &&& nested ==> self.multiline_ids.len() == self.multiline_ranges.open.len()
        &&& self.current_string is Some ==> self.string_ranges.open.len() == 1
        &&& self.current_string is None ==> self.string_ranges.open.len() == 0
    }
}

/// The state of a scan within one line: the session, and the part of the
/// line that a line comment covers.
pub struct LineState {
    pub session: Session,
    pub line_range: Range,
}

impl LineState {
    /// Whether everything that the state holds lies at or before the offset
    /// `upto`: no open comment or string starts behind it, and no closed
    /// one, nor the line comment, has its start behind its end.
    pub open spec fn settled(self, upto: int) -> bool {
        &&& forall|i: int|
            0 <= i < self.session.multiline_ranges.open.len()
                ==> #[trigger] self.session.multiline_ranges.open[i] <= upto
        &&& forall|i: int|
            0 <= i < self.session.string_ranges.open.len()
                ==> #[trigger] self.session.string_ranges.open[i] <= upto
        &&& forall|i: int|
            0 <= i < self.session.multiline_ranges.closed.len() ==> (
            #[trigger] self.session.multiline_ranges.closed[i]).start
                <= self.session.multiline_ranges.closed[i].end
        &&& forall|i: int|
            0 <= i < self.session.string_ranges.closed.len() ==> (
            #[trigger] self.session.string_ranges.closed[i]).start
                <= self.session.string_ranges.closed[i].end
        &&& self.line_range.start <= self.line_range.end
    }
}

/// The state after the token `m` has been read in a line of `line_len` bytes.
pub open spec fn step(nested: bool, state: LineState, m: Match, line_len: usize) -> LineState {
    let s = state.session;
    let at = m.range.start;
    match m.kind {
        TokenKind::LineComment => {
            if s.multiline_ranges.contains(at) || s.string_ranges.contains(at) {
                state
            } else {
                LineState {
                    line_range: state.line_range.spec_widen(at, (line_len + 1) as usize),
                    ..state
                }
            }
        },
        TokenKind::MultiStart(id) => {
            if state.line_range.spec_contains(at) || s.string_ranges.contains(at) {
                state
            } else if nested {
                LineState {
                    session: Session {
                        multiline_ranges: s.multiline_ranges.open(at),
                        multiline_ids: s.multiline_ids.push(id),
                        ..s
                    },
                    ..state
                }
            } else if s.multiline_ranges.open.len() == 0 {
                LineState {
                    session: Session { multiline_ranges: s.multiline_ranges.open(at), ..s },
                    ..state
                }
            } else {
                state
            }
        },
        TokenKind::MultiEnd(id) => {
            if state.line_range.spec_contains(at) || s.string_ranges.contains(at) {
                state
            } else if !nested {
                LineState {
                    session: Session { multiline_ranges: s.multiline_ranges.close(m.range.end), ..s },
                    ..state
                }
            } else if s.multiline_ids.len() > 0 && s.multiline_ids.last() == id {
                LineState {
                    session: Session {
                        multiline_ranges: s.multiline_ranges.close(m.range.end),
                        multiline_ids: s.multiline_ids.drop_last(),
                        ..s
                    },
                    ..state
                }
            } else {
                state
            }
        },
        TokenKind::String(id) => {
            if state.line_range.spec_contains(at) || s.multiline_ranges.contains(at) {
                state
            } else if s.current_string == Some(id) {
                LineState {
                    session: Session {
                        current_string: None,
                        string_ranges: s.string_ranges.close(m.range.end),
                        ..s
                    },
                    ..state
                }
            } else if s.current_string is None {
                LineState {
                    session: Session {
                        current_string: Some(id),
                        string_ranges: s.string_ranges.open(at),
                        ..s
                    },
                    ..state
                }
            } else {
                state
            }
        },
    }
}

/// The state after the tokens `matches` have been read one after the other.
pub open spec fn replay(nested: bool, state: LineState, matches: Seq<Match>, line_len: usize) -> LineState
    decreases matches.len(),
{
    if matches.len() == 0 {
        state
    } else {
        step(nested, replay(nested, state, matches.drop_last(), line_len), matches.last(), line_len)
    }
}

/// The state that a scan carries from one line to the next.
#[derive(Debug)]
pub struct Scanner {
    pub multiline_ids: Vec<usize>,
    pub multiline_ranges: Ranges,
    pub current_string: Option<usize>,
    pub string_ranges: Ranges,
}

impl View for Scanner {
    type V = Session;

    open spec fn view(&self) -> Session {
        Session {
            multiline_ids: self.multiline_ids@,
            multiline_ranges: self.multiline_ranges@,
            current_string: self.current_string,
            string_ranges: self.string_ranges@,
        }
    }
}

impl Scanner {
    /// A scanner at the start of its input.
    pub fn new() -> (r: Scanner)
        ensures
            r@ == Session::fresh(),
            r@.wf(true),
            r@.wf(false),
    {
        Scanner {
            multiline_ids: Vec::new(),
            multiline_ranges: Ranges::empty(),
            current_string: None,
            string_ranges: Ranges::empty(),
        }
    }

    /// Reads one token of a line of `line_len` bytes.
    pub fn apply(&mut self, nested: bool, line_range: &mut Range, m: Match, line_len: usize)
        requires
            line_len < usize::MAX,
        ensures
            (LineState { session: final(self)@, line_range: *final(line_range) }) == step(
                nested,
                LineState { session: old(self)@, line_range: *old(line_range) },
                m,
                line_len,
            ),
    {
        let at = m.range.start;
        match m.kind {
            TokenKind::LineComment => {
                if self.multiline_ranges.contains(at) || self.string_ranges.contains(at) {
                    return;
                }
                line_range.widen(at, line_len + 1);
            },
            TokenKind::MultiStart(id) => {
                if line_range.contains(at) || self.string_ranges.contains(at) {
                    return;
                }
                if nested {
                    self.multiline_ranges.open(at);
                    self.multiline_ids.push(id);
                } else if self.multiline_ranges.open_ranges.len() == 0 {
                    self.multiline_ranges.open(at);
                }
            },
            TokenKind::MultiEnd(id) => {
                if line_range.contains(at) || self.string_ranges.contains(at) {
                    return;
                }
                if !nested {
                    self.multiline_ranges.close(m.range.end);
                } else if self.multiline_ids.len() > 0 && self.multiline_ids[
                    self.multiline_ids.len() - 1
                ] == id {
                    self.multiline_ids.pop();
                    self.multiline_ranges.close(m.range.end);
                    assert(self.multiline_ids@ == old(self).multiline_ids@.drop_last());
                }
            },
            TokenKind::String(id) => {
                if line_range.contains(at) || self.multiline_ranges.contains(at) {
                    return;
                }
                match self.current_string {
                    Some(expected) => {
                        if expected == id {
                            self.current_string = None;
                            self.string_ranges.close(m.range.end);
                        }
                    },
                    None => {
                        self.current_string = Some(id);
                        self.string_ranges.open(at);
                    },
                }
            },
        }
    }

    /// Reads the tokens of a line of `line_len` bytes one after the other and
    /// returns the part of the line that a line comment covers.
    pub fn replay(&mut self, nested: bool, matches: &Vec<Match>, line_len: usize) -> (line_range: Range)
        requires
            line_len < usize::MAX,
        ensures
            (LineState { session: final(self)@, line_range }) == replay(
                nested,
                LineState { session: old(self)@, line_range: Range { start: 0, end: 0 } },
                matches@,
                line_len,
            ),
    {
        let mut line_range = Range::new(0, 0);
        let ghost begin = LineState { session: self@, line_range };
        let mut i: usize = 0;
        while i < matches.len()
            invariant
                i <= matches.len(),
                line_len < usize::MAX,
                (LineState { session: self@, line_range }) == replay(
                    nested,
                    begin,
                    matches@.take(i as int),
                    line_len,
                ),
            decreases matches.len() - i,
        {
            proof {
                let upto = matches@.take(i + 1);
                assert(upto.drop_last() == matches@.take(i as int));
                assert(upto.last() == matches@[i as int]);
            }
            self.apply(nested, &mut line_range, matches[i], line_len);
            i += 1;
        }
        assert(matches@.take(i as int) == matches@);
        line_range
    }

    /// Moves on to the next line.
    pub fn next_line(&mut self)
        ensures
            final(self)@ == old(self)@.next_line(),
    {
        self.multiline_ranges.next_line();
        self.string_ranges.next_line();
    }
}

/// Reading a token keeps what always holds of the state of a scan.
pub proof fn lemma_step_wf(nested: bool, state: LineState, m: Match, line_len: usize)
    requires
        state.session.wf(nested),
    ensures
        step(nested, state, m, line_len).session.wf(nested),
{
}

/// Reading the tokens of a line keeps what always holds of the state of a
/// scan.
pub proof fn lemma_replay_wf(nested: bool, state: LineState, matches: Seq<Match>, line_len: usize)
    requires
        state.session.wf(nested),
    ensures
        replay(nested, state, matches, line_len).session.wf(nested),
    decreases matches.len(),
{
    if matches.len() > 0 {
        lemma_replay_wf(nested, state, matches.drop_last(), line_len);
        lemma_step_wf(
            nested,
            replay(nested, state, matches.drop_last(), line_len),
            matches.last(),
            line_len,
        );
    }
}

/// Moving on to the next line keeps what always holds of the state of a scan.
pub proof fn lemma_next_line_wf(nested: bool, session: Session)
    requires
        session.wf(nested),
    ensures
        session.next_line().wf(nested),
{
}

/// A token that lies within the line, at or behind everything that the
/// state holds, leaves a state that holds nothing behind the token's start.
pub proof fn lemma_step_settled(nested: bool, state: LineState, m: Match, line_len: usize, upto: int)
    requires
        line_len < usize::MAX,
        state.settled(upto),
        upto <= m.range.start,
        in_line(m, line_len as int),
    ensures
        step(nested, state, m, line_len).settled(m.range.start as int),
{
    let next = step(nested, state, m, line_len);
    let s = state.session;
    let n = next.session;
    assert forall|i: int| 0 <= i < n.multiline_ranges.open.len() implies #[trigger] n.multiline_ranges.open[i]
        <= m.range.start by {
        if i < s.multiline_ranges.open.len() {
            assert(n.multiline_ranges.open[i] == s.multiline_ranges.open[i]);
        }
    }
    assert forall|i: int| 0 <= i < n.string_ranges.open.len() implies #[trigger] n.string_ranges.open[i]
        <= m.range.start by {
        if i < s.string_ranges.open.len() {
            assert(n.string_ranges.open[i] == s.string_ranges.open[i]);
        }
    }
    assert forall|i: int| 0 <= i < n.multiline_ranges.closed.len() implies (
    #[trigger] n.multiline_ranges.closed[i]).start <= n.multiline_ranges.closed[i].end by {
        if i < s.multiline_ranges.closed.len() {
            assert(n.multiline_ranges.closed[i] == s.multiline_ranges.closed[i]);
        } else {
            assert(s.multiline_ranges.open.len() > 0);
            assert(s.multiline_ranges.open[s.multiline_ranges.open.len() - 1] <= upto);
        }
    }
    assert forall|i: int| 0 <= i < n.string_ranges.closed.len() implies (
    #[trigger] n.string_ranges.closed[i]).start <= n.string_ranges.closed[i].end by {
        if i < s.string_ranges.closed.len() {
            assert(n.string_ranges.closed[i] == s.string_ranges.closed[i]);
        } else {
            assert(s.string_ranges.open.len() > 0);
            assert(s.string_ranges.open[s.string_ranges.open.len() - 1] <= upto);
        }
    }
}

/// What a state holds at or before an offset, it holds at or before every
/// later offset.
pub proof fn lemma_settled_later(state: LineState, upto: int, later: int)
    requires
        state.settled(upto),
        upto <= later,
    ensures
        state.settled(later),
{
}

/// Tokens that lie within the line, in ascending order of their starts and
/// behind everything that the state holds, leave a state that holds nothing
/// behind the end of the line.
pub proof fn lemma_replay_settled(nested: bool, state: LineState, matches: Seq<Match>, line_len: usize, upto: int)
    requires
        line_len < usize::MAX,
        state.settled(upto),
        upto <= line_len,
        ascending_starts(matches),
        forall|i: int|
            0 <= i < matches.len() ==> in_line(#[trigger] matches[i], line_len as int) && upto
                <= matches[i].range.start,
    ensures
        replay(nested, state, matches, line_len).settled(
            if matches.len() == 0 {
                upto
            } else {
                matches.last().range.start as int
            },
        ),
        replay(nested, state, matches, line_len).settled(line_len as int),
    decreases matches.len(),
{
    if matches.len() == 0 {
        lemma_settled_later(state, upto, line_len as int);
    } else {
        let init = matches.drop_last();
        let last = matches[matches.len() - 1];
        assert forall|i: int| 0 <= i < init.len() implies in_line(
            #[trigger] init[i],
            line_len as int,
        ) && upto <= init[i].range.start by {
            assert(init[i] == matches[i]);
        }
        assert forall|i: int, j: int| 0 <= i < j < init.len() implies (#[trigger] init[i]).span_start()
            <= (#[trigger] init[j]).span_start() by {
            assert(init[i] == matches[i] && init[j] == matches[j]);
        }
        lemma_replay_settled(nested, state, init, line_len, upto);
        let before = replay(nested, state, init, line_len);
        let reached = if init.len() == 0 {
            upto
        } else {
            init.last().range.start as int
        };
        if init.len() > 0 {
            assert(init.last() == matches[matches.len() - 2]);
            assert(matches[matches.len() - 2].span_start() <= matches[matches.len() - 1].span_start());
        }
        lemma_step_settled(nested, before, last, line_len, reached);
        lemma_settled_later(step(nested, before, last, line_len), last.range.start as int, line_len as int);
    }
}

} // verus!

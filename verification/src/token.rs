//! Finding the tokens of a profile in one line.

use vstd::prelude::*;
use crate::config::{LangConfig, Profile};
use crate::order::Spanned;
use crate::range::Range;

verus! {

/// What a token found in a line stands for. The number is the place of the
/// comment pair, or of the string delimiter, in the profile.
#[derive(Clone, Copy, Debug, PartialEq, Eq, Structural)]
pub enum TokenKind {
    LineComment,
    MultiStart(usize),
    MultiEnd(usize),
    String(usize),
}

/// One place at which a token of the profile stands in the line.
#[derive(Clone, Copy, Debug, PartialEq, Eq, Structural)]
pub struct Match {
    pub range: Range,
    pub kind: TokenKind,
}

impl Spanned for Match {
    open spec fn span_start(&self) -> usize {
        self.range.start
    }

    fn start(&self) -> (s: usize) {
        self.range.start
    }
}

/// Whether a character may begin at offset `at` of the line: at its end, or
/// at a byte that does not continue an earlier character.
pub open spec fn char_starts_at(line: Seq<u8>, at: int) -> bool {
    at == line.len() || !(0x80 <= line[at] < 0xC0)
}

/// Whether the token stands in the line at offset `at`. The empty token
/// stands wherever a character may begin.
pub open spec fn occurs_at(line: Seq<u8>, token: Seq<u8>, at: int) -> bool {
    &&& 0 <= at
    &&& at + token.len() <= line.len()
    &&& line.subrange(at, at + token.len()) == token
    &&& token.len() == 0 ==> char_starts_at(line, at)
}

/// How far the search moves on behind a token found: by the token's length,
/// and by one offset for the empty token.
pub open spec fn stride(token: Seq<u8>) -> int {
    if token.len() == 0 {
        1
    } else {
        token.len() as int
    }
}

/// The places from offset `from` on at which the token stands, from left to
/// right, none reaching into the one before it.
pub open spec fn occurrences(line: Seq<u8>, token: Seq<u8>, from: int) -> Seq<Range>
    decreases line.len() + 1 - from,
{
    if from < 0 || from > line.len() {
        Seq::empty()
    } else if occurs_at(line, token, from) {
        seq![Range { start: from as usize, end: (from + token.len()) as usize }] + occurrences(
            line,
            token,
            from + stride(token),
        )
    } else {
        occurrences(line, token, from + 1)
    }
}

/// The places at which one token stands in the line, each marked with what
/// the token stands for.
pub open spec fn token_matches(line: Seq<u8>, token: Seq<u8>, kind: TokenKind) -> Seq<Match> {
    marked(occurrences(line, token, 0), kind)
}

/// The places `ranges`, each as a match of the kind `kind`.
pub open spec fn marked(ranges: Seq<Range>, kind: TokenKind) -> Seq<Match> {
    ranges.map_values(|r: Range| Match { range: r, kind })
}

/// The matches of the opening and closing tokens of the comment pairs: pair
/// by pair, the opening token first.
pub open spec fn multiline_matches(line: Seq<u8>, pairs: Seq<(Seq<u8>, Seq<u8>)>) -> Seq<Match>
    decreases pairs.len(),
{
    if pairs.len() == 0 {
        Seq::empty()
    } else {
        let id = (pairs.len() - 1) as usize;
        multiline_matches(line, pairs.drop_last()) + token_matches(
            line,
            pairs.last().0,
            TokenKind::MultiStart(id),
        ) + token_matches(line, pairs.last().1, TokenKind::MultiEnd(id))
    }
}

/// The matches of the string delimiters, delimiter by delimiter.
pub open spec fn string_matches(line: Seq<u8>, delimiters: Seq<Seq<u8>>) -> Seq<Match>
    decreases delimiters.len(),
{
    if delimiters.len() == 0 {
        Seq::empty()
    } else {
        let id = (delimiters.len() - 1) as usize;
        string_matches(line, delimiters.drop_last()) + token_matches(
            line,
            delimiters.last(),
            TokenKind::String(id),
        )
    }
}

/// The matches of the line-comment tokens, token by token.
pub open spec fn line_comment_matches(line: Seq<u8>, tokens: Seq<Seq<u8>>) -> Seq<Match>
    decreases tokens.len(),
{
    if tokens.len() == 0 {
        Seq::empty()
    } else {
        line_comment_matches(line, tokens.drop_last()) + token_matches(
            line,
            tokens.last(),
            TokenKind::LineComment,
        )
    }
}

/// Every match of every token of the profile: the comment pairs first, then
/// the string delimiters, then the line-comment tokens.
pub open spec fn all_matches(profile: Profile, line: Seq<u8>) -> Seq<Match> {
    multiline_matches(line, profile.multiline_comments) + string_matches(line, profile.strings)
        + line_comment_matches(line, profile.line_comments)
}

/// Whether the match lies within a line of `line_len` bytes, its start not
/// behind its end.
pub open spec fn in_line(m: Match, line_len: int) -> bool {
    m.range.start <= m.range.end <= line_len
}

/// Every place at which a token stands lies within the line, at or behind
/// the offset from which the search went.
pub proof fn lemma_occurrences_in_line(line: Seq<u8>, token: Seq<u8>, from: int)
    requires
        0 <= from,
        line.len() <= usize::MAX,
    ensures
        forall|i: int|
            0 <= i < occurrences(line, token, from).len() ==> from <= (#[trigger] occurrences(
                line,
                token,
                from,
            )[i]).start <= occurrences(line, token, from)[i].end <= line.len(),
    decreases line.len() + 1 - from,
{
    let found = occurrences(line, token, from);
    if from <= line.len() {
        if occurs_at(line, token, from) {
            let behind = occurrences(line, token, from + stride(token));
            lemma_occurrences_in_line(line, token, from + stride(token));
            let first = Range { start: from as usize, end: (from + token.len()) as usize };
            assert(found == seq![first] + behind);
            assert forall|i: int| 0 <= i < found.len() implies from <= (#[trigger] found[i]).start
                <= found[i].end <= line.len() by {
                if i > 0 {
                    assert(found[i] == behind[i - 1]);
                }
            }
        } else {
            lemma_occurrences_in_line(line, token, from + 1);
            assert(found == occurrences(line, token, from + 1));
        }
    } else {
        assert(found.len() == 0);
    }
}

/// Every match of a token lies within the line.
pub proof fn lemma_token_matches_in_line(line: Seq<u8>, token: Seq<u8>, kind: TokenKind)
    requires
        line.len() <= usize::MAX,
    ensures
        forall|i: int|
            0 <= i < token_matches(line, token, kind).len() ==> in_line(
                #[trigger] token_matches(line, token, kind)[i],
                line.len() as int,
            ),
{
    lemma_occurrences_in_line(line, token, 0);
}

/// Every match of every token of the profile lies within the line.
pub proof fn lemma_all_matches_in_line(profile: Profile, line: Seq<u8>)
    requires
        line.len() <= usize::MAX,
    ensures
        forall|i: int|
            0 <= i < all_matches(profile, line).len() ==> in_line(
                #[trigger] all_matches(profile, line)[i],
                line.len() as int,
            ),
{
    let len = line.len() as int;
    let a = multiline_matches(line, profile.multiline_comments);
    let b = string_matches(line, profile.strings);
    let c = line_comment_matches(line, profile.line_comments);
    lemma_multiline_matches_in_line(line, profile.multiline_comments);
    lemma_string_matches_in_line(line, profile.strings);
    lemma_line_comment_matches_in_line(line, profile.line_comments);
    assert forall|i: int| 0 <= i < (a + b + c).len() implies in_line(
        #[trigger] (a + b + c)[i],
        len,
    ) by {
        if i < a.len() {
            assert((a + b + c)[i] == a[i]);
        } else if i < a.len() + b.len() {
            assert((a + b + c)[i] == b[i - a.len()]);
        } else {
            assert((a + b + c)[i] == c[i - a.len() - b.len()]);
        }
    }
}

proof fn lemma_multiline_matches_in_line(line: Seq<u8>, pairs: Seq<(Seq<u8>, Seq<u8>)>)
    requires
        line.len() <= usize::MAX,
    ensures
        forall|i: int|
            0 <= i < multiline_matches(line, pairs).len() ==> in_line(
                #[trigger] multiline_matches(line, pairs)[i],
                line.len() as int,
            ),
    decreases pairs.len(),
{
    if pairs.len() > 0 {
        let id = (pairs.len() - 1) as usize;
        let a = multiline_matches(line, pairs.drop_last());
        let b = token_matches(line, pairs.last().0, TokenKind::MultiStart(id));
        let c = token_matches(line, pairs.last().1, TokenKind::MultiEnd(id));
        lemma_multiline_matches_in_line(line, pairs.drop_last());
        lemma_token_matches_in_line(line, pairs.last().0, TokenKind::MultiStart(id));
        lemma_token_matches_in_line(line, pairs.last().1, TokenKind::MultiEnd(id));
        assert forall|i: int| 0 <= i < (a + b + c).len() implies in_line(
            #[trigger] (a + b + c)[i],
            line.len() as int,
        ) by {
            if i < a.len() {
                assert((a + b + c)[i] == a[i]);
            } else if i < a.len() + b.len() {
                assert((a + b + c)[i] == b[i - a.len()]);
            } else {
                assert((a + b + c)[i] == c[i - a.len() - b.len()]);
            }
        }
    }
}

proof fn lemma_string_matches_in_line(line: Seq<u8>, delimiters: Seq<Seq<u8>>)
    requires
        line.len() <= usize::MAX,
    ensures
        forall|i: int|
            0 <= i < string_matches(line, delimiters).len() ==> in_line(
                #[trigger] string_matches(line, delimiters)[i],
                line.len() as int,
            ),
    decreases delimiters.len(),
{
    if delimiters.len() > 0 {
        let id = (delimiters.len() - 1) as usize;
        let a = string_matches(line, delimiters.drop_last());
        let b = token_matches(line, delimiters.last(), TokenKind::String(id));
        lemma_string_matches_in_line(line, delimiters.drop_last());
        lemma_token_matches_in_line(line, delimiters.last(), TokenKind::String(id));
        assert forall|i: int| 0 <= i < (a + b).len() implies in_line(
            #[trigger] (a + b)[i],
            line.len() as int,
        ) by {
            if i < a.len() {
                assert((a + b)[i] == a[i]);
            } else {
                assert((a + b)[i] == b[i - a.len()]);
            }
        }
    }
}

proof fn lemma_line_comment_matches_in_line(line: Seq<u8>, tokens: Seq<Seq<u8>>)
    requires
        line.len() <= usize::MAX,
    ensures
        forall|i: int|
            0 <= i < line_comment_matches(line, tokens).len() ==> in_line(
                #[trigger] line_comment_matches(line, tokens)[i],
                line.len() as int,
            ),
    decreases tokens.len(),
{
    if tokens.len() > 0 {
        let a = line_comment_matches(line, tokens.drop_last());
        let b = token_matches(line, tokens.last(), TokenKind::LineComment);
        lemma_line_comment_matches_in_line(line, tokens.drop_last());
        lemma_token_matches_in_line(line, tokens.last(), TokenKind::LineComment);
        assert forall|i: int| 0 <= i < (a + b).len() implies in_line(
            #[trigger] (a + b)[i],
            line.len() as int,
        ) by {
            if i < a.len() {
                assert((a + b)[i] == a[i]);
            } else {
                assert((a + b)[i] == b[i - a.len()]);
            }
        }
    }
}

/// Whether the token stands in the line at offset `at`.
pub fn token_at(line: &[u8], token: &[u8], at: usize) -> (r: bool)
    ensures
        r == occurs_at(line@, token@, at as int),
{
    if at > line.len() || token.len() > line.len() - at {
        return false;
    }
    if token.len() == 0 {
        if at == line.len() {
            assert(line@.subrange(at as int, at as int) =~= token@);
            return true;
        }
        let b = line[at];
        assert(line@.subrange(at as int, at as int) =~= token@);
        return !(0x80 <= b && b < 0xC0);
    }
    let mut i: usize = 0;
    while i < token.len()
        invariant
            i <= token.len(),
            at + token.len() <= line.len(),
            forall|k: int| 0 <= k < i ==> line@[at + k] == token@[k],
        decreases token.len() - i,
    {
        if line[at + i] != token[i] {
            assert(line@.subrange(at as int, at + token.len())[i as int] != token@[i as int]);
            return false;
        }
        i += 1;
    }
    assert(line@.subrange(at as int, at + token.len()) =~= token@);
    true
}

/// Appends to `found` every place at which the token stands in the line,
/// marked with `kind`.
pub fn find_token(line: &[u8], token: &[u8], kind: TokenKind, found: &mut Vec<Match>)
    ensures
        final(found)@ == old(found)@ + token_matches(line@, token@, kind),
{
    let ghost all = occurrences(line@, token@, 0);
    let ghost mut seen: Seq<Range> = Seq::empty();
    let step: usize = if token.len() == 0 { 1 } else { token.len() };
    let mut at: usize = 0;
    let mut done = false;
    assert(seen + all =~= all);
    assert(old(found)@ + marked(seen, kind) =~= old(found)@);
    while !done
        invariant
            at <= line.len(),
            step == stride(token@),
            all == occurrences(line@, token@, 0),
            seen + (if done { Seq::<Range>::empty() } else { occurrences(line@, token@, at as int) }) == all,
            found@ == old(found)@ + marked(seen, kind),
        decreases line.len() - at + (if done { 0int } else { 1int }),
    {
        let ghost rest = occurrences(line@, token@, at as int);
        if token_at(line, token, at) {
            let r = Range::new(at, at + token.len());
            found.push(Match { range: r, kind });
            proof {
                let tail = occurrences(line@, token@, at + step);
                assert(rest == seq![r] + tail);
                assert(seen.push(r) + tail =~= seen + rest);
                assert(marked(seen.push(r), kind) =~= marked(seen, kind).push(
                    Match { range: r, kind },
                ));
                seen = seen.push(r);
            }
            if step > line.len() - at {
                assert(occurrences(line@, token@, at + step) =~= Seq::<Range>::empty());
                assert(seen + Seq::<Range>::empty() =~= seen);
                done = true;
            } else {
                at = at + step;
            }
        } else if at == line.len() {
            assert(occurrences(line@, token@, at + 1) =~= Seq::<Range>::empty());
            assert(rest == occurrences(line@, token@, at + 1));
            done = true;
        } else {
            assert(rest == occurrences(line@, token@, at + 1));
            at = at + 1;
        }
    }
    proof {
        assert(seen + Seq::<Range>::empty() =~= seen);
    }
}

/// Finds every token of the profile in the line, in the order in which the
/// profile lists the tokens.
pub fn find_matches(config: &LangConfig, line: &[u8]) -> (found: Vec<Match>)
    ensures
        found@ == all_matches(config@, line@),
{
    let mut found: Vec<Match> = Vec::new();
    let mut i: usize = 0;
    while i < config.multiline_comments.len()
        invariant
            i <= config.multiline_comments.len(),
            found@ == multiline_matches(line@, config@.multiline_comments.take(i as int)),
        decreases config.multiline_comments.len() - i,
    {
        proof {
            let upto = config@.multiline_comments.take(i + 1);
            assert(upto.drop_last() == config@.multiline_comments.take(i as int));
            assert(upto.last() == config@.multiline_comments[i as int]);
        }
        let pair = &config.multiline_comments[i];
        find_token(line, pair.0.as_str().as_bytes(), TokenKind::MultiStart(i), &mut found);
        find_token(line, pair.1.as_str().as_bytes(), TokenKind::MultiEnd(i), &mut found);
        i += 1;
    }
    assert(config@.multiline_comments.take(i as int) == config@.multiline_comments);
    let ghost comments = found@;
    assert(found@ == comments + string_matches(line@, config@.strings.take(0)));
    let mut j: usize = 0;
    while j < config.strings.len()
        invariant
            j <= config.strings.len(),
            found@ == comments + string_matches(line@, config@.strings.take(j as int)),
        decreases config.strings.len() - j,
    {
        proof {
            let upto = config@.strings.take(j + 1);
            assert(upto.drop_last() == config@.strings.take(j as int));
            assert(upto.last() == config@.strings[j as int]);
        }
        find_token(line, config.strings[j].as_str().as_bytes(), TokenKind::String(j), &mut found);
        j += 1;
    }
    assert(config@.strings.take(j as int) == config@.strings);
    let ghost quoted = found@;
    assert(found@ == quoted + line_comment_matches(line@, config@.line_comments.take(0)));
    let mut k: usize = 0;
    while k < config.line_comments.len()
        invariant
            k <= config.line_comments.len(),
            found@ == quoted + line_comment_matches(line@, config@.line_comments.take(k as int)),
        decreases config.line_comments.len() - k,
    {
        proof {
            let upto = config@.line_comments.take(k + 1);
            assert(upto.drop_last() == config@.line_comments.take(k as int));
            assert(upto.last() == config@.line_comments[k as int]);
        }
        find_token(line, config.line_comments[k].as_str().as_bytes(), TokenKind::LineComment, &mut found);
        k += 1;
    }
    assert(config@.line_comments.take(k as int) == config@.line_comments);
    found
}

} // verus!

//! Writing out what is left of a line: its visible parts, and a placeholder
//! in the place of each string.

use vstd::prelude::*;
use crate::config::{LangConfig, Profile};
use crate::negative::{within, NegativeRange};
use crate::order::{lemma_sorted_by_start, sort_by_start, sorted_by_start, Spanned};
use crate::range::Range;
use crate::ranges::{Ranges, Spans};

verus! {

/// What a fragment of the output holds.
#[derive(Clone, Copy, Debug, PartialEq, Eq, Structural)]
pub enum Piece {
    /// A visible part of the line.
    Text,
    /// The placeholder that stands for a string.
    Placeholder,
}

/// One fragment of the output, with the part of the line that it stands for.
#[derive(Clone, Copy, Debug, PartialEq, Eq, Structural)]
pub struct Fragment {
    pub range: Range,
    pub kind: Piece,
}

impl Spanned for Fragment {
    open spec fn span_start(&self) -> usize {
        self.range.start
    }

    fn start(&self) -> (s: usize) {
        self.range.start
    }
}

/// The line break that ends every line of the output.
pub open spec fn newline() -> Seq<u8> {
    seq![0x0Au8]
}

/// What stands for a string in the output: an ellipsis between two copies of
/// the first string delimiter of the profile, or between two double quotes
/// where the profile has no string delimiter.
pub open spec fn placeholder(strings: Seq<Seq<u8>>) -> Seq<u8> {
    let delimiter = if strings.len() > 0 {
        strings[0]
    } else {
        seq![0x22u8]
    };
    delimiter + seq![0xE2u8, 0x80u8, 0xA6u8] + delimiter
}

/// Where the text of a visible interval ends in a line of `line_len` bytes:
/// one byte behind the interval's end, and at the end of the line at most.
pub open spec fn text_end(r: Range, line_len: int) -> int {
    if r.end < line_len - 1 {
        r.end + 1
    } else {
        line_len
    }
}

/// The bytes of one fragment.
pub open spec fn fragment_bytes(line: Seq<u8>, mark: Seq<u8>, f: Fragment) -> Seq<u8> {
    match f.kind {
        Piece::Text => line.subrange(f.range.start as int, text_end(f.range, line.len() as int)),
        Piece::Placeholder => mark,
    }
}

/// The bytes of the fragments, one after the other.
pub open spec fn concat(line: Seq<u8>, mark: Seq<u8>, fragments: Seq<Fragment>) -> Seq<u8>
    decreases fragments.len(),
{
    if fragments.len() == 0 {
        Seq::empty()
    } else {
        concat(line, mark, fragments.drop_last()) + fragment_bytes(line, mark, fragments.last())
    }
}

/// The visible intervals as fragments of text.
pub open spec fn text_fragments(visible: Seq<Range>) -> Seq<Fragment> {
    visible.map_values(|r: Range| Fragment { range: r, kind: Piece::Text })
}

/// A placeholder for every string: first those still open, which run to the
/// end of the line, then the closed ones.
pub open spec fn string_fragments(strings: Spans, line_len: usize) -> Seq<Fragment> {
    strings.open.map_values(
        |at: usize|
            Fragment {
                range: Range { start: at, end: (line_len + 1) as usize },
                kind: Piece::Placeholder,
            },
    ) + strings.closed.map_values(|r: Range| Fragment { range: r, kind: Piece::Placeholder })
}

/// The fragments of a line before they are put in order: the visible text,
/// and the placeholders unless strings are kept.
pub open spec fn fragments(keep_strings: bool, visible: Seq<Range>, strings: Spans, line_len: usize) -> Seq<Fragment> {
    if keep_strings {
        text_fragments(visible)
    } else {
        text_fragments(visible) + string_fragments(strings, line_len)
    }
}

/// The output for one line: for an empty line a line break; else the
/// fragments in the order of their starts, and a line break.
pub open spec fn rendered(profile: Profile, visible: Seq<Range>, strings: Spans, line: Seq<u8>) -> Seq<u8> {
    if line.len() == 0 {
        newline()
    } else {
        concat(
            line,
            placeholder(profile.strings),
            sorted_by_start(fragments(profile.keep_strings, visible, strings, line.len() as usize)),
        ) + newline()
    }
}

/// Appends the bytes `from..to` of `bytes` to `out`.
pub fn append(out: &mut Vec<u8>, bytes: &[u8], from: usize, to: usize)
    requires
        from <= to <= bytes@.len(),
    ensures
        final(out)@ == old(out)@ + bytes@.subrange(from as int, to as int),
{
    let mut i: usize = from;
    assert(out@ =~= old(out)@ + bytes@.subrange(from as int, i as int));
    while i < to
        invariant
            from <= i <= to <= bytes@.len(),
            out@ == old(out)@ + bytes@.subrange(from as int, i as int),
        decreases to - i,
    {
        out.push(bytes[i]);
        assert(bytes@.subrange(from as int, i as int).push(bytes@[i as int]) =~= bytes@.subrange(
            from as int,
            i + 1,
        ));
        i += 1;
    }
}

/// Builds what stands for a string in the output.
pub fn make_placeholder(config: &LangConfig) -> (mark: Vec<u8>)
    ensures
        mark@ == placeholder(config@.strings),
{
    let mut mark: Vec<u8> = Vec::new();
    if config.strings.len() > 0 {
        let delimiter = config.strings[0].as_str().as_bytes();
        append(&mut mark, delimiter, 0, delimiter.len());
        mark.push(0xE2);
        mark.push(0x80);
        mark.push(0xA6);
        append(&mut mark, delimiter, 0, delimiter.len());
        assert(delimiter@.subrange(0, delimiter@.len() as int) =~= delimiter@);
        assert(mark@ =~= delimiter@ + seq![0xE2u8, 0x80u8, 0xA6u8] + delimiter@);
    } else {
        mark.push(0x22);
        mark.push(0xE2);
        mark.push(0x80);
        mark.push(0xA6);
        mark.push(0x22);
        assert(mark@ =~= seq![0x22u8] + seq![0xE2u8, 0x80u8, 0xA6u8] + seq![0x22u8]);
    }
    mark
}

/// Writes out one line: its visible parts and, unless strings are kept, a
/// placeholder for each string, in the order of their starts, then a line
/// break.
pub fn render(config: &LangConfig, negative: &NegativeRange, strings: &Ranges, line: &[u8]) -> (out: Vec<u8>)
    requires
        within(negative@, line@.len() as int),
        line@.len() < usize::MAX,
    ensures
        out@ == rendered(config@, negative@, strings@, line@),
{
    let mut out: Vec<u8> = Vec::new();
    if line.len() == 0 {
        out.push(0x0A);
        assert(out@ =~= newline());
        return out;
    }
    let mut pieces: Vec<Fragment> = Vec::new();
    let mut i: usize = 0;
    while i < negative.ranges.len()
        invariant
            i <= negative.ranges.len(),
            pieces@ == text_fragments(negative@.take(i as int)),
        decreases negative.ranges.len() - i,
    {
        pieces.push(Fragment { range: negative.ranges[i], kind: Piece::Text });
        assert(pieces@ =~= text_fragments(negative@.take(i + 1)));
        i += 1;
    }
    assert(negative@.take(i as int) == negative@);
    if !config.keep_strings {
        let ghost texts = pieces@;
        let ghost still_open = |at: usize|
            Fragment {
                range: Range { start: at, end: (line@.len() + 1) as usize },
                kind: Piece::Placeholder,
            };
        let mut j: usize = 0;
        assert(pieces@ =~= texts + strings@.open.take(0).map_values(still_open));
        while j < strings.open_ranges.len()
            invariant
                j <= strings.open_ranges.len(),
                line@.len() < usize::MAX,
                still_open == |at: usize|
                    (Fragment {
                        range: Range { start: at, end: (line@.len() + 1) as usize },
                        kind: Piece::Placeholder,
                    }),
                pieces@ == texts + strings@.open.take(j as int).map_values(still_open),
            decreases strings.open_ranges.len() - j,
        {
            pieces.push(
                Fragment {
                    range: Range::new(strings.open_ranges[j], line.len() + 1),
                    kind: Piece::Placeholder,
                },
            );
            assert(pieces@ =~= texts + strings@.open.take(j + 1).map_values(still_open));
            j += 1;
        }
        assert(strings@.open.take(j as int) == strings@.open);
        let ghost opened = pieces@;
        let ghost shut = |r: Range| Fragment { range: r, kind: Piece::Placeholder };
        let mut k: usize = 0;
        assert(pieces@ =~= opened + strings@.closed.take(0).map_values(shut));
        while k < strings.closed_ranges.len()
            invariant
                k <= strings.closed_ranges.len(),
                shut == |r: Range| (Fragment { range: r, kind: Piece::Placeholder }),
                pieces@ == opened + strings@.closed.take(k as int).map_values(shut),
            decreases strings.closed_ranges.len() - k,
        {
            pieces.push(Fragment { range: strings.closed_ranges[k], kind: Piece::Placeholder });
            assert(pieces@ =~= opened + strings@.closed.take(k + 1).map_values(shut));
            k += 1;
        }
        assert(strings@.closed.take(k as int) == strings@.closed);
        assert(pieces@ =~= text_fragments(negative@) + string_fragments(
            strings@,
            line@.len() as usize,
        ));
    }
    let ghost unordered = pieces@;
    assert(unordered == fragments(
        config@.keep_strings,
        negative@,
        strings@,
        line@.len() as usize,
    ));
    sort_by_start(&mut pieces);
    proof {
        lemma_sorted_by_start(unordered);
        pieces@.to_multiset_ensures();
        unordered.to_multiset_ensures();
        assert forall|x: int|
            0 <= x < pieces@.len() && (#[trigger] pieces@[x]).kind == Piece::Text implies pieces@[x].range.start
            <= pieces@[x].range.end <= line@.len() by {
            assert(pieces@.contains(pieces@[x]));
            assert(pieces@.to_multiset().count(pieces@[x]) > 0);
            assert(unordered.contains(pieces@[x]));
            let w = choose|w: int| 0 <= w < unordered.len() && unordered[w] == pieces@[x];
            assert(w < negative@.len());
            assert(unordered[w].range == negative@[w]);
        }
    }
    let mark = make_placeholder(config);
    let mut n: usize = 0;
    assert(out@ =~= concat(line@, mark@, pieces@.take(0)));
    while n < pieces.len()
        invariant
            n <= pieces.len(),
            out@ == concat(line@, mark@, pieces@.take(n as int)),
            line@.len() > 0,
            forall|x: int|
                0 <= x < pieces@.len() && (#[trigger] pieces@[x]).kind == Piece::Text
                    ==> pieces@[x].range.start <= pieces@[x].range.end <= line@.len(),
        decreases pieces.len() - n,
    {
        proof {
            let upto = pieces@.take(n + 1);
            assert(upto.drop_last() == pieces@.take(n as int));
            assert(upto.last() == pieces@[n as int]);
        }
        let piece = pieces[n];
        match piece.kind {
            Piece::Text => {
                let end = if piece.range.end < line.len() - 1 {
                    piece.range.end + 1
                } else {
                    line.len()
                };
                append(&mut out, line, piece.range.start, end);
            },
            Piece::Placeholder => {
                append(&mut out, mark.as_slice(), 0, mark.len());
                assert(mark@.subrange(0, mark@.len() as int) =~= mark@);
            },
        }
        n += 1;
    }
    assert(pieces@.take(n as int) == pieces@);
    out.push(0x0A);
    assert(out@ =~= concat(line@, mark@, pieces@) + newline());
    out
}

} // verus!

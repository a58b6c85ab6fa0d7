//! Tokens that protect what they cover: a comment or string token that
//! shares an offset with an accepted blacklist token is not a token.

use vstd::prelude::*;
use vstd::utf8::encode_utf8;
use crate::config::bytes_of;
use crate::order::{sort_by_start, sorted_by_start};
use crate::range::Range;
use crate::token::{find_token, occurrences, marked, Match, TokenKind};

verus! {

/// Whether `r` overlaps one of `others`.
pub open spec fn overlaps_any(r: Range, others: Seq<Range>) -> bool {
    exists|i: int| 0 <= i < others.len() && (#[trigger] others[i]).spec_overlaps(r)
}

/// Every place at which a blacklist token stands in the line, token by token.
pub open spec fn blacklist_occurrences(line: Seq<u8>, blacklist: Seq<Seq<u8>>) -> Seq<Range>
    decreases blacklist.len(),
{
    if blacklist.len() == 0 {
        Seq::empty()
    } else {
        blacklist_occurrences(line, blacklist.drop_last()) + occurrences(line, blacklist.last(), 0)
    }
}

/// Goes through `candidates` in order and accepts each one that overlaps
/// none of those accepted before it.
pub open spec fn accept_disjoint(candidates: Seq<Range>) -> Seq<Range>
    decreases candidates.len(),
{
    if candidates.len() == 0 {
        Seq::empty()
    } else {
        let accepted = accept_disjoint(candidates.drop_last());
        if overlaps_any(candidates.last(), accepted) {
            accepted
        } else {
            accepted.push(candidates.last())
        }
    }
}

/// The blacklist ranges of a line: of the places at which blacklist tokens
/// stand, taken in ascending order of their starts, each one that overlaps
/// none accepted before it.
pub open spec fn accepted_blacklist(line: Seq<u8>, blacklist: Seq<Seq<u8>>) -> Seq<Range> {
    accept_disjoint(sorted_by_start(blacklist_occurrences(line, blacklist)))
}

/// The matches that overlap none of the blacklist ranges, in their order.
pub open spec fn drop_blacklisted(matches: Seq<Match>, blacklisted: Seq<Range>) -> Seq<Match>
    decreases matches.len(),
{
    if matches.len() == 0 {
        Seq::empty()
    } else {
        let kept = drop_blacklisted(matches.drop_last(), blacklisted);
        if overlaps_any(matches.last().range, blacklisted) {
            kept
        } else {
            kept.push(matches.last())
        }
    }
}

/// Whether `r` overlaps one of `others`.
pub fn overlaps_one_of(r: &Range, others: &Vec<Range>) -> (found: bool)
    ensures
        found == overlaps_any(*r, others@),
{
    let mut i: usize = 0;
    while i < others.len()
        invariant
            i <= others.len(),
            forall|k: int| 0 <= k < i ==> !(#[trigger] others@[k]).spec_overlaps(*r),
        decreases others.len() - i,
    {
        if others[i].overlaps(r) {
            return true;
        }
        i += 1;
    }
    false
}

/// The ranges of the line that the blacklist protects.
pub fn collect_blacklist_ranges(line: &str, blacklists: &[String]) -> (accepted: Vec<Range>)
    ensures
        accepted@ == accepted_blacklist(encode_utf8(line@), bytes_of(blacklists@)),
{
    let bytes = line.as_bytes();
    let ghost tokens = bytes_of(blacklists@);
    let mut found: Vec<Match> = Vec::new();
    let mut i: usize = 0;
    assert(marked(blacklist_occurrences(bytes@, tokens.take(0)), TokenKind::LineComment) =~= found@);
    while i < blacklists.len()
        invariant
            i <= blacklists.len(),
            tokens == bytes_of(blacklists@),
            found@ == marked(
                blacklist_occurrences(bytes@, tokens.take(i as int)),
                TokenKind::LineComment,
            ),
        decreases blacklists.len() - i,
    {
        proof {
            let upto = tokens.take(i + 1);
            assert(upto.drop_last() == tokens.take(i as int));
            assert(upto.last() == tokens[i as int]);
            assert(marked(
                blacklist_occurrences(bytes@, tokens.take(i as int)) + occurrences(
                    bytes@,
                    tokens[i as int],
                    0,
                ),
                TokenKind::LineComment,
            ) =~= marked(
                blacklist_occurrences(bytes@, tokens.take(i as int)),
                TokenKind::LineComment,
            ) + marked(occurrences(bytes@, tokens[i as int], 0), TokenKind::LineComment));
        }
        find_token(bytes, blacklists[i].as_str().as_bytes(), TokenKind::LineComment, &mut found);
        i += 1;
    }
    assert(tokens.take(i as int) == tokens);
    let mut candidates: Vec<Range> = Vec::new();
    let mut j: usize = 0;
    while j < found.len()
        invariant
            j <= found.len(),
            found@ == marked(blacklist_occurrences(bytes@, tokens), TokenKind::LineComment),
            candidates@ == blacklist_occurrences(bytes@, tokens).take(j as int),
        decreases found.len() - j,
    {
        candidates.push(found[j].range);
        assert(candidates@ =~= blacklist_occurrences(bytes@, tokens).take(j + 1));
        j += 1;
    }
    assert(candidates@ =~= blacklist_occurrences(bytes@, tokens));
    sort_by_start(&mut candidates);
    let mut accepted: Vec<Range> = Vec::new();
    let mut k: usize = 0;
    while k < candidates.len()
        invariant
            k <= candidates.len(),
            accepted@ == accept_disjoint(candidates@.take(k as int)),
        decreases candidates.len() - k,
    {
        proof {
            let upto = candidates@.take(k + 1);
            assert(upto.drop_last() == candidates@.take(k as int));
            assert(upto.last() == candidates@[k as int]);
        }
        let candidate = candidates[k];
        if !overlaps_one_of(&candidate, &accepted) {
            accepted.push(candidate);
        }
        k += 1;
    }
    assert(candidates@.take(k as int) == candidates@);
    accepted
}

/// Drops every match that overlaps a blacklist range.
pub fn retain_unlisted(matches: &mut Vec<Match>, blacklisted: &Vec<Range>)
    ensures
        final(matches)@ == drop_blacklisted(old(matches)@, blacklisted@),
{
    let mut kept: Vec<Match> = Vec::new();
    let mut i: usize = 0;
    while i < matches.len()
        invariant
            i <= matches.len(),
            kept@ == drop_blacklisted(matches@.take(i as int), blacklisted@),
        decreases matches.len() - i,
    {
        proof {
            let upto = matches@.take(i + 1);
            assert(upto.drop_last() == matches@.take(i as int));
            assert(upto.last() == matches@[i as int]);
        }
        let m = matches[i];
        if !overlaps_one_of(&m.range, blacklisted) {
            kept.push(m);
        }
        i += 1;
    }
    assert(matches@.take(i as int) == matches@);
    *matches = kept;
}

} // verus!

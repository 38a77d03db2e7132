//! Fuzzy matching of a query against a text.
//!
//! A query matches a text when its characters occur in the text in the same
//! order, ASCII letters compared without regard to case. The places where they
//! occur are an alignment. An alignment scores [`MATCH_BONUS`] for each
//! character of the query and loses one point for each character of the text
//! that it skips between its first and its last place. The score of a match is
//! that of its best alignment. Scores are `i128`: no text is long enough to
//! overflow them.

use crate::text::{chars_of, fold, fold_char};
use vstd::prelude::*;

verus! {

/// What each matched character of the query adds to a score.
pub const MATCH_BONUS: i128 = 16;

/// Two characters that count as the same in a match.
pub open spec fn chars_match(a: char, b: char) -> bool {
    fold(a) == fold(b)
}

/// `at` gives, for each character of `query`, a place in `text` that holds it,
/// the places in increasing order.
pub open spec fn is_alignment(query: Seq<char>, text: Seq<char>, at: Seq<int>) -> bool {
    &&& at.len() == query.len()
    &&& forall|i: int|
        0 <= i < at.len() ==> 0 <= #[trigger] at[i] < text.len() && chars_match(
            query[i],
            text[at[i]],
        )
    &&& forall|i: int, j: int| 0 <= i < j < at.len() ==> #[trigger] at[i] < #[trigger] at[j]
}

/// How many characters of the text an alignment skips between its first and
/// its last place.
pub open spec fn gaps(at: Seq<int>) -> int {
    if at.len() == 0 {
        0
    } else {
        at.last() - at[0] + 1 - at.len()
    }
}

/// The score of one alignment.
pub open spec fn alignment_score(at: Seq<int>) -> int {
    MATCH_BONUS * at.len() - gaps(at)
}

/// The query occurs in the text.
pub open spec fn is_match(query: Seq<char>, text: Seq<char>) -> bool {
    exists|at: Seq<int>| is_alignment(query, text, at)
}

/// Some alignment of the query in the text has this score, and none has more.
pub open spec fn is_best_score(query: Seq<char>, text: Seq<char>, score: int) -> bool {
    &&& exists|at: Seq<int>| is_alignment(query, text, at) && alignment_score(at) == score
    &&& forall|at: Seq<int>| is_alignment(query, text, at) ==> alignment_score(at) <= score
}

/// The score of the query against the text: that of its best alignment, or
/// `None` where the query does not occur in the text.
pub open spec fn fuzzy_score(query: Seq<char>, text: Seq<char>) -> Option<int> {
    if is_match(query, text) {
        Some(choose|score: int| is_best_score(query, text, score))
    } else {
        None
    }
}

/// A best score is the only one.
pub proof fn lemma_best_score_unique(query: Seq<char>, text: Seq<char>, a: int, b: int)
    requires
        is_best_score(query, text, a),
        is_best_score(query, text, b),
    ensures
        a == b,
{
}

/// A best score is the score of the query against the text.
pub proof fn lemma_best_score_is_fuzzy_score(query: Seq<char>, text: Seq<char>, score: int)
    requires
        is_best_score(query, text, score),
    ensures
        fuzzy_score(query, text) == Some(score),
{
    let chosen = choose|s: int| is_best_score(query, text, s);
    lemma_best_score_unique(query, text, chosen, score);
}

/// Where a query matches, its score is a best score.
pub proof fn lemma_fuzzy_score_is_best(query: Seq<char>, text: Seq<char>)
    ensures
        fuzzy_score(query, text) matches Some(score) ==> is_best_score(query, text, score),
        fuzzy_score(query, text) is None <==> !is_match(query, text),
{
    if is_match(query, text) {
        let at = choose|at: Seq<int>| is_alignment(query, text, at);
        lemma_some_alignment_is_best(query, text, at, gaps(at));
    }
}

/// The places of an alignment lie at least as far apart as their indices.
proof fn lemma_alignment_spread(query: Seq<char>, text: Seq<char>, at: Seq<int>, i: int, j: int)
    requires
        is_alignment(query, text, at),
        0 <= i <= j < at.len(),
    ensures
        at[j] - at[i] >= j - i,
    decreases j - i,
{
    if i < j {
        lemma_alignment_spread(query, text, at, i, j - 1);
        assert(at[j - 1] < at[j]);
    }
}

/// No alignment skips a negative number of characters.
pub proof fn lemma_gaps_not_negative(query: Seq<char>, text: Seq<char>, at: Seq<int>)
    requires
        is_alignment(query, text, at),
    ensures
        0 <= gaps(at) <= text.len() - query.len(),
        alignment_score(at) <= MATCH_BONUS * query.len(),
{
    if at.len() > 0 {
        lemma_alignment_spread(query, text, at, 0, at.len() - 1);
        assert(0 <= at[0]);
        assert(at[at.len() - 1] < text.len());
    }
}

/// Among the alignments of a query that matches, one skips the fewest
/// characters, and its score is the best.
proof fn lemma_some_alignment_is_best(query: Seq<char>, text: Seq<char>, at: Seq<int>, bound: int)
    requires
        is_alignment(query, text, at),
        gaps(at) <= bound,
    ensures
        exists|score: int| is_best_score(query, text, score),
    decreases bound,
{
    lemma_gaps_not_negative(query, text, at);
    if exists|other: Seq<int>| is_alignment(query, text, other) && gaps(other) < gaps(at) {
        let other = choose|other: Seq<int>|
            is_alignment(query, text, other) && gaps(other) < gaps(at);
        lemma_gaps_not_negative(query, text, other);
        lemma_some_alignment_is_best(query, text, other, gaps(at) - 1);
    } else {
        let score = alignment_score(at);
        assert forall|other: Seq<int>| is_alignment(query, text, other) implies alignment_score(
            other,
        ) <= score by {
            assert(gaps(other) >= gaps(at));
            assert(other.len() == at.len());
        }
        assert(is_best_score(query, text, score));
    }
}

/// A query of which no character occurs in the text does not match it.
pub proof fn lemma_no_common_character_no_match(query: Seq<char>, text: Seq<char>)
    requires
        query.len() > 0,
        forall|i: int, j: int|
            0 <= i < query.len() && 0 <= j < text.len() ==> !chars_match(
                #[trigger] query[i],
                #[trigger] text[j],
            ),
    ensures
        !is_match(query, text),
        fuzzy_score(query, text) is None,
{
    assert forall|at: Seq<int>| !is_alignment(query, text, at) by {
        if is_alignment(query, text, at) {
            assert(0 <= at[0] < text.len());
            assert(chars_match(query[0], text[at[0]]));
        }
    }
}

/// A query that stands in the text as it is, from place `from` on, has the
/// highest score that a query of its length can have.
pub proof fn lemma_contiguous_match_scores_highest(query: Seq<char>, text: Seq<char>, from: int)
    requires
        0 <= from,
        from + query.len() <= text.len(),
        forall|i: int| 0 <= i < query.len() ==> chars_match(query[i], #[trigger] text[from + i]),
    ensures
        fuzzy_score(query, text) == Some(MATCH_BONUS * query.len()),
{
    let at = Seq::new(query.len(), |i: int| from + i);
    assert(is_alignment(query, text, at)) by {
        assert forall|i: int| 0 <= i < at.len() implies 0 <= #[trigger] at[i] < text.len()
            && chars_match(query[i], text[at[i]]) by {
            assert(chars_match(query[i], text[from + i]));
        }
    }
    assert(gaps(at) == 0);
    let score = MATCH_BONUS * query.len();
    assert(alignment_score(at) == score);
    assert forall|other: Seq<int>| is_alignment(query, text, other) implies alignment_score(other)
        <= score by {
        lemma_gaps_not_negative(query, text, other);
    }
    lemma_best_score_is_fuzzy_score(query, text, score);
}

/// Whether two characters count as the same in a match.
pub fn same_char(a: char, b: char) -> (r: bool)
    ensures
        r == chars_match(a, b),
{
    fold_char(a) == fold_char(b)
}

/// The earliest place at which an alignment that starts at `start` or later can
/// end, where there is one; that place is reached by an alignment that starts
/// at `start`.
fn earliest_end(query: &Vec<char>, text: &Vec<char>, start: usize) -> (r: Option<usize>)
    requires
        query.len() > 0,
        start < text.len(),
        chars_match(query[0], text[start as int]),
    ensures
        match r {
            Some(end) => {
                &&& start <= end < text.len()
                &&& exists|at: Seq<int>|
                    is_alignment(query@, text@, at) && at[0] == start && at.last() == end
                &&& forall|other: Seq<int>|
                    is_alignment(query@, text@, other) && other[0] >= start ==> other.last() >= end
            },
            None => forall|other: Seq<int>|
                is_alignment(query@, text@, other) ==> other[0] < start,
        },
{
    let m = query.len();
    let n = text.len();
    let mut i: usize = 1;
    let mut last: usize = start;
    let ghost mut at: Seq<int> = seq![start as int];
    proof {
        assert(query@.take(1)[0] == query@[0]);
        assert(is_alignment(query@.take(1), text@, at));
    }
    while i < m
        invariant
            1 <= i <= m,
            m == query.len(),
            n == text.len(),
            start <= last < n,
            is_alignment(query@.take(i as int), text@, at),
            at[0] == start,
            at.last() == last,
            forall|other: Seq<int>|
                is_alignment(query@, text@, other) && other[0] >= start ==> other[i - 1] >= last,
        decreases m - i,
    {
        let mut p: usize = last + 1;
        while p < n && !same_char(query[i], text[p])
            invariant
                last < p <= n,
                i < m,
                m == query.len(),
                n == text.len(),
                forall|k: int| last < k < p ==> !chars_match(query[i as int], #[trigger] text[k]),
            decreases n - p,
        {
            p += 1;
        }
        if p >= n {
            proof {
                assert forall|other: Seq<int>| is_alignment(query@, text@, other) implies other[0]
                    < start by {
                    if other[0] >= start {
                        assert(other[i - 1] < other[i as int]);
                        assert(0 <= other[i as int] < text.len() && chars_match(
                            query[i as int],
                            text[other[i as int]],
                        ));
                    }
                }
            }
            return None;
        }
        proof {
            let longer = at.push(p as int);
            let part = query@.take(i + 1);
            assert forall|k: int| 0 <= k < longer.len() implies 0 <= #[trigger] longer[k]
                < text.len() && chars_match(part[k], text[longer[k]]) by {
                if k < i {
                    assert(longer[k] == at[k]);
                    assert(part[k] == query@.take(i as int)[k]);
                }
            }
            assert forall|k: int, l: int| 0 <= k < l < longer.len() implies #[trigger] longer[k]
                < #[trigger] longer[l] by {
                if l < i {
                    assert(at[k] < at[l]);
                } else {
                    if k < i - 1 {
                        assert(at[k] < at[i - 1]);
                    }
                }
            }
            assert(is_alignment(part, text@, longer));
            assert forall|other: Seq<int>|
                is_alignment(query@, text@, other) && other[0] >= start implies other[i as int]
                >= p by {
                assert(other[i - 1] < other[i as int]);
                assert(0 <= other[i as int] < text.len() && chars_match(
                    query[i as int],
                    text[other[i as int]],
                ));
            }
            at = longer;
        }
        last = p;
        i += 1;
    }
    proof {
        assert(query@.take(m as int) =~= query@);
    }
    Some(last)
}

/// The score of a query against a text, both given by their characters.
pub fn score_chars(query: &Vec<char>, text: &Vec<char>) -> (r: Option<i128>)
    ensures
        r matches Some(score) ==> is_best_score(query@, text@, score as int),
        r is None ==> !is_match(query@, text@),
        fuzzy_score(query@, text@) == match r {
            Some(score) => Some(score as int),
            None => None,
        },
{
    let m = query.len();
    let n = text.len();
    if m == 0 {
        proof {
            let none: Seq<int> = Seq::empty();
            assert(is_alignment(query@, text@, none));
            assert(alignment_score(none) == 0);
            assert(is_best_score(query@, text@, 0));
            lemma_best_score_is_fuzzy_score(query@, text@, 0);
        }
        return Some(0);
    }
    let mut best: Option<usize> = None;
    let ghost mut best_at: Seq<int> = Seq::empty();
    let mut start: usize = 0;
    while start < n
        invariant
            start <= n,
            m == query.len(),
            m > 0,
            n == text.len(),
            match best {
                Some(width) => {
                    &&& is_alignment(query@, text@, best_at)
                    &&& best_at.last() - best_at[0] == width
                    &&& forall|other: Seq<int>|
                        is_alignment(query@, text@, other) && other[0] < start ==> other.last()
                            - other[0] >= width
                },
                None => forall|other: Seq<int>|
                    is_alignment(query@, text@, other) ==> other[0] >= start,
            },
        decreases n - start,
    {
        let mut next: usize = start + 1;
        if same_char(query[0], text[start]) {
            match earliest_end(query, text, start) {
                Some(end) => {
                    let width = end - start;
                    let better = match best {
                        Some(known) => width < known,
                        None => true,
                    };
                    if better {
                        proof {
                            best_at = choose|at: Seq<int>|
                                is_alignment(query@, text@, at) && at[0] == start && at.last()
                                    == end;
                        }
                        best = Some(width);
                    }
                },
                None => {
                    next = n;
                },
            }
        } else {
            proof {
                assert forall|other: Seq<int>|
                    is_alignment(query@, text@, other) implies other[0] != start by {
                    assert(0 <= other[0] < text.len() && chars_match(query[0], text[other[0]]));
                }
            }
        }
        start = next;
    }
    match best {
        Some(width) => {
            let score: i128 = MATCH_BONUS * (m as i128) - ((width as i128) + 1 - (m as i128));
            proof {
                assert(alignment_score(best_at) == score);
                assert forall|other: Seq<int>|
                    is_alignment(query@, text@, other) implies alignment_score(other) <= score by {
                    assert(0 <= other[0] < text.len());
                    assert(other.last() - other[0] >= width);
                }
                assert(is_best_score(query@, text@, score as int));
                lemma_best_score_is_fuzzy_score(query@, text@, score as int);
            }
            Some(score)
        },
        None => {
            proof {
                assert forall|other: Seq<int>| !is_alignment(query@, text@, other) by {
                    if is_alignment(query@, text@, other) {
                        assert(0 <= other[0] < text.len());
                    }
                }
            }
            None
        },
    }
}

/// The score of a query against a text, or `None` where the query does not
/// occur in the text.
pub fn fuzzy_match(query: &str, text: &str) -> (r: Option<i128>)
    ensures
        r matches Some(score) ==> is_best_score(query@, text@, score as int),
        r is None ==> !is_match(query@, text@),
        fuzzy_score(query@, text@) == match r {
            Some(score) => Some(score as int),
            None => None,
        },
{
    let query_chars = chars_of(query);
    let text_chars = chars_of(text);
    score_chars(&query_chars, &text_chars)
}

} // verus!

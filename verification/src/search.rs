//! Ranking of candidates by how well a query matches their text.
//!
//! The candidates that the query matches are ordered by score, the highest
//! first; of two with the same score the one that came first stays first. The
//! best `limit` of them are the result.

use crate::file::{views, FileIdentity, FileKey};
use crate::fuzzy::{chars_match, fuzzy_score, lemma_no_common_character_no_match, score_chars};
use crate::text::chars_of;
use vstd::prelude::*;

verus! {

/// How many results a search gives where the caller names no other number.
pub const DEFAULT_LIMIT: usize = 10;

/// A file and its text, as the index hands them to a search.
#[derive(Debug, Clone, PartialEq, Eq)]
pub struct SearchCandidate {
    pub identity: FileIdentity,
    pub text: String,
}

/// A [`SearchCandidate`] by its characters.
pub struct CandidateView {
    pub identity: FileKey,
    pub text: Seq<char>,
}

impl View for SearchCandidate {
    type V = CandidateView;

    open spec fn view(&self) -> CandidateView {
        CandidateView { identity: self.identity@, text: self.text@ }
    }
}

/// A candidate that the query matches, with its score and its place among the
/// candidates.
#[derive(Debug, Clone, PartialEq, Eq)]
pub struct RankedResult {
    pub score: i128,
    pub index: usize,
    pub identity: FileIdentity,
    pub text: String,
}

/// A [`RankedResult`] by its characters.
pub struct RankedView {
    pub score: int,
    pub index: int,
    pub identity: FileKey,
    pub text: Seq<char>,
}

impl View for RankedResult {
    type V = RankedView;

    open spec fn view(&self) -> RankedView {
        RankedView {
            score: self.score as int,
            index: self.index as int,
            identity: self.identity@,
            text: self.text@,
        }
    }
}

/// The score of the query against the candidate at place `i`.
pub open spec fn score_at(query: Seq<char>, candidates: Seq<CandidateView>, i: int) -> Option<int> {
    fuzzy_score(query, candidates[i].text)
}

/// The candidate at place `i` comes before the one at place `j`: both match,
/// and `i` has the higher score, or the same score and the earlier place.
pub open spec fn outranks(query: Seq<char>, candidates: Seq<CandidateView>, i: int, j: int) -> bool {
    let a = score_at(query, candidates, i);
    let b = score_at(query, candidates, j);
    a is Some && b is Some && (a->0 > b->0 || (a->0 == b->0 && i < j))
}

/// `order` lists the places of the best `limit` matches among the first `n`
/// candidates, the best first.
pub open spec fn ranks_first(
    query: Seq<char>,
    candidates: Seq<CandidateView>,
    limit: nat,
    order: Seq<int>,
    n: int,
) -> bool {
    &&& order.len() <= limit
    &&& forall|k: int|
        0 <= k < order.len() ==> 0 <= #[trigger] order[k] < n && score_at(
            query,
            candidates,
            order[k],
        ) is Some
    &&& forall|k: int, l: int|
        0 <= k < l < order.len() ==> outranks(
            query,
            candidates,
            #[trigger] order[k],
            #[trigger] order[l],
        )
    &&& forall|j: int|
        0 <= j < n && (#[trigger] score_at(query, candidates, j)) is Some && !order.contains(j)
            ==> order.len() == limit
    &&& forall|j: int, k: int|
        0 <= j < n && (#[trigger] score_at(query, candidates, j)) is Some && !order.contains(j)
            && 0 <= k < order.len() ==> outranks(query, candidates, #[trigger] order[k], j)
}

/// `order` lists the places of the best `limit` matches among the candidates,
/// the best first: each place is that of a match, each comes before the next,
/// and a match that is left out comes after all `limit` that are listed.
pub open spec fn is_ranking(
    query: Seq<char>,
    candidates: Seq<CandidateView>,
    limit: nat,
    order: Seq<int>,
) -> bool {
    ranks_first(query, candidates, limit, order, candidates.len() as int)
}

/// How many of the first `n` candidates the query matches.
pub open spec fn match_count(query: Seq<char>, candidates: Seq<CandidateView>, n: int) -> int
    decreases n,
{
    if n <= 0 {
        0
    } else {
        match_count(query, candidates, n - 1) + if score_at(query, candidates, n - 1) is Some {
            1int
        } else {
            0int
        }
    }
}

/// `count`, or `limit` where `count` is more.
pub open spec fn capped(count: int, limit: nat) -> int {
    if count <= limit {
        count
    } else {
        limit as int
    }
}

/// What a ranked result holds for the candidate at place `i`.
pub open spec fn ranked_of(query: Seq<char>, candidates: Seq<CandidateView>, i: int) -> RankedView {
    RankedView {
        score: score_at(query, candidates, i)->0,
        index: i,
        identity: candidates[i].identity,
        text: candidates[i].text,
    }
}

/// The candidates at the places that `order` lists.
pub open spec fn picked(candidates: Seq<CandidateView>, order: Seq<int>) -> Seq<CandidateView> {
    order.map_values(|i: int| candidates[i])
}

/// `found` holds the best `limit` matches among the candidates, the best
/// first.
pub open spec fn is_search_result(
    query: Seq<char>,
    candidates: Seq<CandidateView>,
    limit: nat,
    found: Seq<CandidateView>,
) -> bool {
    exists|order: Seq<int>|
        is_ranking(query, candidates, limit, order) && found == picked(candidates, order)
}

/// The places that a list of scores and places holds.
pub open spec fn places(top: Seq<(i128, usize)>) -> Seq<int> {
    top.map_values(|entry: (i128, usize)| entry.1 as int)
}

/// The places that a list of ranked results holds.
pub open spec fn order_of(results: Seq<RankedResult>) -> Seq<int> {
    results.map_values(|result: RankedResult| result.index as int)
}

/// The order after the candidate at place `n` was put in at place `p`.
pub open spec fn with_next(order: Seq<int>, limit: nat, n: int, p: int) -> Seq<int> {
    if p == order.len() && order.len() >= limit {
        order
    } else if order.len() < limit {
        order.insert(p, n)
    } else {
        order.insert(p, n).drop_last()
    }
}

/// A candidate that the query does not match changes no ranking.
proof fn lemma_rank_skip(
    query: Seq<char>,
    candidates: Seq<CandidateView>,
    limit: nat,
    order: Seq<int>,
    n: int,
)
    requires
        ranks_first(query, candidates, limit, order, n),
        score_at(query, candidates, n) is None,
    ensures
        ranks_first(query, candidates, limit, order, n + 1),
{
}

/// A candidate that the query matches takes its place among the best, and the
/// last of them leaves where they are more than `limit`.
proof fn lemma_rank_insert(
    query: Seq<char>,
    candidates: Seq<CandidateView>,
    limit: nat,
    order: Seq<int>,
    n: int,
    p: int,
)
    requires
        ranks_first(query, candidates, limit, order, n),
        0 <= n,
        score_at(query, candidates, n) is Some,
        0 <= p <= order.len(),
        forall|k: int|
            0 <= k < p ==> score_at(query, candidates, #[trigger] order[k])->0 >= score_at(
                query,
                candidates,
                n,
            )->0,
        forall|k: int|
            p <= k < order.len() ==> score_at(query, candidates, #[trigger] order[k])->0
                < score_at(query, candidates, n)->0,
    ensures
        ranks_first(query, candidates, limit, with_next(order, limit, n, p), n + 1),
{
    let next = with_next(order, limit, n, p);
    let len = order.len() as int;
    assert(!order.contains(n)) by {
        if order.contains(n) {
            let k = choose|k: int| 0 <= k < order.len() && order[k] == n;
            assert(order[k] < n);
        }
    }
    assert forall|k: int| 0 <= k < p implies outranks(query, candidates, #[trigger] order[k], n) by {
        assert(order[k] < n);
    }
    assert forall|k: int| p <= k < len implies outranks(query, candidates, n, #[trigger] order[k]) by {
        assert(order[k] < n);
    }
    if p == len && len >= limit {
        assert forall|j: int|
            0 <= j < n + 1 && (#[trigger] score_at(query, candidates, j)) is Some
                && !next.contains(j) implies next.len() == limit by {}
        assert forall|j: int, k: int|
            0 <= j < n + 1 && (#[trigger] score_at(query, candidates, j)) is Some
                && !next.contains(j) && 0 <= k < next.len() implies outranks(
            query,
            candidates,
            #[trigger] next[k],
            j,
        ) by {
            if j == n {
                assert(outranks(query, candidates, order[k], n));
            }
        }
    } else {
        let wide = order.insert(p, n);
        assert(wide.len() == len + 1);
        assert forall|k: int| 0 <= k < wide.len() implies 0 <= #[trigger] wide[k] < n + 1
            && score_at(query, candidates, wide[k]) is Some by {
            if k < p {
                assert(wide[k] == order[k]);
            } else if k > p {
                assert(wide[k] == order[k - 1]);
            }
        }
        assert forall|k: int, l: int| 0 <= k < l < wide.len() implies outranks(
            query,
            candidates,
            #[trigger] wide[k],
            #[trigger] wide[l],
        ) by {
            if l < p {
                assert(wide[k] == order[k] && wide[l] == order[l]);
            } else if l == p {
                assert(wide[k] == order[k]);
                assert(outranks(query, candidates, order[k], n));
            } else if k == p {
                assert(wide[l] == order[l - 1]);
                assert(outranks(query, candidates, n, order[l - 1]));
            } else if k < p {
                assert(wide[k] == order[k] && wide[l] == order[l - 1]);
                if k == l - 1 {
                } else {
                    assert(outranks(query, candidates, order[k], order[l - 1]));
                }
            } else {
                assert(wide[k] == order[k - 1] && wide[l] == order[l - 1]);
                assert(outranks(query, candidates, order[k - 1], order[l - 1]));
            }
        }
        assert forall|j: int| order.contains(j) implies wide.contains(j) by {
            let k = choose|k: int| 0 <= k < order.len() && order[k] == j;
            if k < p {
                assert(wide[k] == j);
            } else {
                assert(wide[k + 1] == j);
            }
        }
        assert(wide[p] == n);
        assert(wide.contains(n));
        if len < limit {
            assert(next == wide);
            assert forall|j: int|
                0 <= j < n + 1 && (#[trigger] score_at(query, candidates, j)) is Some
                    && !next.contains(j) implies false by {
                if j < n {
                    assert(!order.contains(j));
                }
            }
        } else {
            assert(len == limit);
            assert(p < len);
            let gone = order[len - 1];
            assert(wide[len] == gone);
            assert(next =~= wide.drop_last());
            assert(next.len() == limit);
            assert forall|k: int| 0 <= k < next.len() implies #[trigger] next[k] == wide[k] by {}
            assert forall|k: int| 0 <= k < next.len() implies outranks(
                query,
                candidates,
                #[trigger] next[k],
                gone,
            ) by {
                assert(next[k] == wide[k]);
                assert(outranks(query, candidates, wide[k], wide[len]));
            }
            assert forall|j: int| wide.contains(j) && j != gone implies next.contains(j) by {
                let k = choose|k: int| 0 <= k < wide.len() && wide[k] == j;
                assert(k < len);
                assert(next[k] == j);
            }
            assert forall|j: int, k: int|
                0 <= j < n + 1 && (#[trigger] score_at(query, candidates, j)) is Some
                    && !next.contains(j) && 0 <= k < next.len() implies outranks(
                query,
                candidates,
                #[trigger] next[k],
                j,
            ) by {
                assert(outranks(query, candidates, next[k], gone));
                if j != gone {
                    assert(!wide.contains(j));
                    assert(!order.contains(j));
                    assert(j != n);
                    assert(outranks(query, candidates, order[len - 1], j));
                }
            }
        }
    }
}

/// The best `limit` matches are as many as there are matches, or `limit` where
/// there are more.
proof fn lemma_count_step(
    query: Seq<char>,
    candidates: Seq<CandidateView>,
    limit: nat,
    order: Seq<int>,
    n: int,
    p: int,
)
    requires
        0 <= n,
        0 <= p <= order.len(),
        order.len() <= limit,
        order.len() == limit || order.len() == match_count(query, candidates, n),
        order.len() <= match_count(query, candidates, n),
        score_at(query, candidates, n) is Some,
    ensures
        with_next(order, limit, n, p).len() <= match_count(query, candidates, n + 1),
        with_next(order, limit, n, p).len() == limit || with_next(order, limit, n, p).len()
            == match_count(query, candidates, n + 1),
{
}

/// Two rankings of the same candidates agree on their first `k` places.
proof fn lemma_rankings_agree(
    query: Seq<char>,
    candidates: Seq<CandidateView>,
    limit: nat,
    a: Seq<int>,
    b: Seq<int>,
    k: int,
)
    requires
        is_ranking(query, candidates, limit, a),
        is_ranking(query, candidates, limit, b),
        0 <= k <= a.len(),
        k <= b.len(),
    ensures
        a.take(k) == b.take(k),
    decreases k,
{
    if k == 0 {
        assert(a.take(0) =~= b.take(0));
    } else {
        lemma_rankings_agree(query, candidates, limit, a, b, k - 1);
        let x = a[k - 1];
        let y = b[k - 1];
        assert forall|i: int| 0 <= i < k - 1 implies a[i] == b[i] by {
            assert(a.take(k - 1)[i] == b.take(k - 1)[i]);
        }
        if x != y {
            // each of the two comes before the other
            assert(outranks(query, candidates, x, y)) by {
                if a.contains(y) {
                    let i = choose|i: int| 0 <= i < a.len() && a[i] == y;
                    if i < k - 1 {
                        assert(b[i] == y);
                        assert(outranks(query, candidates, b[i], b[k - 1]));
                    } else {
                        assert(outranks(query, candidates, a[k - 1], a[i]));
                    }
                } else {
                    assert(score_at(query, candidates, y) is Some);
                    assert(outranks(query, candidates, a[k - 1], y));
                }
            }
            assert(outranks(query, candidates, y, x)) by {
                if b.contains(x) {
                    let i = choose|i: int| 0 <= i < b.len() && b[i] == x;
                    if i < k - 1 {
                        assert(a[i] == x);
                        assert(outranks(query, candidates, a[i], a[k - 1]));
                    } else {
                        assert(outranks(query, candidates, b[k - 1], b[i]));
                    }
                } else {
                    assert(score_at(query, candidates, x) is Some);
                    assert(outranks(query, candidates, b[k - 1], x));
                }
            }
        }
        assert(a.take(k) =~= b.take(k)) by {
            assert forall|i: int| 0 <= i < k implies a.take(k)[i] == b.take(k)[i] by {}
        }
    }
}

/// The candidates have one ranking only.
pub proof fn lemma_ranking_unique(
    query: Seq<char>,
    candidates: Seq<CandidateView>,
    limit: nat,
    a: Seq<int>,
    b: Seq<int>,
)
    requires
        is_ranking(query, candidates, limit, a),
        is_ranking(query, candidates, limit, b),
    ensures
        a == b,
{
    if a.len() <= b.len() {
        lemma_rankings_agree(query, candidates, limit, a, b, a.len() as int);
        lemma_ranking_not_longer(query, candidates, limit, a, b);
    } else {
        lemma_rankings_agree(query, candidates, limit, a, b, b.len() as int);
        lemma_ranking_not_longer(query, candidates, limit, b, a);
    }
    assert(a.take(a.len() as int) =~= a);
    assert(b.take(b.len() as int) =~= b);
}

/// A ranking that starts as another one does is no longer than that one.
proof fn lemma_ranking_not_longer(
    query: Seq<char>,
    candidates: Seq<CandidateView>,
    limit: nat,
    a: Seq<int>,
    b: Seq<int>,
)
    requires
        is_ranking(query, candidates, limit, a),
        is_ranking(query, candidates, limit, b),
        a.len() <= b.len(),
        a.take(a.len() as int) == b.take(a.len() as int),
    ensures
        a.len() == b.len(),
{
    if a.len() < b.len() {
        let y = b[a.len() as int];
        assert(score_at(query, candidates, y) is Some);
        if a.contains(y) {
            let i = choose|i: int| 0 <= i < a.len() && a[i] == y;
            assert(a.take(a.len() as int)[i] == a[i]);
            assert(b.take(a.len() as int)[i] == b[i]);
            assert(b[i] == y);
            assert(outranks(query, candidates, b[i], b[a.len() as int]));
        }
    }
}

/// The results of a ranking come in order of score, the highest first, and
/// each is a match.
pub proof fn lemma_ranking_scores_descend(
    query: Seq<char>,
    candidates: Seq<CandidateView>,
    limit: nat,
    order: Seq<int>,
    k: int,
    l: int,
)
    requires
        is_ranking(query, candidates, limit, order),
        0 <= k <= l < order.len(),
    ensures
        order.len() <= limit,
        score_at(query, candidates, order[k]) is Some,
        score_at(query, candidates, order[l]) is Some,
        score_at(query, candidates, order[k])->0 >= score_at(query, candidates, order[l])->0,
{
    if k < l {
        assert(outranks(query, candidates, order[k], order[l]));
    }
}

/// A candidate that the query does not match is in no ranking, whatever the
/// limit.
pub proof fn lemma_unmatched_is_left_out(
    query: Seq<char>,
    candidates: Seq<CandidateView>,
    limit: nat,
    order: Seq<int>,
    j: int,
)
    requires
        is_ranking(query, candidates, limit, order),
        score_at(query, candidates, j) is None,
    ensures
        !order.contains(j),
{
    if order.contains(j) {
        let k = choose|k: int| 0 <= k < order.len() && order[k] == j;
        assert(score_at(query, candidates, order[k]) is Some);
    }
}

/// A candidate whose text holds no character of the query is in no ranking,
/// whatever the limit. (The empty query matches every text.)
pub proof fn lemma_no_common_character_is_left_out(
    query: Seq<char>,
    candidates: Seq<CandidateView>,
    limit: nat,
    order: Seq<int>,
    j: int,
)
    requires
        is_ranking(query, candidates, limit, order),
        query.len() > 0,
        forall|i: int, k: int|
            0 <= i < query.len() && 0 <= k < candidates[j].text.len() ==> !chars_match(
                #[trigger] query[i],
                #[trigger] candidates[j].text[k],
            ),
    ensures
        !order.contains(j),
{
    lemma_no_common_character_no_match(query, candidates[j].text);
    lemma_unmatched_is_left_out(query, candidates, limit, order, j);
}

impl SearchCandidate {
    /// A copy.
    pub fn duplicate(&self) -> (r: SearchCandidate)
        ensures
            r@ == self@,
    {
        SearchCandidate { identity: self.identity.duplicate(), text: self.text.clone() }
    }
}

/// The best `limit` candidates that the query matches, each with its score and
/// its place among the candidates, the best first.
pub fn rank(query: &str, candidates: &Vec<SearchCandidate>, limit: usize) -> (r: Vec<RankedResult>)
    ensures
        is_ranking(query@, views(candidates@), limit as nat, order_of(r@)),
        forall|k: int|
            0 <= k < r.len() ==> (#[trigger] r[k])@ == ranked_of(
                query@,
                views(candidates@),
                r[k].index as int,
            ),
        r.len() == capped(
            match_count(query@, views(candidates@), candidates.len() as int),
            limit as nat,
        ),
{
    let query_chars = chars_of(query);
    let ghost cands = views(candidates@);
    let mut top: Vec<(i128, usize)> = Vec::new();
    let mut j: usize = 0;
    proof {
        assert(places(top@) =~= Seq::<int>::empty());
    }
    while j < candidates.len()
        invariant
            j <= candidates.len(),
            query_chars@ == query@,
            cands == views(candidates@),
            ranks_first(query@, cands, limit as nat, places(top@), j as int),
            forall|k: int|
                0 <= k < top.len() ==> score_at(query@, cands, (#[trigger] top[k]).1 as int)
                    == Some(top[k].0 as int),
            top.len() <= match_count(query@, cands, j as int),
            top.len() == limit || top.len() == match_count(query@, cands, j as int),
        decreases candidates.len() - j,
    {
        let text_chars = chars_of(candidates[j].text.as_str());
        assert(cands[j as int].text == candidates[j as int].text@);
        match score_chars(&query_chars, &text_chars) {
            None => {
                proof {
                    lemma_rank_skip(query@, cands, limit as nat, places(top@), j as int);
                }
            },
            Some(score) => {
                let ghost order = places(top@);
                let mut p: usize = 0;
                while p < top.len() && top[p].0 >= score
                    invariant
                        p <= top.len(),
                        forall|k: int| 0 <= k < p ==> (#[trigger] top[k]).0 >= score,
                    decreases top.len() - p,
                {
                    p += 1;
                }
                proof {
                    assert forall|k: int| 0 <= k < p implies score_at(
                        query@,
                        cands,
                        #[trigger] order[k],
                    )->0 >= score by {
                        assert(order[k] == top[k].1);
                    }
                    assert forall|k: int| p <= k < order.len() implies score_at(
                        query@,
                        cands,
                        #[trigger] order[k],
                    )->0 < score by {
                        assert(order[k] == top[k].1);
                        assert(order[p as int] == top[p as int].1);
                        if p < k {
                            assert(outranks(query@, cands, order[p as int], order[k]));
                        }
                    }
                    lemma_rank_insert(query@, cands, limit as nat, order, j as int, p as int);
                    lemma_count_step(query@, cands, limit as nat, order, j as int, p as int);
                }
                if p == top.len() && top.len() >= limit {
                } else {
                    let ghost before = top@;
                    top.insert(p, (score, j));
                    assert(places(top@) =~= order.insert(p as int, j as int));
                    assert forall|k: int| 0 <= k < top.len() implies score_at(
                        query@,
                        cands,
                        (#[trigger] top[k]).1 as int,
                    ) == Some(top[k].0 as int) by {
                        if k < p {
                            assert(top[k] == before[k]);
                        } else if k > p {
                            assert(top[k] == before[k - 1]);
                        }
                    }
                    if top.len() > limit {
                        let ghost wide = top@;
                        top.pop();
                        assert(places(top@) =~= places(wide).drop_last());
                        assert forall|k: int| 0 <= k < top.len() implies score_at(
                            query@,
                            cands,
                            (#[trigger] top[k]).1 as int,
                        ) == Some(top[k].0 as int) by {
                            assert(top[k] == wide[k]);
                        }
                    }
                }
            },
        }
        j += 1;
    }
    let mut out: Vec<RankedResult> = Vec::new();
    let mut k: usize = 0;
    while k < top.len()
        invariant
            k <= top.len(),
            cands == views(candidates@),
            ranks_first(query@, cands, limit as nat, places(top@), candidates.len() as int),
            forall|i: int|
                0 <= i < top.len() ==> score_at(query@, cands, (#[trigger] top[i]).1 as int)
                    == Some(top[i].0 as int),
            out.len() == k,
            forall|i: int|
                0 <= i < k ==> (#[trigger] out[i])@ == ranked_of(query@, cands, top[i].1 as int),
        decreases top.len() - k,
    {
        let (score, index) = top[k];
        assert(places(top@)[k as int] == index);
        let candidate = &candidates[index];
        assert(cands[index as int] == candidate@);
        out.push(
            RankedResult {
                score,
                index,
                identity: candidate.identity.duplicate(),
                text: candidate.text.clone(),
            },
        );
        k += 1;
    }
    proof {
        assert(order_of(out@) =~= places(top@)) by {
            assert forall|i: int| 0 <= i < out.len() implies order_of(out@)[i] == places(top@)[i] by {
                assert(out[i]@.index == top[i].1);
            }
        }
        assert forall|i: int| 0 <= i < out.len() implies (#[trigger] out[i])@ == ranked_of(
            query@,
            cands,
            out[i].index as int,
        ) by {
            assert(out[i]@.index == top[i].1);
        }
    }
    out
}

/// The best `limit` candidates that the query matches, the best first.
pub fn search(query: &str, candidates: &Vec<SearchCandidate>, limit: usize) -> (r: Vec<
    SearchCandidate,
>)
    ensures
        is_search_result(query@, views(candidates@), limit as nat, views(r@)),
        r.len() == capped(
            match_count(query@, views(candidates@), candidates.len() as int),
            limit as nat,
        ),
{
    let ghost cands = views(candidates@);
    let ranked = rank(query, candidates, limit);
    let ghost order = order_of(ranked@);
    let mut out: Vec<SearchCandidate> = Vec::new();
    let mut k: usize = 0;
    while k < ranked.len()
        invariant
            k <= ranked.len(),
            out.len() == k,
            forall|i: int| 0 <= i < k ==> (#[trigger] out[i])@.identity == ranked[i]@.identity,
            forall|i: int| 0 <= i < k ==> (#[trigger] out[i])@.text == ranked[i]@.text,
        decreases ranked.len() - k,
    {
        let result = &ranked[k];
        out.push(SearchCandidate { identity: result.identity.duplicate(), text: result.text.clone() });
        k += 1;
    }
    proof {
        assert(views(out@) =~= picked(cands, order)) by {
            assert forall|i: int| 0 <= i < out.len() implies views(out@)[i] == picked(
                cands,
                order,
            )[i] by {
                assert(ranked[i]@ == ranked_of(query@, cands, ranked[i].index as int));
                assert(out[i]@.identity == ranked[i]@.identity);
                assert(out[i]@.text == ranked[i]@.text);
            }
        }
    }
    out
}

} // verus!

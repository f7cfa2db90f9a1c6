//! Fuzzy ranking of index entries against a query.
use vstd::prelude::*;
use fuzzy_matcher::FuzzyMatcher;
use fuzzy_matcher::skim::SkimMatcherV2;
use crate::index::{AppInfo, is_listed, lower_of, lowercase};

verus! {

/// A character with ASCII letters folded to lower case.
pub open spec fn fold_ascii(c: char) -> u32 {
    let u = c as u32;
    if 65 <= u && u <= 90 {
        (u + 32) as u32
    } else {
        u
    }
}

/// Each character of `p` matches a character of `c`, in order, comparing
/// ASCII letters without regard to case.
pub open spec fn subseq_ignoring_ascii_case(p: Seq<char>, c: Seq<char>) -> bool
    decreases c.len(),
{
    if p.len() == 0 {
        true
    } else if c.len() == 0 {
        false
    } else if fold_ascii(p[0]) == fold_ascii(c[0]) {
        subseq_ignoring_ascii_case(p.drop_first(), c.drop_first())
    } else {
        subseq_ignoring_ascii_case(p, c.drop_first())
    }
}

pub uninterp spec fn skim_score(choice: Seq<char>, pattern: Seq<char>) -> Option<i64>;

/// Relies on `SkimMatcherV2::fuzzy_match` of fuzzy_matcher with its default
/// settings: the score depends on the two strings alone; a score comes only
/// when the pattern's characters occur in the choice in order (its
/// `cheap_matches` test, which compares ASCII letters without case at most);
/// an empty pattern scores 0.
#[verifier::external_body]
fn skim_match(choice: &str, pattern: &str) -> (r: Option<i64>)
    ensures
        r == skim_score(choice@, pattern@),
        r is Some ==> subseq_ignoring_ascii_case(pattern@, choice@),
        pattern@.len() == 0 ==> r == Some(0i64),
{
    SkimMatcherV2::default().fuzzy_match(choice, pattern)
}

/// `i` stands before `j` in the rank order: a higher score, or an equal
/// score and an earlier place.
pub open spec fn score_before(sc: Seq<Option<i64>>, i: int, j: int) -> bool {
    sc[i]->Some_0 > sc[j]->Some_0 || (sc[i]->Some_0 == sc[j]->Some_0 && i < j)
}

/// `pos` lists every place of `sc` that has a score, once each, in the rank
/// order.
pub open spec fn in_score_order(sc: Seq<Option<i64>>, pos: Seq<usize>) -> bool {
    &&& forall|k: int| 0 <= k < pos.len() ==> #[trigger] pos[k] < sc.len() && sc[pos[k] as int] is Some
    &&& forall|k: int, l: int|
        0 <= k < l < pos.len() ==> score_before(sc, #[trigger] pos[k] as int, #[trigger] pos[l] as int)
    &&& forall|j: int| 0 <= j < sc.len() && sc[j] is Some ==> #[trigger] is_listed(pos, j)
}

/// The places that have a score, by descending score, equal scores keeping
/// their order (a stable sort).
pub fn order_by_score(scores: &Vec<Option<i64>>) -> (pos: Vec<usize>)
    ensures
        in_score_order(scores@, pos@),
{
    let ghost sc = scores@;
    let mut out: Vec<usize> = Vec::new();
    let n = scores.len();
    let mut i: usize = 0;
    while i < n
        invariant
            i <= n == sc.len(),
            sc == scores@,
            forall|k: int| 0 <= k < out@.len() ==> #[trigger] out@[k] < i && sc[out@[k] as int] is Some,
            forall|k: int, l: int|
                0 <= k < l < out@.len() ==> score_before(sc, #[trigger] out@[k] as int, #[trigger] out@[l] as int),
            forall|j: int| 0 <= j < i && sc[j] is Some ==> #[trigger] is_listed(out@, j),
        decreases n - i,
    {
        match scores[i] {
            None => {},
            Some(s) => {
                let mut p: usize = 0;
                while p < out.len() && s <= scores[out[p]].unwrap()
                    invariant
                        p <= out@.len(),
                        i < n == sc.len(),
                        sc == scores@,
                        sc[i as int] == Some(s),
                        forall|k: int| 0 <= k < out@.len() ==> #[trigger] out@[k] < i && sc[out@[k] as int] is Some,
                        forall|k: int| 0 <= k < p ==> s <= sc[#[trigger] out@[k] as int]->Some_0,
                    decreases out@.len() - p,
                {
                    p = p + 1;
                }
                let ghost old_out = out@;
                out.insert(p, i);
                proof {
                    assert forall|k: int| 0 <= k < out@.len() implies #[trigger] out@[k] < i + 1
                        && sc[out@[k] as int] is Some by {
                        if k < p {
                            assert(out@[k] == old_out[k]);
                        } else if k > p {
                            assert(out@[k] == old_out[k - 1]);
                        }
                    }
                    assert forall|k: int, l: int| 0 <= k < l < out@.len() implies score_before(
                        sc,
                        #[trigger] out@[k] as int,
                        #[trigger] out@[l] as int,
                    ) by {
                        if k == p {
                            assert(out@[l] == old_out[l - 1]);
                            if l - 1 > p {
                                assert(score_before(sc, old_out[p as int] as int, old_out[l - 1] as int));
                            }
                        } else if l == p {
                            assert(out@[k] == old_out[k]);
                        } else if k < p && l < p {
                            assert(out@[k] == old_out[k] && out@[l] == old_out[l]);
                        } else if k < p {
                            assert(out@[k] == old_out[k] && out@[l] == old_out[l - 1]);
                        } else {
                            assert(out@[k] == old_out[k - 1] && out@[l] == old_out[l - 1]);
                        }
                    }
                    assert forall|j: int| 0 <= j < i + 1 && sc[j] is Some implies #[trigger] is_listed(out@, j) by {
                        if j == i {
                            assert(out@[p as int] == j);
                        } else {
                            assert(is_listed(old_out, j));
                            let k = choose|k: int| 0 <= k < old_out.len() && old_out[k] == j;
                            if k < p {
                                assert(out@[k] == j);
                            } else {
                                assert(out@[k + 1] == j);
                            }
                        }
                    }
                }
            },
        }
        i = i + 1;
    }
    out
}

/// One sequence of places meets the rank order for given scores: the order
/// fixes the result.
pub proof fn lemma_score_order_unique(sc: Seq<Option<i64>>, pa: Seq<usize>, pb: Seq<usize>)
    requires
        in_score_order(sc, pa),
        in_score_order(sc, pb),
    ensures
        pa == pb,
    decreases pa.len(),
{
    if pa.len() == 0 {
        if pb.len() > 0 {
            assert(pb[0] < sc.len() && sc[pb[0] as int] is Some);
            assert(is_listed(pa, pb[0] as int));
        }
        assert(pa =~= pb);
    } else {
        assert(pa[0] < sc.len() && sc[pa[0] as int] is Some);
        assert(is_listed(pb, pa[0] as int));
        let m = choose|m: int| 0 <= m < pb.len() && pb[m] == pa[0];
        assert(pb[0] < sc.len() && sc[pb[0] as int] is Some);
        assert(is_listed(pa, pb[0] as int));
        let k = choose|k: int| 0 <= k < pa.len() && pa[k] == pb[0];
        if k > 0 && m > 0 {
            assert(score_before(sc, pa[0] as int, pa[k] as int));
            assert(score_before(sc, pb[0] as int, pb[m] as int));
        }
        let h = pa[0];
        assert(h == pb[0]);
        let sc2 = sc.update(h as int, None);
        let t1 = pa.drop_first();
        let t2 = pb.drop_first();
        assert forall|k: int| 0 <= k < t1.len() implies #[trigger] t1[k] != h by {
            assert(score_before(sc, pa[0] as int, pa[k + 1] as int));
        }
        assert forall|k: int| 0 <= k < t2.len() implies #[trigger] t2[k] != h by {
            assert(score_before(sc, pb[0] as int, pb[k + 1] as int));
        }
        assert forall|k: int| 0 <= k < t1.len() implies #[trigger] t1[k] < sc2.len() && sc2[t1[k] as int] is Some by {
            assert(t1[k] == pa[k + 1]);
        }
        assert forall|k: int| 0 <= k < t2.len() implies #[trigger] t2[k] < sc2.len() && sc2[t2[k] as int] is Some by {
            assert(t2[k] == pb[k + 1]);
        }
        assert forall|k: int, l: int| 0 <= k < l < t1.len() implies score_before(
            sc2,
            #[trigger] t1[k] as int,
            #[trigger] t1[l] as int,
        ) by {
            assert(score_before(sc, pa[k + 1] as int, pa[l + 1] as int));
        }
        assert forall|k: int, l: int| 0 <= k < l < t2.len() implies score_before(
            sc2,
            #[trigger] t2[k] as int,
            #[trigger] t2[l] as int,
        ) by {
            assert(score_before(sc, pb[k + 1] as int, pb[l + 1] as int));
        }
        assert forall|j: int| 0 <= j < sc2.len() && sc2[j] is Some implies #[trigger] is_listed(t1, j) by {
            assert(is_listed(pa, j));
            let q = choose|q: int| 0 <= q < pa.len() && pa[q] == j;
            assert(t1[q - 1] == j);
        }
        assert forall|j: int| 0 <= j < sc2.len() && sc2[j] is Some implies #[trigger] is_listed(t2, j) by {
            assert(is_listed(pb, j));
            let q = choose|q: int| 0 <= q < pb.len() && pb[q] == j;
            assert(t2[q - 1] == j);
        }
        lemma_score_order_unique(sc2, t1, t2);
        assert(pa =~= seq![h] + t1);
        assert(pb =~= seq![h] + t2);
    }
}

/// The score of each entry's lower-cased name against the lower-cased query.
pub open spec fn entry_scores(index: Seq<AppInfo>, query: Seq<char>) -> Seq<Option<i64>> {
    Seq::new(index.len(), |i: int| skim_score(lower_of(index[i].name@), lower_of(query)))
}

/// `r` is the ranking of `index` for `query`: the whole index where the
/// query is empty; otherwise the entries that match, by descending score,
/// equal scores keeping the index order.
pub open spec fn is_ranking(index: Seq<AppInfo>, query: Seq<char>, r: Seq<AppInfo>) -> bool {
    if query.len() == 0 {
        r == index
    } else {
        exists|pos: Seq<usize>|
            #[trigger] in_score_order(entry_scores(index, query), pos) && r.len() == pos.len()
                && forall|k: int| 0 <= k < r.len() ==> #[trigger] r[k] == index[pos[k] as int]
    }
}

/// Ranks the index against a query (see `is_ranking`). Every entry of a
/// ranking for a non-empty query has the query's characters, in order, in
/// its name, without regard to case.
pub fn rank(index: &Vec<AppInfo>, query: &str) -> (r: Vec<AppInfo>)
    ensures
        is_ranking(index@, query@, r@),
        query@.len() == 0 ==> r@ == index@,
        query@.len() > 0 ==> forall|k: int|
            0 <= k < r@.len() ==> subseq_ignoring_ascii_case(
                lower_of(query@),
                lower_of(#[trigger] r@[k].name@),
            ),
{
    let mut r: Vec<AppInfo> = Vec::new();
    if query.is_empty() {
        let mut i: usize = 0;
        while i < index.len()
            invariant
                i <= index@.len(),
                r@ == index@.take(i as int),
            decreases index@.len() - i,
        {
            r.push(index[i].duplicate());
            assert(r@ =~= index@.take(i + 1));
            i = i + 1;
        }
        assert(index@.take(index@.len() as int) =~= index@);
        return r;
    }
    let q = lowercase(query);
    let ghost sc = entry_scores(index@, query@);
    let mut scores: Vec<Option<i64>> = Vec::new();
    let mut i: usize = 0;
    while i < index.len()
        invariant
            i <= index@.len(),
            q@ == lower_of(query@),
            sc == entry_scores(index@, query@),
            scores@ == sc.take(i as int),
            forall|j: int|
                0 <= j < i && #[trigger] sc[j] is Some ==> subseq_ignoring_ascii_case(
                    lower_of(query@),
                    lower_of(index@[j].name@),
                ),
        decreases index@.len() - i,
    {
        let name = lowercase(index[i].name.as_str());
        let s = skim_match(name.as_str(), q.as_str());
        scores.push(s);
        assert(scores@ =~= sc.take(i + 1));
        i = i + 1;
    }
    assert(scores@ =~= sc);
    let pos = order_by_score(&scores);
    let mut m: usize = 0;
    while m < pos.len()
        invariant
            m <= pos@.len(),
            in_score_order(sc, pos@),
            sc.len() == index@.len(),
            r@.len() == m,
            forall|k: int| 0 <= k < m ==> #[trigger] r@[k] == index@[pos@[k] as int],
        decreases pos@.len() - m,
    {
        assert(pos@[m as int] < sc.len());
        r.push(index[pos[m]].duplicate());
        m = m + 1;
    }
    proof {
        assert forall|k: int| 0 <= k < r@.len() implies subseq_ignoring_ascii_case(
            lower_of(query@),
            lower_of(#[trigger] r@[k].name@),
        ) by {
            assert(pos@[k] < sc.len() && sc[pos@[k] as int] is Some);
            assert(r@[k] == index@[pos@[k] as int]);
        }
    }
    r
}

/// Ranking is a function of the index and the query: two rankings of one
/// index for one query are the same sequence.
pub proof fn lemma_rank_deterministic(
    index: Seq<AppInfo>,
    query: Seq<char>,
    r1: Seq<AppInfo>,
    r2: Seq<AppInfo>,
)
    requires
        is_ranking(index, query, r1),
        is_ranking(index, query, r2),
    ensures
        r1 == r2,
{
    if query.len() > 0 {
        let sc = entry_scores(index, query);
        let pa = choose|pos: Seq<usize>|
            #[trigger] in_score_order(sc, pos) && r1.len() == pos.len() && forall|k: int|
                0 <= k < r1.len() ==> #[trigger] r1[k] == index[pos[k] as int];
        let pb = choose|pos: Seq<usize>|
            #[trigger] in_score_order(sc, pos) && r2.len() == pos.len() && forall|k: int|
                0 <= k < r2.len() ==> #[trigger] r2[k] == index[pos[k] as int];
        lemma_score_order_unique(sc, pa, pb);
        assert(r1 =~= r2);
    }
}

} // verus!

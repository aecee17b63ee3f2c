//! The score history that the live monitor keeps from one analysis to the
//! next. Scores are kept as the integers of `ServiceBottleneckRank`, whose
//! order is the order of the scores; the alerts, which compute with the
//! scores themselves, are drawn from this history by the caller.

use vstd::prelude::*;
use crate::models::{AnalysisReport, ServiceBottleneckRank};

verus! {

/// The recent scores of one service, newest first.
#[derive(Debug, Clone)]
pub struct ServiceScoreHistory {
    pub current_score: u64,
    pub score_history: Vec<u64>,
    pub is_bottleneck_count: usize,
    pub last_seen: i64,
}

/// What one analysis ranked: when, its top service and score, and every
/// service's score.
#[derive(Debug, Clone)]
pub struct BottleneckSnapshot {
    pub timestamp: i64,
    pub top_bottleneck: String,
    pub top_score: u64,
    pub all_scores: Vec<(String, u64)>,
}

/// The scores of the services over the last analyses (newest first, at
/// most `max_history` of them), and the top service of the last one.
pub struct BottleneckHistory {
    pub service_scores: Vec<(String, ServiceScoreHistory)>,
    pub top_bottleneck: Option<String>,
    pub history: Vec<BottleneckSnapshot>,
    pub max_history: usize,
}

/// A service's history as plain values: (current score, scores newest
/// first, times on top, last seen).
pub type ScoreView = (u64, Seq<u64>, int, i64);

/// A history entry's view.
pub open spec fn score_view(h: ServiceScoreHistory) -> ScoreView {
    (h.current_score, h.score_history@, h.is_bottleneck_count as int, h.last_seen)
}

/// The entries' views, keyed by service.
pub open spec fn entries_view(es: Seq<(String, ServiceScoreHistory)>) -> Seq<(Seq<char>, ScoreView)> {
    es.map_values(|e: (String, ServiceScoreHistory)| (e.0@, score_view(e.1)))
}

/// The position of a service among the entries.
pub open spec fn entry_index<V>(es: Seq<(Seq<char>, V)>, name: Seq<char>) -> Option<int>
    decreases es.len(),
{
    if es.len() == 0 {
        None
    } else if entry_index(es.drop_last(), name) is Some {
        entry_index(es.drop_last(), name)
    } else if es.last().0 == name {
        Some(es.len() - 1)
    } else {
        None
    }
}

/// `s` in front of the scores, the oldest dropped past `max`.
pub open spec fn newest_first(scores: Seq<u64>, s: u64, max: nat) -> Seq<u64> {
    let all = seq![s] + scores;
    if all.len() > max {
        all.drop_last()
    } else {
        all
    }
}

/// The entries after a rank's score is recorded at time `ts`: a service
/// seen for the first time gets an entry at the end.
pub open spec fn record_rank(es: Seq<(Seq<char>, ScoreView)>, name: Seq<char>, score: u64, ts: i64, max: nat) -> Seq<(Seq<char>, ScoreView)> {
    match entry_index(es, name) {
        Some(i) => es.update(i, (name, (score, newest_first(es[i].1.1, score, max), es[i].1.2, ts))),
        None => es.push((name, (score, newest_first(Seq::empty(), score, max), 0, ts))),
    }
}

/// The entries after the first `n` ranks are recorded.
pub open spec fn record_ranks(es: Seq<(Seq<char>, ScoreView)>, ranks: Seq<ServiceBottleneckRank>, n: int, ts: i64, max: nat) -> Seq<
    (Seq<char>, ScoreView),
>
    decreases n,
{
    if n <= 0 {
        es
    } else {
        let prev = record_ranks(es, ranks, n - 1, ts, max);
        record_rank(prev, ranks[n - 1].service_name@, ranks[n - 1].bottleneck_score, ts, max)
    }
}

/// The entries after the analysis: each rank recorded in order, then the
/// top service counted once more as the bottleneck if its score is above
/// zero.
pub open spec fn recorded(es: Seq<(Seq<char>, ScoreView)>, ranks: Seq<ServiceBottleneckRank>, ts: i64, max: nat) -> Seq<
    (Seq<char>, ScoreView),
> {
    let after = record_ranks(es, ranks, ranks.len() as int, ts, max);
    if ranks.len() > 0 && ranks[0].bottleneck_score > 0 {
        match entry_index(after, ranks[0].service_name@) {
            Some(i) => after.update(i, (after[i].0, (after[i].1.0, after[i].1.1, after[i].1.2 + 1, after[i].1.3))),
            None => after,
        }
    } else {
        after
    }
}

/// The score of each service in the ranking, the last rank of a service
/// that ranks twice prevailing, in order of first rank.
pub open spec fn all_scores_of(ranks: Seq<ServiceBottleneckRank>, n: int) -> Seq<(Seq<char>, u64)>
    decreases n,
{
    if n <= 0 {
        Seq::empty()
    } else {
        let prev = all_scores_of(ranks, n - 1);
        let name = ranks[n - 1].service_name@;
        match entry_index(prev, name) {
            Some(i) => prev.update(i, (name, ranks[n - 1].bottleneck_score)),
            None => prev.push((name, ranks[n - 1].bottleneck_score)),
        }
    }
}

/// No two entries are of the same service: the entries hold one score
/// history per service, as keys of a map would.
pub open spec fn keys_distinct<V>(es: Seq<(Seq<char>, V)>) -> bool {
    forall|i: int, j: int| 0 <= i < j < es.len() ==> es[i].0 != es[j].0
}

/// A name with no entry is the name of no entry.
proof fn lemma_entry_index_none<V>(es: Seq<(Seq<char>, V)>, name: Seq<char>)
    requires
        entry_index(es, name) is None,
    ensures
        forall|k: int| 0 <= k < es.len() ==> (#[trigger] es[k]).0 != name,
    decreases es.len(),
{
    if es.len() > 0 {
        lemma_entry_index_none(es.drop_last(), name);
        assert forall|k: int| 0 <= k < es.len() implies (#[trigger] es[k]).0 != name by {
            if k < es.len() - 1 {
                assert(es[k] == es.drop_last()[k]);
            }
        }
    }
}

/// Recording a rank keeps the services distinct.
proof fn lemma_record_rank_distinct(es: Seq<(Seq<char>, ScoreView)>, name: Seq<char>, score: u64, ts: i64, max: nat)
    requires
        keys_distinct(es),
    ensures
        keys_distinct(record_rank(es, name, score, ts, max)),
{
    lemma_entry_index_range(es, name);
    let r = record_rank(es, name, score, ts, max);
    match entry_index(es, name) {
        Some(i) => {
            assert forall|a: int, b: int| 0 <= a < b < r.len() implies r[a].0 != r[b].0 by {
                assert(r[a].0 == es[a].0);
                assert(r[b].0 == es[b].0);
            }
        },
        None => {
            lemma_entry_index_none(es, name);
            assert forall|a: int, b: int| 0 <= a < b < r.len() implies r[a].0 != r[b].0 by {
                if b < es.len() {
                    assert(r[a] == es[a] && r[b] == es[b]);
                } else {
                    assert(r[a] == es[a]);
                }
            }
        },
    }
}

/// Recording the ranks keeps the services distinct.
proof fn lemma_recorded_distinct(es: Seq<(Seq<char>, ScoreView)>, ranks: Seq<ServiceBottleneckRank>, ts: i64, max: nat)
    requires
        keys_distinct(es),
    ensures
        keys_distinct(recorded(es, ranks, ts, max)),
{
    lemma_record_ranks_distinct(es, ranks, ranks.len() as int, ts, max);
    let after = record_ranks(es, ranks, ranks.len() as int, ts, max);
    if ranks.len() > 0 && ranks[0].bottleneck_score > 0 {
        lemma_entry_index_range(after, ranks[0].service_name@);
        let r = recorded(es, ranks, ts, max);
        assert forall|a: int, b: int| 0 <= a < b < r.len() implies r[a].0 != r[b].0 by {
            assert(r[a].0 == after[a].0);
            assert(r[b].0 == after[b].0);
        }
    }
}

/// Recording the first `n` ranks keeps the services distinct.
proof fn lemma_record_ranks_distinct(es: Seq<(Seq<char>, ScoreView)>, ranks: Seq<ServiceBottleneckRank>, n: int, ts: i64, max: nat)
    requires
        keys_distinct(es),
    ensures
        keys_distinct(record_ranks(es, ranks, n, ts, max)),
    decreases n,
{
    if n > 0 {
        lemma_record_ranks_distinct(es, ranks, n - 1, ts, max);
        lemma_record_rank_distinct(
            record_ranks(es, ranks, n - 1, ts, max),
            ranks[n - 1].service_name@,
            ranks[n - 1].bottleneck_score,
            ts,
            max,
        );
    }
}

/// No service keeps more than `max` scores.
pub open spec fn scores_bounded(es: Seq<(Seq<char>, ScoreView)>, max: nat) -> bool {
    forall|k: int| 0 <= k < es.len() ==> (#[trigger] es[k]).1.1.len() <= max
}

/// Recording the first `n` ranks keeps every service within `max` scores.
proof fn lemma_record_ranks_bounded(es: Seq<(Seq<char>, ScoreView)>, ranks: Seq<ServiceBottleneckRank>, n: int, ts: i64, max: nat)
    requires
        scores_bounded(es, max),
    ensures
        scores_bounded(record_ranks(es, ranks, n, ts, max), max),
    decreases n,
{
    if n > 0 {
        lemma_record_ranks_bounded(es, ranks, n - 1, ts, max);
        let prev = record_ranks(es, ranks, n - 1, ts, max);
        let name = ranks[n - 1].service_name@;
        lemma_entry_index_range(prev, name);
        let r = record_rank(prev, name, ranks[n - 1].bottleneck_score, ts, max);
        assert forall|k: int| 0 <= k < r.len() implies (#[trigger] r[k]).1.1.len() <= max by {
            if k < prev.len() {
                assert(prev[k].1.1.len() <= max);
            }
        }
    }
}

/// Recording an analysis keeps every service within `max` scores.
proof fn lemma_recorded_bounded(es: Seq<(Seq<char>, ScoreView)>, ranks: Seq<ServiceBottleneckRank>, ts: i64, max: nat)
    requires
        scores_bounded(es, max),
    ensures
        scores_bounded(recorded(es, ranks, ts, max), max),
{
    lemma_record_ranks_bounded(es, ranks, ranks.len() as int, ts, max);
    let after = record_ranks(es, ranks, ranks.len() as int, ts, max);
    if ranks.len() > 0 && ranks[0].bottleneck_score > 0 {
        lemma_entry_index_range(after, ranks[0].service_name@);
        let r = recorded(es, ranks, ts, max);
        assert forall|k: int| 0 <= k < r.len() implies (#[trigger] r[k]).1.1.len() <= max by {
            assert(after[k].1.1.len() <= max);
        }
    }
}

/// Recording the scores of other services leaves a service's entry as it
/// was.
proof fn lemma_record_ranks_frame(es: Seq<(Seq<char>, ScoreView)>, ranks: Seq<ServiceBottleneckRank>, n: int, ts: i64, max: nat, name: Seq<char>)
    requires
        0 <= n <= ranks.len(),
        forall|r: int| 0 <= r < ranks.len() ==> (#[trigger] ranks[r]).service_name@ != name,
    ensures
        entry_index(record_ranks(es, ranks, n, ts, max), name) == entry_index(es, name),
        entry_index(es, name) matches Some(i) ==> record_ranks(es, ranks, n, ts, max)[i] == es[i],
    decreases n,
{
    if n > 0 {
        lemma_record_ranks_frame(es, ranks, n - 1, ts, max, name);
        let prev = record_ranks(es, ranks, n - 1, ts, max);
        let other = ranks[n - 1].service_name@;
        assert(other != name);
        lemma_entry_index_range(prev, other);
        lemma_entry_index_range(prev, name);
        let r = record_rank(prev, other, ranks[n - 1].bottleneck_score, ts, max);
        match entry_index(prev, name) {
            Some(i) => {
                assert forall|k: int| 0 <= k < i implies (#[trigger] r[k]).0 != name by {
                    lemma_entry_index_first(prev, name, k);
                    assert(r[k].0 == prev[k].0);
                }
                assert(r[i].0 == name);
                lemma_entry_index(r, name, i);
            },
            None => {
                lemma_entry_index_none(prev, name);
                assert forall|k: int| 0 <= k < r.len() implies (#[trigger] r[k]).0 != name by {
                    if k < prev.len() {
                        assert(r[k].0 == prev[k].0);
                    }
                }
                lemma_entry_index(r, name, r.len() as int);
            },
        }
    }
}

/// No entry before the first entry of a name is of that name.
proof fn lemma_entry_index_first<V>(es: Seq<(Seq<char>, V)>, name: Seq<char>, k: int)
    requires
        entry_index(es, name) matches Some(i) && 0 <= k < i,
    ensures
        es[k].0 != name,
    decreases es.len(),
{
    let d = es.drop_last();
    if entry_index(d, name) is Some {
        lemma_entry_index_range(d, name);
        lemma_entry_index_first(d, name, k);
        assert(d[k] == es[k]);
    } else {
        lemma_entry_index_none(d, name);
        assert(d[k] == es[k]);
    }
}

/// Recording an analysis leaves the entry of a service that it does not
/// rank as it was: same place, same scores, same count.
pub proof fn law_record_leaves_unranked(es: Seq<(Seq<char>, ScoreView)>, ranks: Seq<ServiceBottleneckRank>, ts: i64, max: nat, name: Seq<char>)
    requires
        forall|r: int| 0 <= r < ranks.len() ==> (#[trigger] ranks[r]).service_name@ != name,
    ensures
        entry_index(recorded(es, ranks, ts, max), name) == entry_index(es, name),
        entry_index(es, name) matches Some(i) ==> recorded(es, ranks, ts, max)[i] == es[i],
{
    lemma_record_ranks_frame(es, ranks, ranks.len() as int, ts, max, name);
    let after = record_ranks(es, ranks, ranks.len() as int, ts, max);
    if ranks.len() > 0 && ranks[0].bottleneck_score > 0 {
        let top = ranks[0].service_name@;
        assert(top != name);
        lemma_entry_index_range(after, top);
        lemma_entry_index_range(after, name);
        let r = recorded(es, ranks, ts, max);
        match entry_index(after, top) {
            Some(t) => {
                match entry_index(after, name) {
                    Some(i) => {
                        assert forall|k: int| 0 <= k < i implies (#[trigger] r[k]).0 != name by {
                            lemma_entry_index_first(after, name, k);
                            assert(r[k].0 == after[k].0);
                        }
                        assert(r[i].0 == name);
                        lemma_entry_index(r, name, i);
                    },
                    None => {
                        lemma_entry_index_none(after, name);
                        assert forall|k: int| 0 <= k < r.len() implies (#[trigger] r[k]).0 != name by {
                            assert(r[k].0 == after[k].0);
                        }
                        lemma_entry_index(r, name, r.len() as int);
                    },
                }
            },
            None => {},
        }
    }
}

/// How many times the service has been the top bottleneck (0 for a
/// service with no entry).
pub open spec fn count_of(es: Seq<(Seq<char>, ScoreView)>, name: Seq<char>) -> int {
    match entry_index(es, name) {
        Some(i) => es[i].1.2,
        None => 0,
    }
}

/// Recording another service's score leaves a service's entry as it was.
proof fn lemma_record_rank_other(es: Seq<(Seq<char>, ScoreView)>, other: Seq<char>, score: u64, ts: i64, max: nat, name: Seq<char>)
    requires
        other != name,
    ensures
        entry_index(record_rank(es, other, score, ts, max), name) == entry_index(es, name),
        entry_index(es, name) matches Some(i) ==> record_rank(es, other, score, ts, max)[i] == es[i],
{
    lemma_entry_index_range(es, other);
    lemma_entry_index_range(es, name);
    let r = record_rank(es, other, score, ts, max);
    match entry_index(es, name) {
        Some(i) => {
            assert forall|k: int| 0 <= k < i implies (#[trigger] r[k]).0 != name by {
                lemma_entry_index_first(es, name, k);
                assert(r[k].0 == es[k].0);
            }
            assert(r[i].0 == name);
            lemma_entry_index(r, name, i);
        },
        None => {
            lemma_entry_index_none(es, name);
            assert forall|k: int| 0 <= k < r.len() implies (#[trigger] r[k]).0 != name by {
                if k < es.len() {
                    assert(r[k].0 == es[k].0);
                }
            }
            lemma_entry_index(r, name, r.len() as int);
        },
    }
}

/// Recording a service's score makes it the service's current score and
/// its newest kept score, and keeps its count.
proof fn lemma_record_rank_same(es: Seq<(Seq<char>, ScoreView)>, name: Seq<char>, score: u64, ts: i64, max: nat)
    ensures
        entry_index(record_rank(es, name, score, ts, max), name) matches Some(i) && {
            let r = record_rank(es, name, score, ts, max);
            &&& r[i].1.0 == score
            &&& max > 0 ==> r[i].1.1.len() > 0 && r[i].1.1[0] == score
            &&& r[i].1.2 == count_of(es, name)
        },
{
    lemma_entry_index_range(es, name);
    let r = record_rank(es, name, score, ts, max);
    match entry_index(es, name) {
        Some(i) => {
            assert forall|k: int| 0 <= k < i implies (#[trigger] r[k]).0 != name by {
                lemma_entry_index_first(es, name, k);
                assert(r[k].0 == es[k].0);
            }
            lemma_entry_index(r, name, i);
        },
        None => {
            lemma_entry_index_none(es, name);
            assert forall|k: int| 0 <= k < es.len() implies (#[trigger] r[k]).0 != name by {
                assert(r[k] == es[k]);
            }
            lemma_entry_index(r, name, es.len() as int);
        },
    }
}

/// Recording ranks keeps every service's count.
proof fn lemma_record_ranks_count(es: Seq<(Seq<char>, ScoreView)>, ranks: Seq<ServiceBottleneckRank>, n: int, ts: i64, max: nat, name: Seq<char>)
    requires
        0 <= n <= ranks.len(),
    ensures
        count_of(record_ranks(es, ranks, n, ts, max), name) == count_of(es, name),
    decreases n,
{
    if n > 0 {
        lemma_record_ranks_count(es, ranks, n - 1, ts, max, name);
        let prev = record_ranks(es, ranks, n - 1, ts, max);
        let other = ranks[n - 1].service_name@;
        if other == name {
            lemma_record_rank_same(prev, name, ranks[n - 1].bottleneck_score, ts, max);
        } else {
            lemma_record_rank_other(prev, other, ranks[n - 1].bottleneck_score, ts, max, name);
        }
    }
}

/// After the ranks up to `n`, a service's rank `r` (the last of its ranks
/// before `n`) has set its current score and its newest kept score.
proof fn lemma_record_ranks_last(es: Seq<(Seq<char>, ScoreView)>, ranks: Seq<ServiceBottleneckRank>, n: int, ts: i64, max: nat, r: int)
    requires
        0 <= r < n <= ranks.len(),
        forall|q: int| r < q < n ==> (#[trigger] ranks[q]).service_name@ != ranks[r].service_name@,
    ensures
        entry_index(record_ranks(es, ranks, n, ts, max), ranks[r].service_name@) matches Some(i) && {
            let after = record_ranks(es, ranks, n, ts, max);
            &&& after[i].1.0 == ranks[r].bottleneck_score
            &&& max > 0 ==> after[i].1.1.len() > 0 && after[i].1.1[0] == ranks[r].bottleneck_score
        },
    decreases n,
{
    let name = ranks[r].service_name@;
    let prev = record_ranks(es, ranks, n - 1, ts, max);
    if n - 1 == r {
        lemma_record_rank_same(prev, name, ranks[r].bottleneck_score, ts, max);
    } else {
        lemma_record_ranks_last(es, ranks, n - 1, ts, max, r);
        assert(ranks[n - 1].service_name@ != name);
        lemma_record_rank_other(prev, ranks[n - 1].service_name@, ranks[n - 1].bottleneck_score, ts, max, name);
    }
}

/// After the ranks up to `n`, every service ranked before `n` has an entry.
proof fn lemma_record_ranks_has(es: Seq<(Seq<char>, ScoreView)>, ranks: Seq<ServiceBottleneckRank>, n: int, ts: i64, max: nat, r: int)
    requires
        0 <= r < n <= ranks.len(),
    ensures
        entry_index(record_ranks(es, ranks, n, ts, max), ranks[r].service_name@) is Some,
    decreases n,
{
    let name = ranks[r].service_name@;
    let prev = record_ranks(es, ranks, n - 1, ts, max);
    let other = ranks[n - 1].service_name@;
    if other == name {
        lemma_record_rank_same(prev, name, ranks[n - 1].bottleneck_score, ts, max);
    } else {
        lemma_record_ranks_has(es, ranks, n - 1, ts, max, r);
        lemma_record_rank_other(prev, other, ranks[n - 1].bottleneck_score, ts, max, name);
    }
}

/// After an analysis is recorded, each ranked service's current score, and
/// its newest kept score (where any is kept), is the score of its last rank
/// in the report.
pub proof fn law_record_last_scores(es: Seq<(Seq<char>, ScoreView)>, ranks: Seq<ServiceBottleneckRank>, ts: i64, max: nat, r: int)
    requires
        0 <= r < ranks.len(),
        forall|q: int| r < q < ranks.len() ==> (#[trigger] ranks[q]).service_name@ != ranks[r].service_name@,
    ensures
        entry_index(recorded(es, ranks, ts, max), ranks[r].service_name@) matches Some(i) && {
            let after = recorded(es, ranks, ts, max);
            &&& after[i].1.0 == ranks[r].bottleneck_score
            &&& max > 0 ==> after[i].1.1.len() > 0 && after[i].1.1[0] == ranks[r].bottleneck_score
        },
{
    lemma_record_ranks_last(es, ranks, ranks.len() as int, ts, max, r);
    let after = record_ranks(es, ranks, ranks.len() as int, ts, max);
    if ranks.len() > 0 && ranks[0].bottleneck_score > 0 {
        lemma_entry_index_range(after, ranks[0].service_name@);
        let res = recorded(es, ranks, ts, max);
        let name = ranks[r].service_name@;
        lemma_entry_index_range(after, name);
        let i = entry_index(after, name)->0;
        assert forall|k: int| 0 <= k < i implies (#[trigger] res[k]).0 != name by {
            lemma_entry_index_first(after, name, k);
            assert(res[k].0 == after[k].0);
        }
        assert(res[i].0 == name);
        lemma_entry_index(res, name, i);
    }
}

/// Recording an analysis counts the top service once more as the
/// bottleneck exactly when its score is above zero (a service seen for the
/// first time starting from none), and changes no other service's count.
pub proof fn law_record_counts(es: Seq<(Seq<char>, ScoreView)>, ranks: Seq<ServiceBottleneckRank>, ts: i64, max: nat, name: Seq<char>)
    ensures
        count_of(recorded(es, ranks, ts, max), name) == count_of(es, name) + if ranks.len() > 0 && ranks[0].bottleneck_score
            > 0 && ranks[0].service_name@ == name {
            1int
        } else {
            0int
        },
{
    lemma_record_ranks_count(es, ranks, ranks.len() as int, ts, max, name);
    let after = record_ranks(es, ranks, ranks.len() as int, ts, max);
    if ranks.len() > 0 && ranks[0].bottleneck_score > 0 {
        let top = ranks[0].service_name@;
        lemma_entry_index_range(after, top);
        lemma_entry_index_range(after, name);
        let res = recorded(es, ranks, ts, max);
        lemma_record_ranks_has(es, ranks, ranks.len() as int, ts, max, 0);
        match entry_index(after, name) {
            Some(i) => {
                assert forall|k: int| 0 <= k < i implies (#[trigger] res[k]).0 != name by {
                    lemma_entry_index_first(after, name, k);
                    assert(res[k].0 == after[k].0);
                }
                assert(res[i].0 == name);
                lemma_entry_index(res, name, i);
            },
            None => {
                lemma_entry_index_none(after, name);
                assert forall|k: int| 0 <= k < res.len() implies (#[trigger] res[k]).0 != name by {
                    assert(res[k].0 == after[k].0);
                }
                lemma_entry_index(res, name, res.len() as int);
            },
        }
    }
}

/// The first entry of `name` is at `j` (or there is none, where `j` is the
/// length) when no entry before `j` is of `name`.
proof fn lemma_entry_index<V>(es: Seq<(Seq<char>, V)>, name: Seq<char>, j: int)
    requires
        0 <= j <= es.len(),
        forall|k: int| 0 <= k < j ==> (#[trigger] es[k]).0 != name,
        j < es.len() ==> es[j].0 == name,
    ensures
        entry_index(es, name) == if j < es.len() { Some(j) } else { None::<int> },
    decreases es.len(),
{
    if es.len() > 0 {
        let d = es.drop_last();
        if j < es.len() - 1 {
            assert forall|k: int| 0 <= k < j implies (#[trigger] d[k]).0 != name by {
                assert(d[k] == es[k]);
            }
            assert(d[j] == es[j]);
            lemma_entry_index(d, name, j);
        } else {
            assert forall|k: int| 0 <= k < d.len() implies (#[trigger] d[k]).0 != name by {
                assert(d[k] == es[k]);
            }
            lemma_entry_index(d, name, d.len() as int);
        }
    }
}

/// A first entry is an entry of the name.
proof fn lemma_entry_index_range<V>(es: Seq<(Seq<char>, V)>, name: Seq<char>)
    ensures
        entry_index(es, name) matches Some(i) ==> 0 <= i < es.len() && es[i].0 == name,
    decreases es.len(),
{
    if es.len() > 0 {
        lemma_entry_index_range(es.drop_last(), name);
    }
}

/// Finds the entry of a service.
fn find_entry(es: &Vec<(String, ServiceScoreHistory)>, name: &String) -> (res: Option<usize>)
    ensures
        match entry_index(entries_view(es@), name@) {
            None => res is None,
            Some(i) => res matches Some(j) && j as int == i,
        },
{
    let ghost v = entries_view(es@);
    for j in 0..es.len()
        invariant
            v == entries_view(es@),
            forall|k: int| 0 <= k < j ==> (#[trigger] v[k]).0 != name@,
    {
        if es[j].0 == *name {
            proof {
                lemma_entry_index(v, name@, j as int);
            }
            return Some(j);
        }
    }
    proof {
        lemma_entry_index(v, name@, v.len() as int);
    }
    None
}

/// `s` in front of the scores, the oldest dropped past `max`.
fn push_newest(scores: &mut Vec<u64>, s: u64, max: usize)
    ensures
        final(scores)@ == newest_first(old(scores)@, s, max as nat),
{
    scores.insert(0, s);
    assert(scores@ =~= seq![s] + old(scores)@);
    if scores.len() > max {
        scores.pop();
    }
}

/// Records one rank's score at time `ts`.
fn record_one(es: &mut Vec<(String, ServiceScoreHistory)>, name: &String, score: u64, ts: i64, max: usize)
    requires
        forall|k: int| 0 <= k < old(es)@.len() ==> (#[trigger] old(es)@[k]).1.is_bottleneck_count < usize::MAX,
    ensures
        entries_view(final(es)@) == record_rank(entries_view(old(es)@), name@, score, ts, max as nat),
        forall|k: int| 0 <= k < final(es)@.len() ==> (#[trigger] final(es)@[k]).1.is_bottleneck_count < usize::MAX,
{
    let ghost v0 = entries_view(es@);
    match find_entry(es, name) {
        Some(i) => {
            proof {
                lemma_entry_index_range(v0, name@);
            }
            let ghost before = es@;
            let (key, mut h) = es.remove(i);
            h.current_score = score;
            h.last_seen = ts;
            push_newest(&mut h.score_history, score, max);
            let ghost newh = h;
            es.insert(i, (key, h));
            proof {
                lemma_entry_index_range(v0, name@);
                assert(v0[i as int] == (before[i as int].0@, score_view(before[i as int].1)));
                assert(es@[i as int] == (key, newh));
                assert forall|k: int| 0 <= k < es@.len() && k != i implies entries_view(es@)[k] == v0[k] by {
                    assert(es@[k] == before[k]);
                }
                assert(entries_view(es@).len() == v0.len());
                assert(entries_view(es@) =~= v0.update(i as int, (name@, (score, newest_first(v0[i as int].1.1, score, max as nat), v0[i as int].1.2, ts))));
                assert forall|k: int| 0 <= k < es@.len() implies (#[trigger] es@[k]).1.is_bottleneck_count < usize::MAX by {
                    if k != i {
                        assert(es@[k] == before[k]);
                    }
                }
            }
        },
        None => {
            let mut scores: Vec<u64> = Vec::new();
            push_newest(&mut scores, score, max);
            let ghost before = es@;
            es.push((name.clone(), ServiceScoreHistory { current_score: score, score_history: scores, is_bottleneck_count: 0, last_seen: ts }));
            proof {
                assert(entries_view(es@) =~= v0.push((name@, (score, newest_first(Seq::empty(), score, max as nat), 0int, ts))));
                assert forall|k: int| 0 <= k < es@.len() implies (#[trigger] es@[k]).1.is_bottleneck_count < usize::MAX by {
                    if k < before.len() {
                        assert(es@[k] == before[k]);
                    }
                }
            }
        },
    }
}

/// Sets a service's score, adding it at the end where it has none.
fn upsert_score(scores: &mut Vec<(String, u64)>, name: &String, score: u64)
    ensures
        final(scores)@.map_values(|p: (String, u64)| (p.0@, p.1)) == match entry_index(
            old(scores)@.map_values(|p: (String, u64)| (p.0@, p.1)),
            name@,
        ) {
            Some(i) => old(scores)@.map_values(|p: (String, u64)| (p.0@, p.1)).update(i, (name@, score)),
            None => old(scores)@.map_values(|p: (String, u64)| (p.0@, p.1)).push((name@, score)),
        },
{
    let ghost v = scores@.map_values(|p: (String, u64)| (p.0@, p.1));
    let mut j: usize = 0;
    while j < scores.len()
        invariant
            v == old(scores)@.map_values(|p: (String, u64)| (p.0@, p.1)),
            scores@ == old(scores)@,
            j <= scores@.len(),
            forall|k: int| 0 <= k < j ==> (#[trigger] v[k]).0 != name@,
        decreases scores@.len() - j,
    {
        if scores[j].0 == *name {
            proof {
                lemma_entry_index(v, name@, j as int);
            }
            let (key, _) = scores.remove(j);
            scores.insert(j, (key, score));
            assert(scores@.map_values(|p: (String, u64)| (p.0@, p.1)) =~= v.update(j as int, (name@, score)));
            return;
        }
        j = j + 1;
    }
    proof {
        lemma_entry_index(v, name@, v.len() as int);
    }
    scores.push((name.clone(), score));
    assert(scores@.map_values(|p: (String, u64)| (p.0@, p.1)) =~= v.push((name@, score)));
}

impl BottleneckHistory {
    /// The largest number of analyses kept.
    pub open spec fn max(&self) -> nat {
        self.max_history as nat
    }

    /// The history keeps one entry per service.
    pub open spec fn wf(&self) -> bool {
        keys_distinct(entries_view(self.service_scores@))
    }

    /// The history keeps no more than the largest number of analyses, and
    /// no service more than that many scores.
    pub open spec fn bounded(&self) -> bool {
        &&& self.history@.len() <= self.max()
        &&& scores_bounded(entries_view(self.service_scores@), self.max())
    }

    /// An empty history that keeps at most `max_history` analyses.
    pub fn new(max_history: usize) -> (h: Self)
        ensures
            h.service_scores@.len() == 0,
            h.top_bottleneck is None,
            h.history@.len() == 0,
            h.max() == max_history,
            h.wf(),
            h.bounded(),
    {
        BottleneckHistory { service_scores: Vec::new(), top_bottleneck: None, history: Vec::new(), max_history }
    }

    /// Records an analysis made at time `timestamp`: each ranked service's
    /// score becomes its current one and joins its history (newest first,
    /// at most the largest number kept), the top service is counted once
    /// more as the bottleneck if its score is above zero, a snapshot joins
    /// the history of analyses (newest first, likewise bounded), and the top
    /// service becomes the current top. Returns the top service before.
    pub fn record(&mut self, report: &AnalysisReport, timestamp: i64) -> (previous_top: Option<String>)
        requires
            forall|k: int|
                0 <= k < old(self).service_scores@.len() ==> (#[trigger] old(self).service_scores@[k]).1.is_bottleneck_count
                    < usize::MAX,
        ensures
            previous_top == old(self).top_bottleneck,
            final(self).max() == old(self).max(),
            old(self).wf() ==> final(self).wf(),
            old(self).bounded() ==> final(self).bounded(),
            entries_view(final(self).service_scores@) == recorded(
                entries_view(old(self).service_scores@),
                report.service_ranks@,
                timestamp,
                old(self).max(),
            ),
            final(self).top_bottleneck == if report.service_ranks@.len() > 0 {
                Some(report.service_ranks@[0].service_name)
            } else {
                None::<String>
            },
            final(self).history@.len() == if old(self).history@.len() + 1 > old(self).max() {
                old(self).history@.len() as int
            } else {
                old(self).history@.len() + 1int
            },
            final(self).history@.len() > 0 ==> {
                let snap = final(self).history@[0];
                &&& snap.timestamp == timestamp
                &&& snap.top_bottleneck@ == if report.service_ranks@.len() > 0 {
                    report.service_ranks@[0].service_name@
                } else {
                    Seq::<char>::empty()
                }
                &&& snap.top_score == if report.service_ranks@.len() > 0 { report.service_ranks@[0].bottleneck_score } else { 0 }
                &&& snap.all_scores@.map_values(|p: (String, u64)| (p.0@, p.1)) == all_scores_of(
                    report.service_ranks@,
                    report.service_ranks@.len() as int,
                )
            },
            forall|k: int|
                1 <= k < final(self).history@.len() ==> #[trigger] final(self).history@[k] == old(self).history@[k - 1],
    {
        let ranks = &report.service_ranks;
        let max = self.max_history;
        let ghost e0 = entries_view(self.service_scores@);
        let mut all_scores: Vec<(String, u64)> = Vec::new();
        for r in 0..ranks.len()
            invariant
                max == self.max_history,
                self.max_history == old(self).max_history,
                self.history@ == old(self).history@,
                self.top_bottleneck == old(self).top_bottleneck,
                e0 == entries_view(old(self).service_scores@),
                entries_view(self.service_scores@) == record_ranks(e0, ranks@, r as int, timestamp, max as nat),
                forall|k: int| 0 <= k < self.service_scores@.len() ==> (#[trigger] self.service_scores@[k]).1.is_bottleneck_count < usize::MAX,
                all_scores@.map_values(|p: (String, u64)| (p.0@, p.1)) == all_scores_of(ranks@, r as int),
        {
            let name = &ranks[r].service_name;
            let score = ranks[r].bottleneck_score;
            record_one(&mut self.service_scores, name, score, timestamp, max);
            upsert_score(&mut all_scores, name, score);
        }
        let ghost after = entries_view(self.service_scores@);
        if ranks.len() > 0 && ranks[0].bottleneck_score > 0 {
            match find_entry(&self.service_scores, &ranks[0].service_name) {
                Some(i) => {
                    proof {
                        lemma_entry_index_range(after, ranks@[0].service_name@);
                    }
                    assert(self.service_scores@[i as int].1.is_bottleneck_count < usize::MAX);
                    let ghost before = self.service_scores@;
                    let (key, mut h) = self.service_scores.remove(i);
                    h.is_bottleneck_count = h.is_bottleneck_count + 1;
                    self.service_scores.insert(i, (key, h));
                    proof {
                        lemma_entry_index_range(after, ranks@[0].service_name@);
                        assert(entries_view(self.service_scores@) =~= after.update(
                            i as int,
                            (after[i as int].0, (after[i as int].1.0, after[i as int].1.1, after[i as int].1.2 + 1, after[i as int].1.3)),
                        ));
                    }
                },
                None => {},
            }
        }
        let (top_name, top_score) = if ranks.len() > 0 {
            (ranks[0].service_name.clone(), ranks[0].bottleneck_score)
        } else {
            (String::new(), 0)
        };
        let snapshot = BottleneckSnapshot { timestamp, top_bottleneck: top_name, top_score, all_scores };
        let ghost h0 = self.history@;
        self.history.insert(0, snapshot);
        if self.history.len() > max {
            self.history.pop();
        }
        assert forall|k: int| 1 <= k < self.history@.len() implies #[trigger] self.history@[k] == h0[k - 1] by {}
        proof {
            if old(self).wf() {
                lemma_recorded_distinct(e0, ranks@, timestamp, max as nat);
            }
            if old(self).bounded() {
                lemma_recorded_bounded(e0, ranks@, timestamp, max as nat);
            }
        }
        let previous_top = self.top_bottleneck.take();
        self.top_bottleneck = if ranks.len() > 0 {
            Some(ranks[0].service_name.clone())
        } else {
            None
        };
        previous_top
    }

    /// The scores of a service, newest first; none if it was never ranked.
    pub fn scores_of(&self, service: &String) -> (res: Option<&ServiceScoreHistory>)
        ensures
            match entry_index(entries_view(self.service_scores@), service@) {
                None => res is None,
                Some(i) => res matches Some(r) && *r == self.service_scores@[i].1,
            },
    {
        proof {
            lemma_entry_index_range(entries_view(self.service_scores@), service@);
        }
        match find_entry(&self.service_scores, service) {
            Some(i) => Some(&self.service_scores[i].1),
            None => None,
        }
    }
}

impl Default for BottleneckHistory {
    fn default() -> (h: Self)
        ensures
            h.service_scores@.len() == 0,
            h.top_bottleneck is None,
            h.history@.len() == 0,
            h.max() == 20,
            h.wf(),
            h.bounded(),
    {
        Self::new(20)
    }
}

/// The score history of a service in some entries (none where it has no
/// entry).
pub open spec fn history_of(es: Seq<(Seq<char>, ScoreView)>, name: Seq<char>) -> Seq<u64> {
    match entry_index(es, name) {
        Some(i) => es[i].1.1,
        None => Seq::empty(),
    }
}

/// Recording ranks of other services leaves a service's entry as it was.
proof fn lemma_record_ranks_frame_upto(es: Seq<(Seq<char>, ScoreView)>, ranks: Seq<ServiceBottleneckRank>, n: int, ts: i64, max: nat, name: Seq<char>)
    requires
        0 <= n <= ranks.len(),
        forall|q: int| 0 <= q < n ==> (#[trigger] ranks[q]).service_name@ != name,
    ensures
        entry_index(record_ranks(es, ranks, n, ts, max), name) == entry_index(es, name),
        entry_index(es, name) matches Some(i) ==> record_ranks(es, ranks, n, ts, max)[i] == es[i],
    decreases n,
{
    if n > 0 {
        lemma_record_ranks_frame_upto(es, ranks, n - 1, ts, max, name);
        lemma_record_rank_other(
            record_ranks(es, ranks, n - 1, ts, max),
            ranks[n - 1].service_name@,
            ranks[n - 1].bottleneck_score,
            ts,
            max,
            name,
        );
    }
}

/// After the ranks up to `n`, a service ranked once among them, at `r`,
/// has as its history its history before with that rank's score recorded.
proof fn lemma_record_ranks_history(es: Seq<(Seq<char>, ScoreView)>, ranks: Seq<ServiceBottleneckRank>, n: int, ts: i64, max: nat, r: int)
    requires
        0 <= r < n <= ranks.len(),
        forall|q: int| 0 <= q < n && q != r ==> (#[trigger] ranks[q]).service_name@ != ranks[r].service_name@,
    ensures
        entry_index(record_ranks(es, ranks, n, ts, max), ranks[r].service_name@) matches Some(j)
            && record_ranks(es, ranks, n, ts, max)[j].1.1 == newest_first(
            history_of(es, ranks[r].service_name@),
            ranks[r].bottleneck_score,
            max,
        ),
    decreases n,
{
    let name = ranks[r].service_name@;
    let prev = record_ranks(es, ranks, n - 1, ts, max);
    if n - 1 == r {
        lemma_record_ranks_frame_upto(es, ranks, r, ts, max, name);
        lemma_entry_index_range(prev, name);
        lemma_entry_index_range(es, name);
        lemma_record_rank_same(prev, name, ranks[r].bottleneck_score, ts, max);
        let res = record_rank(prev, name, ranks[r].bottleneck_score, ts, max);
        lemma_entry_index_range(res, name);
        match entry_index(prev, name) {
            Some(i) => {
                assert forall|k: int| 0 <= k < i implies (#[trigger] res[k]).0 != name by {
                    lemma_entry_index_first(prev, name, k);
                    assert(res[k].0 == prev[k].0);
                }
                lemma_entry_index(res, name, i);
            },
            None => {
                lemma_entry_index_none(prev, name);
                assert forall|k: int| 0 <= k < prev.len() implies (#[trigger] res[k]).0 != name by {
                    assert(res[k] == prev[k]);
                }
                lemma_entry_index(res, name, prev.len() as int);
            },
        }
    } else {
        lemma_record_ranks_history(es, ranks, n - 1, ts, max, r);
        lemma_record_rank_other(prev, ranks[n - 1].service_name@, ranks[n - 1].bottleneck_score, ts, max, name);
    }
}

/// After an analysis is recorded, a service that it ranks once has as its
/// score history its history before with the new score in front, keeping
/// the newest `min(length before + 1, max)` scores, in order (where the
/// history before kept no more than `max`).
pub proof fn law_record_history(es: Seq<(Seq<char>, ScoreView)>, ranks: Seq<ServiceBottleneckRank>, ts: i64, max: nat, r: int)
    requires
        0 <= r < ranks.len(),
        forall|q: int| 0 <= q < ranks.len() && q != r ==> (#[trigger] ranks[q]).service_name@ != ranks[r].service_name@,
        history_of(es, ranks[r].service_name@).len() <= max,
    ensures
        ({
            let name = ranks[r].service_name@;
            let h = history_of(es, name);
            let keep: int = if h.len() + 1 <= max { (h.len() + 1) as int } else { max as int };
            let after = recorded(es, ranks, ts, max);
            entry_index(after, name) matches Some(j) && after[j].1.1 == (seq![ranks[r].bottleneck_score] + h).subrange(0, keep)
        }),
{
    let name = ranks[r].service_name@;
    let h = history_of(es, name);
    lemma_record_ranks_history(es, ranks, ranks.len() as int, ts, max, r);
    let after = record_ranks(es, ranks, ranks.len() as int, ts, max);
    lemma_entry_index_range(after, name);
    let all = seq![ranks[r].bottleneck_score] + h;
    if all.len() > max {
        assert(all.drop_last() =~= all.subrange(0, max as int));
    } else {
        assert(all =~= all.subrange(0, all.len() as int));
    }
    if ranks.len() > 0 && ranks[0].bottleneck_score > 0 {
        lemma_entry_index_range(after, ranks[0].service_name@);
        let res = recorded(es, ranks, ts, max);
        let i = entry_index(after, name)->0;
        assert forall|k: int| 0 <= k < i implies (#[trigger] res[k]).0 != name by {
            lemma_entry_index_first(after, name, k);
            assert(res[k].0 == after[k].0);
        }
        assert(res[i].0 == name);
        lemma_entry_index(res, name, i);
    }
}

} // verus!

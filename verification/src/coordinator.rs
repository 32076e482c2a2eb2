//! The search coordinator: fan-out bookkeeping and fan-in aggregation.
//!
//! One worker per configured root computes its own local result list;
//! nothing is shared while it works.  Each finished worker hands its list
//! over exactly once, and the coordinator merges it into the aggregate
//! under the rule that no path is reported twice.  Only after every
//! worker has handed off does the coordinator reach `Done` and freeze the
//! aggregate.  The threads themselves live outside the library; the
//! coordinator is the verified state machine they drive.

use crate::results::{placeholder_result, SearchResult};
use vstd::prelude::*;
use vstd::seq_lib::group_to_multiset_ensures;
use vstd::string::*;

verus! {

/// The configuration of one search run, immutable while it runs.
pub struct SearchConfig {
    pub phrase: String,
    pub case_sensitive: bool,
    pub roots: Vec<String>,
    pub build_archive: bool,
}

/// Where a search stands: not yet started, waiting for workers, or
/// finished with the aggregate frozen.
#[derive(Clone, Copy, PartialEq, Eq, Structural, Debug)]
pub enum SearchPhase {
    Idle,
    Running,
    Done,
}

/// Does some result in `rs` already report `path`?
pub open spec fn has_path(rs: Seq<SearchResult>, path: Seq<char>) -> bool {
    exists|k: int| 0 <= k < rs.len() && (#[trigger] rs[k])@.file_path == path
}

/// Merge one worker's list into the aggregate: walk the worker's results
/// in order and append each one whose path is not reported yet.
pub open spec fn merge_seq(acc: Seq<SearchResult>, ws: Seq<SearchResult>) -> Seq<SearchResult>
    decreases ws.len(),
{
    if ws.len() == 0 {
        acc
    } else {
        let acc2 = if has_path(acc, ws.first()@.file_path) {
            acc
        } else {
            acc.push(ws.first())
        };
        merge_seq(acc2, ws.drop_first())
    }
}

/// No two results in `rs` report the same path.
pub open spec fn unique_paths(rs: Seq<SearchResult>) -> bool {
    forall|j: int, k: int|
        0 <= j < k < rs.len() ==> (#[trigger] rs[j])@.file_path != (#[trigger] rs[k])@.file_path
}

/// The worker list `b` reports no path that `a` reports.
pub open spec fn no_shared_path(a: Seq<SearchResult>, b: Seq<SearchResult>) -> bool {
    forall|k: int| 0 <= k < b.len() ==> !has_path(a, (#[trigger] b[k])@.file_path)
}

/// Worker lists from disjoint-file roots: pairwise, no shared path.
pub open spec fn disjoint_workers(ws: Seq<Seq<SearchResult>>) -> bool {
    forall|i: int, j: int|
        0 <= i < ws.len() && 0 <= j < ws.len() && i != j ==> no_shared_path(
            #[trigger] ws[i],
            #[trigger] ws[j],
        )
}

/// Every worker list reports each of its paths once.
pub open spec fn all_unique(ws: Seq<Seq<SearchResult>>) -> bool {
    forall|i: int| 0 <= i < ws.len() ==> unique_paths(#[trigger] ws[i])
}

/// The aggregate after every worker has handed off, in hand-off order.
pub open spec fn merge_all(ws: Seq<Seq<SearchResult>>) -> Seq<SearchResult>
    decreases ws.len(),
{
    if ws.len() == 0 {
        Seq::empty()
    } else {
        merge_seq(merge_all(ws.drop_last()), ws.last())
    }
}

/// Every result some worker computed, as one set.
pub open spec fn union_of(ws: Seq<Seq<SearchResult>>) -> Set<SearchResult> {
    Set::new(|x: SearchResult| exists|i: int| 0 <= i < ws.len() && (#[trigger] ws[i]).contains(x))
}

/// What merging keeps and adds: merged elements come from one of the two
/// inputs, everything already aggregated stays, a path is reported
/// afterwards exactly when one of the inputs reports it, and path
/// uniqueness is preserved.
proof fn lemma_merge_seq_props(acc: Seq<SearchResult>, ws: Seq<SearchResult>)
    ensures
        forall|x: SearchResult|
            #[trigger] merge_seq(acc, ws).contains(x) ==> acc.contains(x) || ws.contains(x),
        forall|x: SearchResult| #[trigger] acc.contains(x) ==> merge_seq(acc, ws).contains(x),
        forall|p: Seq<char>|
            #[trigger] has_path(merge_seq(acc, ws), p) <==> has_path(acc, p) || has_path(ws, p),
        unique_paths(acc) ==> unique_paths(merge_seq(acc, ws)),
    decreases ws.len(),
{
    if ws.len() == 0 {
        assert forall|p: Seq<char>| #[trigger] has_path(ws, p) implies false by {}
    } else {
        let first = ws.first();
        let rest = ws.drop_first();
        let acc2 = if has_path(acc, first@.file_path) {
            acc
        } else {
            acc.push(first)
        };
        lemma_merge_seq_props(acc2, rest);
        assert(merge_seq(acc, ws) == merge_seq(acc2, rest));
        // membership between acc2 and acc/first
        assert forall|x: SearchResult| #[trigger] acc2.contains(x) implies acc.contains(x) || x
            == first by {
            let j = choose|j: int| 0 <= j < acc2.len() && acc2[j] == x;
            if j < acc.len() {
                assert(acc[j] == x);
            }
        }
        assert forall|x: SearchResult| #[trigger] acc.contains(x) implies acc2.contains(x) by {
            let j = choose|j: int| 0 <= j < acc.len() && acc[j] == x;
            assert(acc2[j] == x);
        }
        assert forall|x: SearchResult|
            #[trigger] merge_seq(acc, ws).contains(x) implies acc.contains(x) || ws.contains(
            x,
        ) by {
            if acc2.contains(x) {
                if !acc.contains(x) {
                    assert(ws[0] == x);
                }
            } else {
                assert(rest.contains(x));
                let j = choose|j: int| 0 <= j < rest.len() && rest[j] == x;
                assert(ws[j + 1] == x);
            }
        }
        if !has_path(acc, first@.file_path) {
            assert(acc2[acc.len() as int] == first);
        }
        // path coverage
        assert forall|p: Seq<char>| #[trigger] has_path(acc2, p) <==> (has_path(acc, p)
            || first@.file_path == p) by {
            if has_path(acc2, p) {
                let j = choose|j: int| 0 <= j < acc2.len() && acc2[j]@.file_path == p;
                if j < acc.len() {
                    assert(acc[j]@.file_path == p);
                }
            }
            if has_path(acc, p) {
                let j = choose|j: int| 0 <= j < acc.len() && acc[j]@.file_path == p;
                assert(acc2[j]@.file_path == p);
            }
            if first@.file_path == p && !has_path(acc, p) {
                assert(acc2[acc.len() as int]@.file_path == p);
            }
        }
        assert forall|p: Seq<char>| #[trigger] has_path(ws, p) <==> (first@.file_path == p
            || has_path(rest, p)) by {
            if has_path(ws, p) {
                let j = choose|j: int| 0 <= j < ws.len() && ws[j]@.file_path == p;
                if j > 0 {
                    assert(rest[j - 1]@.file_path == p);
                }
            }
            if has_path(rest, p) {
                let j = choose|j: int| 0 <= j < rest.len() && rest[j]@.file_path == p;
                assert(ws[j + 1]@.file_path == p);
            }
            if first@.file_path == p {
                assert(ws[0]@.file_path == p);
            }
        }
        // uniqueness
        if unique_paths(acc) {
            assert(unique_paths(acc2)) by {
                if !has_path(acc, first@.file_path) {
                    assert forall|j: int, k: int| 0 <= j < k < acc2.len() implies (#[trigger] acc2[j])@.file_path
                        != (#[trigger] acc2[k])@.file_path by {
                        if k < acc.len() {
                            assert(acc2[j] == acc[j] && acc2[k] == acc[k]);
                        } else {
                            assert(acc2[k] == first);
                            assert(acc2[j] == acc[j]);
                            assert(!has_path(acc, first@.file_path));
                            if acc[j]@.file_path == first@.file_path {
                                assert(has_path(acc, first@.file_path));
                            }
                        }
                    }
                }
            }
        }
    }
}

/// Merging a worker that shares no path with the aggregate and repeats
/// none of its own appends the whole worker list unchanged.
proof fn lemma_merge_seq_disjoint(acc: Seq<SearchResult>, ws: Seq<SearchResult>)
    requires
        no_shared_path(acc, ws),
        unique_paths(ws),
    ensures
        merge_seq(acc, ws) == acc + ws,
    decreases ws.len(),
{
    if ws.len() == 0 {
        assert(acc + ws =~= acc);
    } else {
        let first = ws.first();
        let rest = ws.drop_first();
        assert(ws[0] == first);
        assert(!has_path(acc, first@.file_path));
        let acc2 = acc.push(first);
        assert forall|k: int| 0 <= k < rest.len() implies !has_path(
            acc2,
            (#[trigger] rest[k])@.file_path,
        ) by {
            assert(rest[k] == ws[k + 1]);
            assert(!has_path(acc, ws[k + 1]@.file_path));
            if has_path(acc2, rest[k]@.file_path) {
                let j = choose|j: int| 0 <= j < acc2.len() && acc2[j]@.file_path
                    == rest[k]@.file_path;
                if j < acc.len() {
                    assert(acc[j]@.file_path == rest[k]@.file_path);
                } else {
                    assert(acc2[j] == first);
                    assert(ws[0]@.file_path == ws[k + 1]@.file_path);
                }
            }
        }
        assert forall|j: int, k: int| 0 <= j < k < rest.len() implies (#[trigger] rest[j])@.file_path
            != (#[trigger] rest[k])@.file_path by {
            assert(rest[j] == ws[j + 1] && rest[k] == ws[k + 1]);
        }
        lemma_merge_seq_disjoint(acc2, rest);
        assert(merge_seq(acc, ws) == merge_seq(acc2, rest));
        assert(acc2 + rest =~= acc + ws);
    }
}

/// The fan-in is exact for disjoint-file roots: once every worker has
/// handed off, the aggregate holds exactly the union of what the workers
/// computed independently, no file missing, and no path twice.
pub proof fn lemma_aggregate_union(ws: Seq<Seq<SearchResult>>)
    requires
        disjoint_workers(ws),
        all_unique(ws),
    ensures
        merge_all(ws).to_set() == union_of(ws),
        unique_paths(merge_all(ws)),
        forall|p: Seq<char>|
            #[trigger] has_path(merge_all(ws), p) <==> exists|i: int|
                0 <= i < ws.len() && has_path(#[trigger] ws[i], p),
    decreases ws.len(),
{
    if ws.len() == 0 {
        assert(merge_all(ws).to_set() =~= union_of(ws));
    } else {
        let front = ws.drop_last();
        let last = ws.last();
        let n = ws.len() as int;
        assert forall|i: int, j: int|
            0 <= i < front.len() && 0 <= j < front.len() && i != j implies no_shared_path(
            #[trigger] front[i],
            #[trigger] front[j],
        ) by {
            assert(front[i] == ws[i] && front[j] == ws[j]);
        }
        assert forall|i: int| 0 <= i < front.len() implies unique_paths(#[trigger] front[i]) by {
            assert(front[i] == ws[i]);
        }
        lemma_aggregate_union(front);
        let fm = merge_all(front);
        assert(merge_all(ws) == merge_seq(fm, last));
        assert(unique_paths(last)) by {
            assert(ws[n - 1] == last);
        }
        assert forall|k: int| 0 <= k < last.len() implies !has_path(
            fm,
            (#[trigger] last[k])@.file_path,
        ) by {
            let p = last[k]@.file_path;
            if has_path(fm, p) {
                let i = choose|i: int| 0 <= i < front.len() && has_path(#[trigger] front[i], p);
                assert(front[i] == ws[i]);
                assert(no_shared_path(ws[i], ws[n - 1]));
                assert(ws[n - 1][k] == last[k]);
            }
        }
        lemma_merge_seq_disjoint(fm, last);
        assert(merge_all(ws) == fm + last);
        lemma_merge_seq_props(fm, last);
        // the set equality
        assert forall|x: SearchResult| #[trigger]
            merge_all(ws).to_set().contains(x) implies union_of(ws).contains(x) by {
            if fm.contains(x) {
                assert(union_of(front).contains(x));
                let i = choose|i: int| 0 <= i < front.len() && (#[trigger] front[i]).contains(x);
                assert(ws[i].contains(x));
            } else {
                let j = choose|j: int| 0 <= j < merge_all(ws).len() && merge_all(ws)[j] == x;
                assert(merge_all(ws)[j] == (fm + last)[j]);
                assert(last[j - fm.len()] == x);
                assert(ws[n - 1].contains(x));
            }
        }
        assert forall|x: SearchResult| #[trigger]
            union_of(ws).contains(x) implies merge_all(ws).to_set().contains(x) by {
            let i = choose|i: int| 0 <= i < ws.len() && (#[trigger] ws[i]).contains(x);
            let j = choose|j: int| 0 <= j < ws[i].len() && ws[i][j] == x;
            if i < n - 1 {
                assert(front[i].contains(x)) by {
                    assert(front[i] == ws[i]);
                }
                assert(union_of(front).contains(x));
                assert(fm.to_set().contains(x));
                assert(fm.contains(x));
                let j2 = choose|j2: int| 0 <= j2 < fm.len() && fm[j2] == x;
                assert((fm + last)[j2] == x);
            } else {
                assert(last[j] == x);
                assert((fm + last)[fm.len() + j] == x);
            }
        }
        assert(merge_all(ws).to_set() =~= union_of(ws));
        // uniqueness of the concatenation
        assert forall|j: int, k: int| 0 <= j < k < merge_all(ws).len() implies (#[trigger] merge_all(
            ws,
        )[j])@.file_path != (#[trigger] merge_all(ws)[k])@.file_path by {
            if j < fm.len() && k >= fm.len() {
                let p = fm[j]@.file_path;
                assert(has_path(fm, p)) by {
                    assert(fm[j]@.file_path == p);
                }
                assert(!has_path(fm, last[k - fm.len()]@.file_path));
                assert((fm + last)[j] == fm[j]);
                assert((fm + last)[k] == last[k - fm.len()]);
            } else if j >= fm.len() {
                assert((fm + last)[j] == last[j - fm.len()]);
                assert((fm + last)[k] == last[k - fm.len()]);
                assert(unique_paths(last));
            } else {
                assert((fm + last)[j] == fm[j]);
                assert((fm + last)[k] == fm[k]);
            }
        }
        // path coverage over all workers
        assert forall|p: Seq<char>| #[trigger]
            has_path(merge_all(ws), p) implies exists|i: int|
            0 <= i < ws.len() && has_path(#[trigger] ws[i], p) by {
            if has_path(fm, p) {
                let i = choose|i: int| 0 <= i < front.len() && has_path(#[trigger] front[i], p);
                assert(front[i] == ws[i]);
                assert(has_path(ws[i], p));
            } else {
                assert(has_path(last, p));
                assert(ws[n - 1] == last);
                assert(has_path(ws[n - 1], p));
            }
        }
        assert forall|p: Seq<char>|
            (exists|i: int| 0 <= i < ws.len() && has_path(#[trigger] ws[i], p)) implies has_path(
            merge_all(ws),
            p,
        ) by {
            let i = choose|i: int| 0 <= i < ws.len() && has_path(#[trigger] ws[i], p);
            if i < n - 1 {
                assert(front[i] == ws[i]);
                assert(has_path(front[i], p));
                assert(has_path(fm, p));
            } else {
                assert(has_path(last, p));
            }
        }
    }
}

/// The match-all policy end to end: when every worker list is the
/// placeholder report of its root's candidate files, and no candidate
/// file lies under two roots, the frozen aggregate holds exactly the
/// candidate files, each as one placeholder result with a single span,
/// none missing and none twice.
pub proof fn lemma_match_all_aggregate(ws: Seq<Seq<SearchResult>>, roots: Seq<Seq<Seq<char>>>)
    requires
        ws.len() == roots.len(),
        forall|i: int| 0 <= i < ws.len() ==> (#[trigger] ws[i]).len() == roots[i].len(),
        forall|i: int, j: int|
            0 <= i < ws.len() && 0 <= j < ws[i].len() ==> (#[trigger] ws[i][j])@
                == placeholder_result(roots[i][j]),
        forall|i1: int, j1: int, i2: int, j2: int|
            0 <= i1 < roots.len() && 0 <= j1 < roots[i1].len() && 0 <= i2 < roots.len() && 0 <= j2
                < roots[i2].len() && (i1 != i2 || j1 != j2) ==> #[trigger] roots[i1][j1]
                != #[trigger] roots[i2][j2],
    ensures
        unique_paths(merge_all(ws)),
        forall|p: Seq<char>|
            #[trigger] has_path(merge_all(ws), p) <==> exists|i: int, j: int|
                0 <= i < roots.len() && 0 <= j < roots[i].len() && #[trigger] roots[i][j] == p,
        forall|k: int|
            0 <= k < merge_all(ws).len() ==> (#[trigger] merge_all(ws)[k])@.matches.len() == 1
                && exists|i: int, j: int|
                0 <= i < roots.len() && 0 <= j < roots[i].len() && merge_all(ws)[k]@
                    == placeholder_result(#[trigger] roots[i][j]),
{
    assert forall|i: int, j: int|
        0 <= i < ws.len() && 0 <= j < ws[i].len() implies (#[trigger] ws[i][j])@.file_path
        == roots[i][j] by {
        assert(ws[i][j]@ == placeholder_result(roots[i][j]));
    }
    assert forall|i: int| 0 <= i < ws.len() implies unique_paths(#[trigger] ws[i]) by {
        assert forall|j: int, k: int| 0 <= j < k < ws[i].len() implies (#[trigger] ws[i][j])@.file_path
            != (#[trigger] ws[i][k])@.file_path by {
            assert(roots[i][j] != roots[i][k]);
        }
    }
    assert forall|i: int, j: int|
        0 <= i < ws.len() && 0 <= j < ws.len() && i != j implies no_shared_path(
        #[trigger] ws[i],
        #[trigger] ws[j],
    ) by {
        assert forall|k: int| 0 <= k < ws[j].len() implies !has_path(
            ws[i],
            (#[trigger] ws[j][k])@.file_path,
        ) by {
            if has_path(ws[i], ws[j][k]@.file_path) {
                let m = choose|m: int|
                    0 <= m < ws[i].len() && (#[trigger] ws[i][m])@.file_path
                        == ws[j][k]@.file_path;
                assert(roots[i][m] == ws[i][m]@.file_path);
                assert(roots[j][k] == ws[j][k]@.file_path);
                assert(roots[i][m] != roots[j][k]);
            }
        }
    }
    lemma_aggregate_union(ws);
    assert forall|p: Seq<char>| #[trigger]
        has_path(merge_all(ws), p) implies exists|i: int, j: int|
        0 <= i < roots.len() && 0 <= j < roots[i].len() && #[trigger] roots[i][j] == p by {
        let i = choose|i: int| 0 <= i < ws.len() && has_path(#[trigger] ws[i], p);
        let k = choose|k: int| 0 <= k < ws[i].len() && (#[trigger] ws[i][k])@.file_path == p;
        assert(roots[i][k] == p);
    }
    assert forall|p: Seq<char>|
        (exists|i: int, j: int|
            0 <= i < roots.len() && 0 <= j < roots[i].len() && #[trigger] roots[i][j]
                == p) implies has_path(merge_all(ws), p) by {
        let (i, j) = choose|i: int, j: int|
            0 <= i < roots.len() && 0 <= j < roots[i].len() && #[trigger] roots[i][j] == p;
        assert(ws[i][j]@.file_path == p);
        assert(has_path(ws[i], p));
        assert(exists|i2: int| 0 <= i2 < ws.len() && has_path(#[trigger] ws[i2], p));
    }
    assert forall|k: int| 0 <= k < merge_all(ws).len() implies (#[trigger] merge_all(
        ws,
    )[k])@.matches.len() == 1 && exists|i: int, j: int|
        0 <= i < roots.len() && 0 <= j < roots[i].len() && merge_all(ws)[k]@ == placeholder_result(
            #[trigger] roots[i][j],
        ) by {
        let x = merge_all(ws)[k];
        assert(merge_all(ws).contains(x));
        assert(merge_all(ws).to_set().contains(x));
        assert(union_of(ws).contains(x));
        let i = choose|i: int| 0 <= i < ws.len() && (#[trigger] ws[i]).contains(x);
        let j = choose|j: int| 0 <= j < ws[i].len() && ws[i][j] == x;
        assert(x@ == placeholder_result(roots[i][j]));
        assert(placeholder_result(roots[i][j]).matches.len() == 1);
    }
}

/// Workers may finish in any order: two hand-off orders of the same
/// worker lists freeze the same result set.
pub proof fn lemma_completion_order_irrelevant(
    a: Seq<Seq<SearchResult>>,
    b: Seq<Seq<SearchResult>>,
)
    requires
        a.to_multiset() == b.to_multiset(),
        disjoint_workers(a),
        all_unique(a),
        disjoint_workers(b),
        all_unique(b),
    ensures
        merge_all(a).to_set() == merge_all(b).to_set(),
{
    broadcast use group_to_multiset_ensures;

    lemma_aggregate_union(a);
    lemma_aggregate_union(b);
    assert forall|x: SearchResult| #[trigger]
        union_of(a).contains(x) implies union_of(b).contains(x) by {
        let i = choose|i: int| 0 <= i < a.len() && (#[trigger] a[i]).contains(x);
        assert(a.contains(a[i]));
        assert(a.to_multiset().count(a[i]) > 0);
        assert(b.contains(a[i]));
        let j = choose|j: int| 0 <= j < b.len() && b[j] == a[i];
        assert(b[j].contains(x));
    }
    assert forall|x: SearchResult| #[trigger]
        union_of(b).contains(x) implies union_of(a).contains(x) by {
        let i = choose|i: int| 0 <= i < b.len() && (#[trigger] b[i]).contains(x);
        assert(b.contains(b[i]));
        assert(b.to_multiset().count(b[i]) > 0);
        assert(a.contains(b[i]));
        let j = choose|j: int| 0 <= j < a.len() && a[j] == b[i];
        assert(a[j].contains(x));
    }
    assert(union_of(a) =~= union_of(b));
}

/// Does the aggregate already report `path`?
fn has_path_exec(rs: &Vec<SearchResult>, path: &String) -> (r: bool)
    ensures
        r == has_path(rs@, path@),
{
    let mut k: usize = 0;
    while k < rs.len()
        invariant
            k <= rs@.len(),
            forall|j: int| 0 <= j < k ==> (#[trigger] rs@[j])@.file_path != path@,
        decreases rs@.len() - k,
    {
        if rs[k].file_path == *path {
            proof {
                assert(rs@[k as int]@.file_path == path@);
            }
            return true;
        }
        k += 1;
    }
    false
}

/// The coordinator of one search run: the configuration, the join
/// barrier, and the aggregate the workers hand their results to.
pub struct SearchCoordinator {
    pub config: SearchConfig,
    pub started: bool,
    pub pending: usize,
    pub aggregate: Vec<SearchResult>,
}

impl SearchCoordinator {
    /// Idle before `start`; Running while any worker has not handed off;
    /// Done once every worker has.
    pub open spec fn phase(self) -> SearchPhase {
        if !self.started {
            SearchPhase::Idle
        } else if self.pending > 0 {
            SearchPhase::Running
        } else {
            SearchPhase::Done
        }
    }

    /// The coordinator's invariant: the aggregate reports no path twice,
    /// every aggregated result is well-formed, and nothing is aggregated
    /// before the search starts.
    pub open spec fn wf(self) -> bool {
        &&& unique_paths(self.aggregate@)
        &&& forall|k: int| 0 <= k < self.aggregate@.len() ==> (#[trigger] self.aggregate@[k]).wf()
        &&& (self.phase() is Idle ==> self.aggregate@.len() == 0)
    }

    /// The phase the coordinator stands in right now.
    pub fn phase_now(&self) -> (r: SearchPhase)
        ensures
            r == self.phase(),
    {
        if !self.started {
            SearchPhase::Idle
        } else if self.pending > 0 {
            SearchPhase::Running
        } else {
            SearchPhase::Done
        }
    }

    /// A fresh coordinator for one configuration: idle, empty aggregate.
    pub fn new(config: SearchConfig) -> (r: Self)
        ensures
            r.phase() is Idle,
            r.config == config,
            r.aggregate@ == Seq::<SearchResult>::empty(),
            r.wf(),
    {
        SearchCoordinator { config, started: false, pending: 0, aggregate: Vec::new() }
    }

    /// Start the search: one pending hand-off per configured root.  With
    /// no roots there is no worker to wait for, and the search is done at
    /// once.
    pub fn start(&mut self)
        requires
            old(self).phase() is Idle,
        ensures
            final(self).config == old(self).config,
            final(self).aggregate@ == old(self).aggregate@,
            final(self).pending == old(self).config.roots@.len(),
            final(self).phase() == (if old(self).config.roots@.len() == 0 {
                SearchPhase::Done
            } else {
                SearchPhase::Running
            }),
            old(self).wf() ==> final(self).wf(),
    {
        let n = self.config.roots.len();
        self.started = true;
        self.pending = n;
    }

    /// One worker's hand-off: merge its local list into the aggregate,
    /// first result for a path wins; the join barrier drops by one, and
    /// the run is done when this was the last worker.
    pub fn submit(&mut self, worker: Vec<SearchResult>)
        requires
            old(self).phase() is Running,
        ensures
            final(self).config == old(self).config,
            final(self).aggregate@ == merge_seq(old(self).aggregate@, worker@),
            final(self).pending == old(self).pending - 1,
            final(self).phase() == (if old(self).pending == 1 {
                SearchPhase::Done
            } else {
                SearchPhase::Running
            }),
            old(self).wf() && (forall|k: int|
                0 <= k < worker@.len() ==> (#[trigger] worker@[k]).wf()) ==> final(self).wf(),
    {
        let ghost orig_acc = self.aggregate@;
        let ghost orig_worker = worker@;
        let mut worker = worker;
        while worker.len() > 0
            invariant
                self.config == old(self).config,
                self.started == old(self).started,
                self.pending == old(self).pending,
                merge_seq(self.aggregate@, worker@) == merge_seq(orig_acc, orig_worker),
            decreases worker@.len(),
        {
            let ghost pre_acc = self.aggregate@;
            let ghost pre_view = worker@;
            let w0 = worker.remove(0);
            proof {
                assert(pre_view.first() == w0);
                assert(pre_view.drop_first() =~= worker@);
            }
            if !has_path_exec(&self.aggregate, &w0.file_path) {
                self.aggregate.push(w0);
            }
            proof {
                assert(merge_seq(pre_acc, pre_view) == merge_seq(self.aggregate@, worker@));
            }
        }
        proof {
            assert(merge_seq(self.aggregate@, worker@) == self.aggregate@);
        }
        self.pending = self.pending - 1;
        proof {
            lemma_merge_seq_props(orig_acc, orig_worker);
            if old(self).wf() && (forall|k: int|
                0 <= k < orig_worker.len() ==> (#[trigger] orig_worker[k]).wf()) {
                assert forall|k: int| 0 <= k < self.aggregate@.len() implies (#[trigger] self.aggregate@[k]).wf() by {
                    let x = self.aggregate@[k];
                    assert(self.aggregate@.contains(x));
                    if orig_acc.contains(x) {
                        let j = choose|j: int| 0 <= j < orig_acc.len() && orig_acc[j] == x;
                        assert(orig_acc[j].wf());
                    } else {
                        assert(orig_worker.contains(x));
                        let j = choose|j: int| 0 <= j < orig_worker.len() && orig_worker[j] == x;
                        assert(orig_worker[j].wf());
                    }
                }
            }
        }
    }

    /// The frozen aggregate, available only once every worker is done.
    pub fn into_results(self) -> (r: Vec<SearchResult>)
        requires
            self.phase() is Done,
        ensures
            r@ == self.aggregate@,
    {
        self.aggregate
    }
}

} // verus!

//! What a recall score is: how many ids the first `k` of each ground-truth
//! row and the first `k` of the row that was retrieved have in common.

use vstd::prelude::*;

use crate::dataset;
use crate::dataset::RecallScore;
use crate::error::HnswError;
use crate::params::NodeId;

verus! {

/// The first `n` ids of a ground-truth row.
pub open spec fn true_ids(row: Seq<i32>, n: nat) -> Set<int> {
    row.take(n as int).map_values(|id: i32| id as int).to_set()
}

/// The first `n` ids of a retrieved row.
pub open spec fn retrieved_ids(row: Seq<NodeId>, n: nat) -> Set<int> {
    row.take(n as int).map_values(|id: NodeId| id.0 as int).to_set()
}

/// The rows of a query can be scored: each has `k` ids, which are base vectors
/// and all different.
pub open spec fn scorable(
    truth: Seq<i32>,
    retrieved: Seq<NodeId>,
    k: usize,
    base_count: u32,
) -> bool {
    &&& k <= truth.len()
    &&& k <= retrieved.len()
    &&& forall|i: int| 0 <= i < k ==> 0 <= #[trigger] truth[i] < base_count
    &&& forall|i: int| 0 <= i < k ==> (#[trigger] retrieved[i]).0 < base_count
    &&& forall|i: int, j: int| 0 <= i < j < k ==> truth[i] != truth[j]
    &&& forall|i: int, j: int| 0 <= i < j < k ==> retrieved[i] != retrieved[j]
}

/// The ids that the first `n` queries have in common, all told.
pub open spec fn common(
    truth: Seq<Seq<i32>>,
    retrieved: Seq<Seq<NodeId>>,
    k: usize,
    n: nat,
) -> nat
    decreases n,
{
    if n == 0 {
        0
    } else {
        common(truth, retrieved, k, (n - 1) as nat) + true_ids(truth[n - 1], k as nat).intersect(
            retrieved_ids(retrieved[n - 1], k as nat),
        ).len()
    }
}

/// A ground-truth row's ids are in range if and only if no fault is found.
proof fn lemma_truth_in_range(query: usize, row: Seq<i32>, base_count: u32, n: nat)
    ensures
        dataset::truth_fault(query, row, base_count, n) is None <==> forall|i: int|
            0 <= i < n ==> 0 <= #[trigger] row[i] < base_count,
    decreases n,
{
    if n > 0 {
        lemma_truth_in_range(query, row, base_count, (n - 1) as nat);
    }
}

/// A retrieved row's ids are in range if and only if no fault is found.
proof fn lemma_retrieved_in_range(query: usize, row: Seq<NodeId>, base_count: u32, n: nat)
    ensures
        dataset::retrieved_fault(query, row, base_count, n) is None <==> forall|i: int|
            0 <= i < n ==> (#[trigger] row[i]).0 < base_count,
    decreases n,
{
    if n > 0 {
        lemma_retrieved_in_range(query, row, base_count, (n - 1) as nat);
    }
}

/// The rows of a query are accepted if and only if they can be scored.
pub proof fn lemma_rows_accepted(
    query: usize,
    truth: Seq<i32>,
    retrieved: Seq<NodeId>,
    k: usize,
    base_count: u32,
)
    ensures
        dataset::row_fault(query, truth, retrieved, k, base_count) is None <==> scorable(
            truth,
            retrieved,
            k,
            base_count,
        ),
{
    lemma_truth_in_range(query, truth, base_count, k as nat);
    lemma_retrieved_in_range(query, retrieved, base_count, k as nat);
    if k <= truth.len() {
        let t = truth.take(k as int);
        assert(t.no_duplicates() <==> forall|i: int, j: int|
            0 <= i < j < k ==> truth[i] != truth[j]) by {
            if t.no_duplicates() {
                assert forall|i: int, j: int| 0 <= i < j < k implies truth[i] != truth[j] by {
                    assert(t[i] != t[j]);
                }
            }
        }
    }
    if k <= retrieved.len() {
        let t = retrieved.take(k as int);
        assert(t.no_duplicates() <==> forall|i: int, j: int|
            0 <= i < j < k ==> retrieved[i] != retrieved[j]) by {
            if t.no_duplicates() {
                assert forall|i: int, j: int| 0 <= i < j < k implies retrieved[i]
                    != retrieved[j] by {
                    assert(t[i] != t[j]);
                }
            }
        }
    }
}

/// An id is among the first `k` retrieved if and only if it is found.
proof fn lemma_found(id: i32, retrieved: Seq<NodeId>, k: usize)
    requires
        k <= retrieved.len(),
    ensures
        dataset::found(id, retrieved, k) <==> retrieved_ids(retrieved, k as nat).contains(
            id as int,
        ),
{
    let s = retrieved.take(k as int).map_values(|id: NodeId| id.0 as int);
    if dataset::found(id, retrieved, k) {
        let j = choose|j: int| 0 <= j < k && (#[trigger] retrieved[j]).0 == id;
        assert(s[j] == id as int);
    }
    if s.to_set().contains(id as int) {
        let j = choose|j: int| 0 <= j < s.len() && s[j] == id as int;
        assert(retrieved[j].0 == id);
    }
}

/// The hits of a query are the ids that its rows have in common.
pub proof fn lemma_hits_are_common(truth: Seq<i32>, retrieved: Seq<NodeId>, k: usize, n: nat)
    requires
        n <= k <= truth.len(),
        k <= retrieved.len(),
        forall|i: int, j: int| 0 <= i < j < k ==> truth[i] != truth[j],
    ensures
        true_ids(truth, n).finite(),
        dataset::row_hits(truth, retrieved, k, n) == true_ids(truth, n).intersect(
            retrieved_ids(retrieved, k as nat),
        ).len(),
    decreases n,
{
    let b = retrieved_ids(retrieved, k as nat);
    let f = |id: i32| id as int;
    let s = truth.take(n as int).map_values(f);
    vstd::seq_lib::seq_to_set_is_finite(s);
    if n == 0 {
        assert(true_ids(truth, 0).intersect(b) =~= Set::empty()) by {
            assert(s.len() == 0);
        }
    } else {
        lemma_hits_are_common(truth, retrieved, k, (n - 1) as nat);
        let before = truth.take(n - 1).map_values(f);
        let id = truth[n - 1];
        lemma_found(id, retrieved, k);
        assert(!before.to_set().contains(id as int)) by {
            if before.to_set().contains(id as int) {
                let j = choose|j: int| 0 <= j < before.len() && before[j] == id as int;
                assert(truth[j] != truth[n - 1]);
            }
        }
        assert(s =~= before.push(id as int));
        assert(s.to_set() =~= before.to_set().insert(id as int)) by {
            assert forall|x: int| s.to_set().contains(x) <==> before.to_set().insert(
                id as int,
            ).contains(x) by {
                if before.to_set().contains(x) {
                    let j = choose|j: int| 0 <= j < before.len() && before[j] == x;
                    assert(s[j] == x);
                }
                if x == id as int {
                    assert(s[n - 1] == x);
                }
                if s.to_set().contains(x) && x != id as int {
                    let j = choose|j: int| 0 <= j < s.len() && s[j] == x;
                    assert(before[j] == x);
                }
            }
        }
        let old = before.to_set().intersect(b);
        if b.contains(id as int) {
            assert(s.to_set().intersect(b) =~= old.insert(id as int));
        } else {
            assert(s.to_set().intersect(b) =~= old);
        }
    }
}

/// The first queries can be scored if and only if the rows of each can, and
/// their hits are the ids that their rows have in common.
proof fn lemma_scored(
    truth: Seq<Seq<i32>>,
    retrieved: Seq<Seq<NodeId>>,
    k: usize,
    base_count: u32,
    n: nat,
)
    requires
        n <= truth.len(),
    ensures
        dataset::scored(truth, retrieved, k, base_count, n) is Ok <==> forall|q: int|
            0 <= q < n ==> scorable(#[trigger] truth[q], retrieved[q], k, base_count),
        dataset::scored(truth, retrieved, k, base_count, n) matches Ok(hits) ==> hits == common(
            truth,
            retrieved,
            k,
            n,
        ),
        dataset::scored(truth, retrieved, k, base_count, n) matches Err(e)
            ==> e is InvalidArgument,
    decreases n,
{
    if n > 0 {
        lemma_scored(truth, retrieved, k, base_count, (n - 1) as nat);
        lemma_rows_accepted((n - 1) as usize, truth[n - 1], retrieved[n - 1], k, base_count);
        if scorable(truth[n - 1], retrieved[n - 1], k, base_count) {
            lemma_hits_are_common(truth[n - 1], retrieved[n - 1], k, k as nat);
        }
    }
}

/// A score is given if and only if something is asked for, there are queries,
/// as many of ground truth as of answers, and the rows of each can be scored.
/// It is the number of ids that the rows have in common, over the number that
/// was asked for; a failure is an invalid argument.
pub proof fn lemma_recall_counts_common_ids(
    truth: Seq<Seq<i32>>,
    retrieved: Seq<Seq<NodeId>>,
    k: usize,
    base_count: u32,
)
    requires
        truth.len() <= usize::MAX,
    ensures
        dataset::recall(truth, retrieved, k, base_count) is Ok <==> {
            &&& k > 0
            &&& truth.len() > 0
            &&& truth.len() == retrieved.len()
            &&& forall|q: int|
                0 <= q < truth.len() ==> scorable(#[trigger] truth[q], retrieved[q], k, base_count)
        },
        dataset::recall(truth, retrieved, k, base_count) matches Ok(s) ==> {
            &&& s.hits == common(truth, retrieved, k, truth.len())
            &&& s.queries == truth.len()
            &&& s.k == k
        },
        dataset::recall(truth, retrieved, k, base_count) matches Err(e) ==> e is InvalidArgument,
{
    lemma_scored(truth, retrieved, k, base_count, truth.len());
    if dataset::recall(truth, retrieved, k, base_count) is Ok {
        let n = truth.len() as int;
        dataset::lemma_recall_is_a_fraction(truth, retrieved, k, base_count, truth.len());
        assert(n * k <= usize::MAX * usize::MAX) by (nonlinear_arith)
            requires
                0 <= n <= usize::MAX,
                0 <= k <= usize::MAX,
        ;
        assert(usize::MAX * usize::MAX <= u128::MAX) by (nonlinear_arith)
            requires
                usize::MAX <= 0xffff_ffff_ffff_ffff,
        ;
    }
}

/// The order within the first `k` of a row does not matter: rows with the same
/// first `k` ids have the same score.
pub proof fn lemma_recall_ignores_order(
    truth: Seq<Seq<i32>>,
    retrieved: Seq<Seq<NodeId>>,
    other_truth: Seq<Seq<i32>>,
    other_retrieved: Seq<Seq<NodeId>>,
    k: usize,
    base_count: u32,
)
    requires
        truth.len() <= usize::MAX,
        truth.len() == other_truth.len(),
        forall|q: int|
            0 <= q < truth.len() ==> true_ids(#[trigger] truth[q], k as nat) == true_ids(
                other_truth[q],
                k as nat,
            ),
        forall|q: int|
            0 <= q < truth.len() ==> retrieved_ids(#[trigger] retrieved[q], k as nat)
                == retrieved_ids(other_retrieved[q], k as nat),
        dataset::recall(truth, retrieved, k, base_count) is Ok,
        dataset::recall(other_truth, other_retrieved, k, base_count) is Ok,
    ensures
        dataset::recall(truth, retrieved, k, base_count) == dataset::recall(
            other_truth,
            other_retrieved,
            k,
            base_count,
        ),
{
    lemma_recall_counts_common_ids(truth, retrieved, k, base_count);
    lemma_recall_counts_common_ids(other_truth, other_retrieved, k, base_count);
    lemma_same_common(truth, retrieved, other_truth, other_retrieved, k, truth.len());
    let a: Result<RecallScore, HnswError> = dataset::recall(truth, retrieved, k, base_count);
    let b: Result<RecallScore, HnswError> = dataset::recall(
        other_truth,
        other_retrieved,
        k,
        base_count,
    );
    assert(a->Ok_0 == b->Ok_0);
}

/// Rows with the same first `k` ids have as many in common.
proof fn lemma_same_common(
    truth: Seq<Seq<i32>>,
    retrieved: Seq<Seq<NodeId>>,
    other_truth: Seq<Seq<i32>>,
    other_retrieved: Seq<Seq<NodeId>>,
    k: usize,
    n: nat,
)
    requires
        n <= truth.len(),
        forall|q: int|
            0 <= q < n ==> true_ids(#[trigger] truth[q], k as nat) == true_ids(
                other_truth[q],
                k as nat,
            ),
        forall|q: int|
            0 <= q < n ==> retrieved_ids(#[trigger] retrieved[q], k as nat) == retrieved_ids(
                other_retrieved[q],
                k as nat,
            ),
    ensures
        common(truth, retrieved, k, n) == common(other_truth, other_retrieved, k, n),
    decreases n,
{
    if n > 0 {
        lemma_same_common(truth, retrieved, other_truth, other_retrieved, k, (n - 1) as nat);
    }
}

} // verus!

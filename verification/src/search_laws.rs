//! What an insertion keeps with a search that selects among its candidates,
//! and what a search that finds in order is answered.

use vstd::prelude::*;

use crate::crash_laws;
use crate::graph::NeighborSelection;
use crate::graph_laws;
use crate::index;
use crate::index::GraphSearch;
use crate::index::LayerHits;
use crate::index_laws;
use crate::model;
use crate::model::Cand;
use crate::model::IndexView;
use crate::model::LevelChoice;
use crate::model::World;
use crate::paged::PagedGraph;
use crate::params::NodeId;

verus! {

/// The nodes of candidates.
pub open spec fn nodes_of(cands: Seq<Cand>) -> Seq<u32> {
    Seq::new(cands.len(), |j: int| cands[j].id.0)
}

/// Every neighbor that `search` selects is one of the candidates.
pub open spec fn selects_candidates<S: GraphSearch>(search: &S) -> bool {
    forall|
        g: PagedGraph,
        selection: NeighborSelection,
        from: Vec<Cand>,
        m: usize,
        to: Vec<u32>,
    | #[trigger]
        call_ensures(S::select_neighbors, (search, &g, selection, &from, m), to)
            ==> graph_laws::part_of(to@, nodes_of(from@))
}

/// With such a search, a list is cut down to a part of itself.
proof fn lemma_cut_is_a_part<S: GraphSearch>(
    search: &S,
    w: World,
    node_id: u32,
    level: u8,
    c: LevelChoice,
    j: nat,
)
    requires
        selects_candidates(search),
        index::cut_is_answer(search, w, node_id, level, c, j),
    ensures
        graph_laws::cut_down(w, node_id, level, c, j),
{
    reveal(index::cut_is_answer);
    let (w1, r) = model::level_connected(w, node_id, level, c, j);
    let nb = c.neighbors[j as int];
    if let Ok(plan) = model::edge_planned(w1, node_id, nb, level) {
        if r is Ok && plan.over {
            let cap = model::level_cap(w1.index.params, level) as usize;
            let cut = c.shrunk[j as int];
            let cands = choose|cands: Seq<Cand>|
                {
                    &&& cands.len() == plan.list.len()
                    &&& forall|k: int|
                        0 <= k < plan.list.len() ==> (#[trigger] cands[k]).id.0 == plan.list[k]
                            && index::distance_answer(
                            search,
                            w1.index,
                            w1.disk.pages,
                            NodeId(nb),
                            cands[k].id,
                            cands[k].dist,
                        )
                    &&& #[trigger] index::neighbors_answer(
                        search,
                        w1.index,
                        w1.disk.pages,
                        cands,
                        cap,
                        cut,
                    )
                };
            assert(nodes_of(cands) =~= plan.list);
            assert(graph_laws::part_of(cut, plan.list));
        }
    }
}

/// With a search that selects among its candidates, an insertion cuts every
/// list that is over its capacity down to a part of itself.
pub proof fn lemma_answers_cut_down<S: GraphSearch>(
    search: &S,
    w: World,
    vector: &[u32],
    cs: Seq<LevelChoice>,
)
    requires
        selects_candidates(search),
        index::choices_are_answers(search, w, vector, cs),
    ensures
        graph_laws::cuts_down(w, vector@, cs),
{
    if let (w1, Ok(pending)) = model::begun(w, vector@) {
        let id = pending.node_id.0;
        let shared = model::shared_levels(w1.index, pending);
        let (start, hits) = choose|start: NodeId, hits: Seq<LayerHits>|
            {
                &&& hits.len() == cs.len()
                &&& cs.len() <= shared
                &&& shared > 0 ==> index::descended(
                    search,
                    w1.index,
                    w1.disk.pages,
                    vector,
                    w1.index.params.max_level + 1,
                    pending.level + 1,
                    start,
                )
                &&& #[trigger] index::choices_below(
                    search,
                    w1,
                    id,
                    shared,
                    vector,
                    start,
                    cs,
                    hits,
                )
            };
        assert forall|i: nat, j: nat|
            i < cs.len() && j < cs[i as int].neighbors.len() && model::connected(
                w1,
                id,
                shared,
                cs,
                i,
            ).1 is Ok implies #[trigger] graph_laws::cut_down(
            model::connected(w1, id, shared, cs, i).0,
            id,
            (shared - 1 - i) as u8,
            cs[i as int],
            j,
        ) by {
            assert(index::choice_is_answer(search, w1, id, shared, vector, start, cs, hits, i));
            lemma_cut_is_a_part(
                search,
                model::connected(w1, id, shared, cs, i).0,
                id,
                (shared - 1 - i) as u8,
                cs[i as int],
                j,
            );
        }
    }
}

/// With a search that selects among its candidates, an insertion keeps the
/// graph in order where it succeeds, and can be opened again whatever comes
/// of it.
pub proof fn lemma_selection_is_enough<S: GraphSearch>(
    search: &S,
    w: World,
    vector: &[u32],
    cs: Seq<LevelChoice>,
)
    requires
        selects_candidates(search),
        index::choices_are_answers(search, w, vector, cs),
        model::decided(w, vector@, cs),
        crash_laws::usable(w),
    ensures
        crash_laws::safe(w, model::inserted(w, vector@, cs)),
        graph_laws::in_order(index_laws::graph_of(w), w.index.params) ==> (model::inserted(
            w,
            vector@,
            cs,
        ) matches (w1, Ok(_)) ==> graph_laws::in_order(
            index_laws::graph_of(w1),
            w1.index.params,
        )),
{
    lemma_answers_cut_down(search, w, vector, cs);
    crash_laws::lemma_insertion_is_safe(w, vector@, cs);
    if graph_laws::in_order(index_laws::graph_of(w), w.index.params) {
        assert(index_laws::held(w)) by {
            reveal(crash_laws::usable);
        }
        graph_laws::lemma_insertion_keeps_order(w, vector@, cs);
    }
}

/// Candidates that stand in the order `le`.
pub open spec fn ordered(cands: Seq<Cand>, le: spec_fn(Cand, Cand) -> bool) -> bool {
    forall|i: int, j: int|
        0 <= i < j < cands.len() ==> le(#[trigger] cands[i], #[trigger] cands[j])
}

/// What `search` finds on a level stands in the order `le`.
pub open spec fn finds_in_order<S: GraphSearch>(
    search: &S,
    le: spec_fn(Cand, Cand) -> bool,
) -> bool {
    forall|g: PagedGraph, query: &[u32], entry: NodeId, ef: usize, level: u8, hits: LayerHits|
        #[trigger]
        call_ensures(S::search_layer, (search, &g, query, entry, ef, level), hits) ==> ordered(
            hits.spec_list(),
            le,
        )
}

/// Whatever the order is, a search that finds in that order on a level is
/// answered in that order: the hits are the first of what was found, as many
/// as were asked for or all that there are.
pub proof fn lemma_hits_are_ordered<S: GraphSearch>(
    search: &S,
    le: spec_fn(Cand, Cand) -> bool,
    ix: IndexView,
    pages: Seq<Seq<u8>>,
    query: &[u32],
    ep: NodeId,
    width: usize,
    k: usize,
    hits: LayerHits,
)
    requires
        finds_in_order(search, le),
        index::layer_answer(search, ix, pages, query, ep, width, 0, hits),
    ensures
        ({
            let found = hits.spec_list();
            let answer = model::first_hits(found, k);
            &&& ordered(answer, le)
            &&& answer.len() == if found.len() <= k {
                found.len()
            } else {
                k as nat
            }
            &&& forall|i: int, j: int|
                0 <= i < answer.len() <= j < found.len() ==> le(
                    #[trigger] answer[i],
                    #[trigger] found[j],
                )
        }),
{
}

} // verus!

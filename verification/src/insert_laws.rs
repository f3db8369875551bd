//! What an insertion does, in plain terms: which lists change and how, and
//! what the search that it is given is asked.

use vstd::prelude::*;

use crate::check_laws;
use crate::error::HnswError;
use crate::graph::NeighborSelection;
use crate::graph_laws;
use crate::index;
use crate::index::GraphSearch;
use crate::index::LayerHits;
use crate::index_laws;
use crate::layout;
use crate::layout::NodeView;
use crate::meta::MetaParams;
use crate::model;
use crate::model::Cand;
use crate::model::IndexView;
use crate::model::LevelChoice;
use crate::model::World;
use crate::paged::PagedGraph;
use crate::params::NodeId;
use crate::rng;

verus! {

// ---------------------------------------------------------------------
// The lists.
// ---------------------------------------------------------------------

/// A new node belongs at the end of every ascending list: its id is above all
/// others.
proof fn lemma_member_at_the_end(list: Seq<u32>, x: u32)
    requires
        forall|i: int| 0 <= i < list.len() ==> list[i] < x,
    ensures
        index_laws::with_member(list, x) == list.push(x),
    decreases list.len(),
{
    lemma_rank_at_the_end(list, x);
    assert(list.insert(list.len() as int, x) =~= list.push(x));
}

/// The rank of an id above all others is the length of the list.
pub proof fn lemma_rank_at_the_end(list: Seq<u32>, x: u32)
    requires
        forall|i: int| 0 <= i < list.len() ==> list[i] < x,
    ensures
        model::rank(list, x) == list.len(),
    decreases list.len(),
{
    if list.len() > 0 {
        lemma_rank_at_the_end(list.skip(1), x);
    }
}

/// What a list becomes when the node `x` is to join it: with the node at its
/// end if it has room for `cap` ids, else what it is cut down to.
pub open spec fn joined_list(old: Seq<u32>, x: u32, cap: int, cut: Seq<u32>) -> Seq<u32> {
    if old.len() < cap {
        old.push(x)
    } else {
        cut
    }
}

/// The lists on `level` of the first `n` chosen neighbors are joined by the
/// node `x`; every other list is as before.
pub open spec fn level_lists(
    g: Seq<NodeView>,
    h: Seq<NodeView>,
    cap: u16,
    x: u32,
    level: int,
    c: LevelChoice,
    n: nat,
) -> bool {
    &&& h.len() == g.len()
    &&& forall|i: int| 0 <= i < g.len() ==> (#[trigger] h[i]).lists.len() == g[i].lists.len()
    &&& forall|i: int, l: int|
        0 <= i < g.len() && 0 <= l < g[i].lists.len() && (l != level || forall|j: int|
            0 <= j < n ==> c.neighbors[j] != i) ==> #[trigger] h[i].lists[l] == g[i].lists[l]
    &&& forall|j: int|
        0 <= j < n ==> {
            let i = #[trigger] c.neighbors[j] as int;
            h[i].lists[level] == joined_list(g[i].lists[level], x, cap as int, c.shrunk[j])
        }
}

/// Joining a level joins the lists of the chosen neighbors.
pub proof fn lemma_level_lists(
    g: Seq<NodeView>,
    cap: u16,
    x: u32,
    level: u8,
    c: LevelChoice,
    n: nat,
)
    requires
        index_laws::joinable(g, level, c, n),
        n <= c.neighbors.len(),
        forall|i: int, j: int| 0 <= i < j < n ==> c.neighbors[i] != c.neighbors[j],
        forall|i: int, k: int|
            0 <= i < g.len() && level < g[i].lists.len() && 0 <= k
                < g[i].lists[level as int].len() ==> #[trigger] g[i].lists[level as int][k] < x,
    ensures
        level_lists(
            g,
            index_laws::level_joined(g, cap, x, level, c, n),
            cap,
            x,
            level as int,
            c,
            n,
        ),
    decreases n,
{
    if n > 0 {
        let m = (n - 1) as nat;
        let a = index_laws::level_joined(g, cap, x, level, c, m);
        let b = index_laws::level_joined(g, cap, x, level, c, n);
        assert(index_laws::joinable(g, level, c, m));
        lemma_level_lists(g, cap, x, level, c, m);
        let nb = c.neighbors[n - 1] as int;
        assert(forall|j: int| 0 <= j < m ==> c.neighbors[j] != nb);
        assert(nb < g.len() && level < g[nb].lists.len());
        let old = g[nb].lists[level as int];
        assert(a[nb].lists[level as int] == old);
        assert forall|i: int| 0 <= i < old.len() implies old[i] < x by {
            assert(g[nb].lists[level as int][i] < x);
        }
        lemma_member_at_the_end(old, x);
        assert(a[nb].lists.len() == g[nb].lists.len());
        assert(b == a.update(nb, b[nb]));
        assert(b[nb].lists == a[nb].lists.update(
            level as int,
            joined_list(old, x, cap as int, c.shrunk[n - 1]),
        ));
        assert forall|i: int, l: int|
            0 <= i < g.len() && 0 <= l < g[i].lists.len() && (l != level || forall|j: int|
                0 <= j < n ==> c.neighbors[j] != i) implies #[trigger] b[i].lists[l]
            == g[i].lists[l] by {
            if i == nb {
                assert(c.neighbors[n - 1] == i);
            }
            assert(a[i].lists[l] == g[i].lists[l]);
        }
        assert forall|j: int| 0 <= j < n implies {
            let i = #[trigger] c.neighbors[j] as int;
            b[i].lists[level as int] == joined_list(
                g[i].lists[level as int],
                x,
                cap as int,
                c.shrunk[j],
            )
        } by {
            if j < m {
                assert(c.neighbors[j] != c.neighbors[n - 1]);
            }
        }
    }
}

/// How many ids a list on a level has room for.
pub open spec fn room(q: MetaParams, level: int) -> int {
    if level == 0 {
        q.m_max0 as int
    } else {
        q.m as int
    }
}

/// The list on a level of an old node after an insertion with these choices:
/// joined by the new node `x` if the node was chosen as a neighbor there, else
/// as before.
pub open spec fn list_after(
    g: Seq<NodeView>,
    h: Seq<NodeView>,
    q: MetaParams,
    x: u32,
    cs: Seq<LevelChoice>,
    i: int,
    l: int,
) -> bool {
    let c = cs[cs.len() - 1 - l];
    if l < cs.len() && c.neighbors.contains(i as u32) {
        exists|j: int|
            0 <= j < c.neighbors.len() && #[trigger] c.neighbors[j] == i && h[i].lists[l]
                == joined_list(g[i].lists[l], x, room(q, l), c.shrunk[j])
    } else {
        h[i].lists[l] == g[i].lists[l]
    }
}

/// Joining the first `k` of the shared levels changes the lists on those
/// levels alone.
pub proof fn lemma_joined_lists(
    g: Seq<NodeView>,
    q: MetaParams,
    x: u32,
    cs: Seq<LevelChoice>,
    k: nat,
)
    requires
        k <= cs.len() <= 256,
        index_laws::all_joinable(g, cs.len(), cs, k),
        g.len() <= u32::MAX,
        forall|a: int, i: int, j: int|
            0 <= a < k && 0 <= i < j < cs[a].neighbors.len() ==> #[trigger] cs[a].neighbors[i]
                != #[trigger] cs[a].neighbors[j],
        forall|i: int, l: int, p: int|
            0 <= i < g.len() && 0 <= l < g[i].lists.len() && 0 <= p < g[i].lists[l].len()
                ==> #[trigger] g[i].lists[l][p] < x,
    ensures
        ({
            let h = index_laws::joined(g, q, x, cs.len(), cs, k);
            &&& h.len() == g.len()
            &&& forall|i: int, l: int|
                0 <= i < g.len() && 0 <= l < g[i].lists.len() && l < cs.len() - k
                    ==> #[trigger] h[i].lists[l] == g[i].lists[l]
            &&& forall|i: int, l: int|
                0 <= i < g.len() && 0 <= l < g[i].lists.len() && l >= cs.len() - k
                    ==> #[trigger] list_after(g, h, q, x, cs, i, l)
        }),
    decreases k,
{
    let h = index_laws::joined(g, q, x, cs.len(), cs, k);
    if k == 0 {
        assert forall|i: int, l: int|
            0 <= i < g.len() && 0 <= l < g[i].lists.len() && l >= cs.len() implies #[trigger]
            list_after(g, h, q, x, cs, i, l) by {}
    } else {
        let m = (k - 1) as nat;
        let level = (cs.len() - k) as u8;
        let c = cs[k - 1];
        let cap = model::level_cap(q, level);
        let a = index_laws::joined(g, q, x, cs.len(), cs, m);
        assert(index_laws::all_joinable(g, cs.len(), cs, m));
        lemma_joined_lists(g, q, x, cs, m);
        index_laws::lemma_joined_keeps(g, q, x, cs.len(), cs, m);
        assert(index_laws::joinable(g, (cs.len() - 1 - (k - 1)) as u8, c, c.neighbors.len()));
        index_laws::lemma_joinable_kept(g, a, level, c, c.neighbors.len());
        assert forall|i: int, p: int|
            0 <= i < a.len() && level < a[i].lists.len() && 0 <= p
                < a[i].lists[level as int].len() implies #[trigger] a[i].lists[level as int][p]
            < x by {
            assert(a[i].lists.len() == g[i].lists.len());
            assert(a[i].lists[level as int] == g[i].lists[level as int]);
            assert(g[i].lists[level as int][p] < x);
        }
        assert forall|i: int, j: int| 0 <= i < j < c.neighbors.len() implies c.neighbors[i]
            != c.neighbors[j] by {
            assert(cs[k - 1].neighbors[i] != cs[k - 1].neighbors[j]);
        }
        lemma_level_lists(a, cap, x, level, c, c.neighbors.len());
        assert forall|i: int, l: int|
            0 <= i < g.len() && 0 <= l < g[i].lists.len() && l < cs.len() - k implies
            #[trigger] h[i].lists[l] == g[i].lists[l] by {
            assert(a[i].lists.len() == g[i].lists.len());
            assert(a[i].lists[l] == g[i].lists[l]);
        }
        assert forall|i: int, l: int|
            0 <= i < g.len() && 0 <= l < g[i].lists.len() && l >= cs.len() - k implies #[trigger]
            list_after(g, h, q, x, cs, i, l) by {
            assert(a[i].lists.len() == g[i].lists.len());
            if l > level {
                assert(h[i].lists[l] == a[i].lists[l]);
                assert(list_after(g, a, q, x, cs, i, l));
            } else {
                assert(cs[cs.len() - 1 - l] == c);
                assert(a[i].lists[l] == g[i].lists[l]);
                if c.neighbors.contains(i as u32) {
                    let j = choose|j: int| 0 <= j < c.neighbors.len() && c.neighbors[j] == i as u32;
                    assert(c.neighbors[j] == i);
                    assert(h[i].lists[l] == joined_list(
                        g[i].lists[l],
                        x,
                        room(q, l),
                        c.shrunk[j],
                    ));
                } else {
                    assert forall|j: int| 0 <= j < c.neighbors.len() implies c.neighbors[j]
                        != i by {
                        if c.neighbors[j] == i {
                            assert(c.neighbors.contains(i as u32));
                        }
                    }
                    assert(h[i].lists[l] == a[i].lists[l]);
                }
            }
        }
    }
}

/// `h` is the graph `g` with one more node, `g.len()`: live, with the vector
/// and the level, on each level that it shares with the graph with the
/// neighbors that were chosen there, and with none above. Of the old nodes,
/// only the lists of chosen neighbors change, on the levels where they were
/// chosen: the new node joins them.
pub open spec fn grown_by(
    g: Seq<NodeView>,
    h: Seq<NodeView>,
    q: MetaParams,
    level: int,
    vector: Seq<u32>,
    cs: Seq<LevelChoice>,
) -> bool {
    let x = g.len() as int;
    &&& h.len() == x + 1
    &&& h[x].vector == vector
    &&& h[x].top == level
    &&& h[x].live
    &&& !h[x].tombstoned
    &&& h[x].lists.len() == level + 1
    &&& forall|l: int|
        0 <= l <= level ==> #[trigger] h[x].lists[l] == if l < cs.len() {
            cs[cs.len() - 1 - l].neighbors
        } else {
            Seq::empty()
        }
    &&& forall|i: int|
        0 <= i < x ==> {
            &&& (#[trigger] h[i]).vector == g[i].vector
            &&& h[i].top == g[i].top
            &&& h[i].live == g[i].live
            &&& h[i].tombstoned == g[i].tombstoned
            &&& h[i].lists.len() == g[i].lists.len()
        }
    &&& forall|i: int, l: int|
        0 <= i < x && 0 <= l < g[i].lists.len() ==> #[trigger] list_after(
            g,
            h,
            q,
            x as u32,
            cs,
            i,
            l,
        )
}

/// How many levels a new node on `level` shares with a graph: all up to the
/// lower of its level and the graph's, and none with a graph without nodes.
pub open spec fn levels_shared(g: Seq<NodeView>, q: MetaParams, level: int) -> int {
    if g.len() == 0 {
        0
    } else if level < q.max_level {
        level + 1
    } else {
        q.max_level + 1
    }
}

/// A successful insertion into a graph in order adds one node on the level
/// that is drawn, with a choice of neighbors for each level that it shares
/// with the graph, and joins their lists; nothing else changes. The node
/// becomes the entry point exactly if it is the first or stands above the
/// rest.
pub proof fn lemma_insertion_grows_the_graph(w: World, vector: Seq<u32>, cs: Seq<LevelChoice>)
    requires
        index_laws::held(w),
        model::decided(w, vector, cs),
        graph_laws::in_order(index_laws::graph_of(w), w.index.params),
    ensures
        model::inserted(w, vector, cs) matches (w1, Ok(id)) ==> {
            let g = index_laws::graph_of(w);
            let h = index_laws::graph_of(w1);
            let q = w.index.params;
            let level = rng::level_draw(w.index.rng, q.m).0 as int;
            &&& id.0 == g.len()
            &&& cs.len() == levels_shared(g, q, level)
            &&& grown_by(g, h, q, level, vector, cs)
            &&& w1.index.hwm == g.len() + 1
            &&& if g.len() == 0 || level > q.max_level {
                &&& w1.index.params.entry_point == id.0
                &&& w1.index.params.max_level == level
            } else {
                &&& w1.index.params.entry_point == q.entry_point
                &&& w1.index.params.max_level == q.max_level
            }
        },
{
    if let (w1, Ok(id)) = model::inserted(w, vector, cs) {
        let g = index_laws::graph_of(w);
        let h = index_laws::graph_of(w1);
        let q = w.index.params;
        let level = rng::level_draw(w.index.rng, q.m).0;
        let x = g.len() as u32;
        index_laws::lemma_held(w);
        index_laws::lemma_insertion_adds_the_node(w, vector, cs);
        index_laws::lemma_held(w1);
        index_laws::lemma_begun_adds_a_fresh_node(w, vector);
        assert(cs.len() == levels_shared(g, q, level as int));
        let a = index_laws::joined(g, q, x, cs.len(), cs, cs.len());
        assert(h == a.push(index_laws::new_node(level as u8, vector, cs)));
        index_laws::lemma_joined_keeps(g, q, x, cs.len(), cs, cs.len());
        assert(h.last() == index_laws::new_node(level as u8, vector, cs));
        assert forall|k: int, i: int, j: int|
            0 <= k < cs.len() && 0 <= i < j < cs[k].neighbors.len() implies
            #[trigger] cs[k].neighbors[i] != #[trigger] cs[k].neighbors[j] by {
            let l = cs.len() - 1 - k;
            assert(h[x as int].lists[l] == cs[k].neighbors);
            assert(index_laws::list_ok(q, x as int, l, h[x as int].lists[l]));
        }
        assert forall|i: int, l: int, p: int|
            0 <= i < g.len() && 0 <= l < g[i].lists.len() && 0 <= p
                < g[i].lists[l].len() implies #[trigger] g[i].lists[l][p] < x by {
            assert(g[i].lists[l].contains(g[i].lists[l][p]));
            assert(graph_laws::targets_ok(g[i].lists[l], l, graph_laws::tops(g)));
        }
        lemma_joined_lists(g, q, x, cs, cs.len());
        assert forall|i: int| 0 <= i < g.len() implies {
            &&& (#[trigger] h[i]).vector == g[i].vector
            &&& h[i].top == g[i].top
            &&& h[i].live == g[i].live
            &&& h[i].tombstoned == g[i].tombstoned
            &&& h[i].lists.len() == g[i].lists.len()
        } by {
            assert(h[i] == a[i]);
            assert(a[i] == NodeView { lists: a[i].lists, ..g[i] });
        }
        assert forall|i: int, l: int| 0 <= i < g.len() && 0 <= l < g[i].lists.len() implies
            #[trigger] list_after(g, h, q, x, cs, i, l) by {
            assert(list_after(g, a, q, x, cs, i, l));
            assert(h[i] == a[i]);
        }
    }
}

// ---------------------------------------------------------------------
// What the search is asked.
// ---------------------------------------------------------------------

/// `g` is a view of an index with these parameters and `count` nodes.
pub open spec fn view_of(g: PagedGraph, q: MetaParams, count: int) -> bool {
    &&& g.count() == count
    &&& g.spec_metric() == q.metric
    &&& g.spec_geometry().dim == q.dim
    &&& g.spec_geometry().m == q.m
    &&& g.spec_geometry().m_max0 == q.m_max0
}

/// `search` was asked for the `ef` nodes nearest to `query` on a level, from
/// `entry` on, and answered `hits`.
pub open spec fn asked_for_hits<S: GraphSearch>(
    search: &S,
    q: MetaParams,
    count: int,
    query: &[u32],
    entry: NodeId,
    ef: usize,
    level: u8,
    hits: LayerHits,
) -> bool {
    exists|g: PagedGraph|
        view_of(g, q, count) && #[trigger] call_ensures(
            S::search_layer,
            (search, &g, query, entry, ef, level),
            hits,
        )
}

/// `search` was asked to select at most `bound` of the candidates, the way
/// that the index selects, and answered `chosen`.
pub open spec fn asked_to_select<S: GraphSearch>(
    search: &S,
    q: MetaParams,
    count: int,
    cands: Seq<Cand>,
    bound: usize,
    chosen: Seq<u32>,
) -> bool {
    exists|g: PagedGraph, from: Vec<Cand>, to: Vec<u32>|
        {
            &&& view_of(g, q, count)
            &&& from@ == cands
            &&& to@ == chosen
            &&& #[trigger] call_ensures(
                S::select_neighbors,
                (search, &g, q.selection, &from, bound),
                to,
            )
        }
}

/// All that `hits` found: the nearest, and the others.
pub open spec fn found(hits: LayerHits) -> Seq<Cand> {
    seq![hits.nearest] + hits.others@
}

/// The step `i` of a path leads from a node on the level `i` below the highest
/// to the nearest that is found there with a beam of 1.
pub open spec fn step_down<S: GraphSearch>(
    search: &S,
    q: MetaParams,
    count: int,
    query: &[u32],
    path: Seq<NodeId>,
    i: int,
) -> bool {
    exists|hits: LayerHits| #[trigger]
        asked_for_hits(search, q, count, query, path[i], 1, (q.max_level - i) as u8, hits)
            && path[i + 1] == hits.nearest.id
}

/// `path` leads from the entry point down through the levels above `bottom`:
/// on each level, with a beam of 1, to the nearest node.
pub open spec fn leads_down<S: GraphSearch>(
    search: &S,
    q: MetaParams,
    count: int,
    query: &[u32],
    bottom: int,
    path: Seq<NodeId>,
) -> bool {
    &&& path.len() == if bottom < q.max_level {
        q.max_level - bottom + 1
    } else {
        1int
    }
    &&& path[0].0 == q.entry_point
    &&& forall|i: int|
        0 <= i < path.len() - 1 ==> #[trigger] step_down(search, q, count, query, path, i)
}

/// A descent is a path through the levels that it passes.
proof fn lemma_descended<S: GraphSearch>(
    search: &S,
    ix: IndexView,
    pages: Seq<Seq<u8>>,
    query: &[u32],
    to: int,
    ep: NodeId,
) -> (path: Seq<NodeId>)
    requires
        index::descended(search, ix, pages, query, ix.params.max_level + 1, to, ep),
        to >= 1,
    ensures
        leads_down(search, ix.params, ix.hwm as int, query, to - 1, path),
        path.last() == ep,
    decreases ix.params.max_level + 1 - to,
{
    let q = ix.params;
    if to >= q.max_level + 1 {
        seq![ep]
    } else {
        let (before, hits) = choose|before: NodeId, hits: LayerHits|
            {
                &&& #[trigger] index::layer_answer(
                    search,
                    ix,
                    pages,
                    query,
                    before,
                    1,
                    to as u8,
                    hits,
                )
                &&& index::descended(search, ix, pages, query, q.max_level + 1, to + 1, before)
                &&& ep == hits.nearest.id
            };
        let front = lemma_descended(search, ix, pages, query, to + 1, before);
        let path = front.push(ep);
        lemma_layer_asked(search, ix, pages, query, before, 1, to as u8, hits);
        let count = ix.hwm as int;
        assert forall|i: int| 0 <= i < path.len() - 1 implies #[trigger] step_down(
            search,
            q,
            count,
            query,
            path,
            i,
        ) by {
            let level = (q.max_level - i) as u8;
            if i < front.len() - 1 {
                assert(step_down(search, q, count, query, front, i));
                let hits = choose|hits: LayerHits| #[trigger]
                    asked_for_hits(search, q, count, query, front[i], 1, level, hits) && front[i
                        + 1] == hits.nearest.id;
                assert(asked_for_hits(search, q, count, query, path[i], 1, level, hits));
            } else {
                assert(path[i] == before);
                assert(asked_for_hits(search, q, count, query, path[i], 1, level, hits));
            }
        }
        path
    }
}

/// An answer on a level was asked for on that level.
proof fn lemma_layer_asked<S: GraphSearch>(
    search: &S,
    ix: IndexView,
    pages: Seq<Seq<u8>>,
    query: &[u32],
    entry: NodeId,
    ef: usize,
    level: u8,
    hits: LayerHits,
)
    requires
        index::layer_answer(search, ix, pages, query, entry, ef, level, hits),
    ensures
        asked_for_hits(search, ix.params, ix.hwm as int, query, entry, ef, level, hits),
{
    let g = choose|g: PagedGraph|
        index::shows_graph(g, ix, pages) && #[trigger] call_ensures(
            S::search_layer,
            (search, &g, query, entry, ef, level),
            hits,
        );
    assert(view_of(g, ix.params, ix.hwm as int));
}

/// A selection was asked for with its bound.
proof fn lemma_selection_asked<S: GraphSearch>(
    search: &S,
    ix: IndexView,
    pages: Seq<Seq<u8>>,
    cands: Seq<Cand>,
    bound: usize,
    chosen: Seq<u32>,
)
    requires
        index::neighbors_answer(search, ix, pages, cands, bound, chosen),
    ensures
        asked_to_select(search, ix.params, ix.hwm as int, cands, bound, chosen),
{
    let (g, from, to) = choose|g: PagedGraph, from: Vec<Cand>, to: Vec<u32>|
        {
            &&& index::shows_graph(g, ix, pages)
            &&& from@ == cands
            &&& to@ == chosen
            &&& #[trigger] call_ensures(
                S::select_neighbors,
                (search, &g, ix.params.selection, &from, bound),
                to,
            )
        };
    assert(view_of(g, ix.params, ix.hwm as int));
}

/// What an insertion of a node on `level` asks its search for the choices
/// `cs`: from the end of `path`, which leads down to the node's level, it goes
/// through the shared levels from the highest down. On each it asks for the
/// nodes nearest to the vector, with the beam of construction, from the
/// nearest node of the level above; and then to select at most `M` of all that
/// were found.
pub open spec fn asked<S: GraphSearch>(
    search: &S,
    q: MetaParams,
    count: int,
    vector: &[u32],
    level: int,
    shared: int,
    cs: Seq<LevelChoice>,
    path: Seq<NodeId>,
    hits: Seq<LayerHits>,
) -> bool {
    &&& shared > 0 ==> leads_down(search, q, count, vector, level, path)
    &&& hits.len() == cs.len()
    &&& forall|k: int|
        0 <= k < cs.len() ==> {
            &&& asked_for_hits(
                search,
                q,
                count,
                vector,
                if k == 0 {
                    path.last()
                } else {
                    hits[k - 1].nearest.id
                },
                q.ef_construction as usize,
                (shared - 1 - k) as u8,
                #[trigger] hits[k],
            )
            &&& asked_to_select(
                search,
                q,
                count,
                found(hits[k]),
                q.m as usize,
                cs[k].neighbors,
            )
        }
}

/// An insertion asks its search level by level, always with the index's own
/// parameters: beams of 1 on the way down, then beams of `ef_construction`,
/// and a selection of at most `M` neighbors on each level. What it answers is
/// what the node is connected to.
pub proof fn lemma_insertion_asks<S: GraphSearch>(
    search: &S,
    w: World,
    vector: &[u32],
    cs: Seq<LevelChoice>,
) -> (r: (Seq<NodeId>, Seq<LayerHits>))
    requires
        index_laws::held(w),
        graph_laws::in_order(index_laws::graph_of(w), w.index.params),
        index::choices_are_answers(search, w, vector, cs),
        model::decided(w, vector@, cs),
        model::inserted(w, vector@, cs).1 is Ok,
    ensures
        ({
            let g = index_laws::graph_of(w);
            let q = w.index.params;
            let level = rng::level_draw(w.index.rng, q.m).0 as int;
            asked(
                search,
                q,
                g.len() as int + 1,
                vector,
                level,
                levels_shared(g, q, level),
                cs,
                r.0,
                r.1,
            )
        }),
{
    index_laws::lemma_held(w);
    index_laws::lemma_begun_adds_a_fresh_node(w, vector@);
    let (w1, b) = model::begun(w, vector@);
    let pending = b->Ok_0;
    let q = w.index.params;
    let id = pending.node_id.0;
    let count = w.index.hwm + 1;
    let shared = model::shared_levels(w1.index, pending);
    let (start, hits) = choose|start: NodeId, hits: Seq<LayerHits>|
        {
            &&& hits.len() == cs.len()
            &&& cs.len() <= shared
            &&& shared > 0 ==> index::descended(
                search,
                w1.index,
                w1.disk.pages,
                vector,
                w1.index.params.max_level + 1,
                pending.level + 1,
                start,
            )
            &&& #[trigger] index::choices_below(
                search,
                w1,
                id,
                shared,
                vector,
                start,
                cs,
                hits,
            )
        };
    let path = if shared > 0 {
        lemma_descended(
            search,
            w1.index,
            w1.disk.pages,
            vector,
            pending.level + 1,
            start,
        )
    } else {
        seq![start]
    };
    assert forall|k: int| 0 <= k < cs.len() implies {
        &&& asked_for_hits(
            search,
            q,
            count,
            vector,
            if k == 0 {
                path.last()
            } else {
                hits[k - 1].nearest.id
            },
            q.ef_construction as usize,
            (shared - 1 - k) as u8,
            #[trigger] hits[k],
        )
        &&& asked_to_select(search, q, count, found(hits[k]), q.m as usize, cs[k].neighbors)
    } by {
        assert(index::choice_is_answer(
            search,
            w1,
            id,
            shared,
            vector,
            start,
            cs,
            hits,
            k as nat,
        ));
        model::lemma_connected_keeps(w1, id, shared, cs, k as nat);
        let w2 = model::connected(w1, id, shared, cs, k as nat).0;
        let entry = if k == 0 {
            start
        } else {
            hits[k - 1].nearest.id
        };
        lemma_layer_asked(
            search,
            w2.index,
            w2.disk.pages,
            vector,
            entry,
            q.ef_construction as usize,
            (shared - 1 - k) as u8,
            hits[k],
        );
        lemma_selection_asked(
            search,
            w2.index,
            w2.disk.pages,
            found(hits[k]),
            q.m as usize,
            cs[k].neighbors,
        );
    }
    (path, hits)
}

/// Of candidates, `search` selects as many as the bound allows.
pub open spec fn selects_all_it_may<S: GraphSearch>(search: &S) -> bool {
    forall|
        g: PagedGraph,
        selection: NeighborSelection,
        from: Vec<Cand>,
        bound: usize,
        to: Vec<u32>,
    | #[trigger]
        call_ensures(S::select_neighbors, (search, &g, selection, &from, bound), to)
            ==> to@.len() == if from@.len() < bound {
            from@.len()
        } else {
            bound as nat
        }
}

/// With a search that selects as many as it may, the new node has on each
/// shared level as many neighbors as were found there, but no more than `M`.
pub proof fn lemma_new_node_has_its_neighbors<S: GraphSearch>(
    search: &S,
    w: World,
    vector: &[u32],
    cs: Seq<LevelChoice>,
) -> (hits: Seq<LayerHits>)
    requires
        selects_all_it_may(search),
        index_laws::held(w),
        graph_laws::in_order(index_laws::graph_of(w), w.index.params),
        index::choices_are_answers(search, w, vector, cs),
        model::decided(w, vector@, cs),
        model::inserted(w, vector@, cs).1 is Ok,
    ensures
        ({
            let g = index_laws::graph_of(w);
            let h = index_laws::graph_of(model::inserted(w, vector@, cs).0);
            let q = w.index.params;
            let level = rng::level_draw(w.index.rng, q.m).0 as int;
            let shared = levels_shared(g, q, level);
            &&& hits.len() == shared
            &&& forall|l: int|
                0 <= l < shared ==> {
                    let n = 1 + hits[shared - 1 - l].others@.len();
                    #[trigger] h[g.len() as int].lists[l].len() == if n < q.m {
                        n
                    } else {
                        q.m as nat
                    }
                }
        }),
{
    let (path, hits) = lemma_insertion_asks(search, w, vector, cs);
    lemma_insertion_grows_the_graph(w, vector@, cs);
    let g = index_laws::graph_of(w);
    let h = index_laws::graph_of(model::inserted(w, vector@, cs).0);
    let q = w.index.params;
    let level = rng::level_draw(w.index.rng, q.m).0 as int;
    let shared = levels_shared(g, q, level);
    assert forall|l: int| 0 <= l < shared implies {
        let n = 1 + hits[shared - 1 - l].others@.len();
        #[trigger] h[g.len() as int].lists[l].len() == if n < q.m {
            n
        } else {
            q.m as nat
        }
    } by {
        let k = shared - 1 - l;
        assert(asked_for_hits(
            search,
            q,
            g.len() as int + 1,
            vector,
            if k == 0 {
                path.last()
            } else {
                hits[k - 1].nearest.id
            },
            q.ef_construction as usize,
            (shared - 1 - k) as u8,
            hits[k],
        ));
        assert(asked_to_select(
            search,
            q,
            g.len() as int + 1,
            found(hits[k]),
            q.m as usize,
            cs[k].neighbors,
        ));
        assert(h[g.len() as int].lists[l] == cs[k].neighbors);
    }
    hits
}

/// `search` was asked to cut down the list `list` of the node `owner` to at
/// most `bound` ids, and answered `cut`: the candidates are the ids of the
/// list with the distances to `owner` that it gave for them.
pub open spec fn asked_to_cut<S: GraphSearch>(
    search: &S,
    q: MetaParams,
    count: int,
    owner: NodeId,
    list: Seq<u32>,
    bound: usize,
    cut: Seq<u32>,
) -> bool {
    exists|cands: Seq<Cand>|
        {
            &&& cands.len() == list.len()
            &&& forall|i: int|
                0 <= i < list.len() ==> (#[trigger] cands[i]).id.0 == list[i] && exists|
                    g: PagedGraph,
                |
                    view_of(g, q, count) && #[trigger] call_ensures(
                        S::dist_between,
                        (search, &g, owner, cands[i].id),
                        cands[i].dist,
                    )
            &&& #[trigger] asked_to_select(search, q, count, cands, bound, cut)
        }
}

/// A list was cut down by what the search answered for its nodes.
proof fn lemma_cut_asked<S: GraphSearch>(
    search: &S,
    ix: IndexView,
    pages: Seq<Seq<u8>>,
    nb: NodeId,
    level: u8,
    list: Seq<u32>,
    cut: Seq<u32>,
)
    requires
        index::cut_answer(search, ix, pages, nb, level, list, cut),
    ensures
        asked_to_cut(
            search,
            ix.params,
            ix.hwm as int,
            nb,
            list,
            room(ix.params, level as int) as usize,
            cut,
        ),
{
    let q = ix.params;
    let count = ix.hwm as int;
    let bound = model::level_cap(q, level) as usize;
    let cands = choose|cands: Seq<Cand>|
        {
            &&& cands.len() == list.len()
            &&& forall|j: int|
                0 <= j < list.len() ==> (#[trigger] cands[j]).id.0 == list[j]
                    && index::distance_answer(search, ix, pages, nb, cands[j].id, cands[j].dist)
            &&& #[trigger] index::neighbors_answer(search, ix, pages, cands, bound, cut)
        };
    lemma_selection_asked(search, ix, pages, cands, bound, cut);
    assert forall|i: int| 0 <= i < list.len() implies (#[trigger] cands[i]).id.0 == list[i]
        && exists|g: PagedGraph|
        view_of(g, q, count) && #[trigger] call_ensures(
            S::dist_between,
            (search, &g, nb, cands[i].id),
            cands[i].dist,
        ) by {
        assert(index::distance_answer(search, ix, pages, nb, cands[i].id, cands[i].dist));
        let g = choose|g: PagedGraph|
            index::shows_graph(g, ix, pages) && #[trigger] call_ensures(
                S::dist_between,
                (search, &g, nb, cands[i].id),
                cands[i].dist,
            );
        assert(view_of(g, q, count));
    }
}

/// A list that has no room for the new node is cut down by the search: of its
/// ids and the new node's, with their distances to the list's owner, it is
/// asked to select as many as the level has room for, `M_max0` on level 0 and
/// `M` above.
pub proof fn lemma_full_lists_are_cut<S: GraphSearch>(
    search: &S,
    w: World,
    vector: &[u32],
    cs: Seq<LevelChoice>,
    k: int,
    j: int,
)
    requires
        index_laws::held(w),
        graph_laws::in_order(index_laws::graph_of(w), w.index.params),
        index::choices_are_answers(search, w, vector, cs),
        model::decided(w, vector@, cs),
        model::inserted(w, vector@, cs).1 is Ok,
        0 <= k < cs.len(),
        0 <= j < cs[k].neighbors.len(),
    ensures
        ({
            let g = index_laws::graph_of(w);
            let q = w.index.params;
            let l = cs.len() - 1 - k;
            let i = cs[k].neighbors[j];
            let old = g[i as int].lists[l];
            &&& i < g.len()
            &&& l < g[i as int].lists.len()
            &&& old.len() >= room(q, l) ==> asked_to_cut(
                search,
                q,
                g.len() as int + 1,
                NodeId(i),
                old.push(g.len() as u32),
                room(q, l) as usize,
                cs[k].shrunk[j],
            )
        }),
{
    index_laws::lemma_held(w);
    index_laws::lemma_begun_adds_a_fresh_node(w, vector@);
    index_laws::lemma_insertion_adds_the_node(w, vector@, cs);
    lemma_insertion_grows_the_graph(w, vector@, cs);
    let (w1, b) = model::begun(w, vector@);
    let pending = b->Ok_0;
    let q = w.index.params;
    let g = index_laws::graph_of(w);
    let h = index_laws::graph_of(model::inserted(w, vector@, cs).0);
    let x = pending.node_id.0;
    let n = cs.len();
    let l = n - 1 - k;
    let level = l as u8;
    let c = cs[k];
    let nb = c.neighbors[j];
    let fresh = layout::fresh_node(pending.level, vector@);
    assert(index_laws::graph_of(w1) == g.push(fresh));
    assert(g.push(fresh).drop_last() =~= g);
    lemma_connected_so_far(w1, x, n, cs, (k + 1) as nat, n);
    lemma_connected_so_far(w1, x, n, cs, k as nat, (k + 1) as nat);
    index_laws::lemma_held(w1);
    index_laws::lemma_connected(w1, x, n, cs, k as nat);
    let w2 = model::connected(w1, x, n, cs, k as nat).0;
    let a = index_laws::joined(g, q, x, n, cs, k as nat);
    assert(index_laws::graph_of(w2) == a.push(fresh));
    assert(a.push(fresh).drop_last() =~= a);
    assert(model::level_connected(w2, x, level, c, c.neighbors.len()).1 is Ok);
    lemma_level_so_far(w2, x, level, c, j as nat, c.neighbors.len());
    lemma_level_so_far(w2, x, level, c, (j + 1) as nat, c.neighbors.len());
    index_laws::lemma_level_connected(w2, x, level, c, j as nat);
    let w3 = model::level_connected(w2, x, level, c, j as nat).0;
    let cap = model::level_cap(q, level);
    let d = index_laws::level_joined(a, cap, x, level, c, j as nat);
    assert(index_laws::graph_of(w3) == d.push(fresh));
    reveal(model::level_connected);
    let plan = model::edge_planned(w3, x, nb, level)->Ok_0;
    assert(model::edge_planned(w3, x, nb, level) is Ok);
    index_laws::lemma_edge_planned(w3, x, nb, level);
    assert(index_laws::all_joinable(g, n, cs, n));
    assert(index_laws::joinable(g, (n - 1 - k) as u8, cs[k], cs[k].neighbors.len()));
    lemma_untouched_list(w, vector@, cs, k, j);
    assert(d[nb as int].lists[l] == g[nb as int].lists[l]);
    let old = g[nb as int].lists[l];
    assert forall|p: int| 0 <= p < old.len() implies old[p] < x by {
        assert(old.contains(old[p]));
        assert(graph_laws::targets_ok(g[nb as int].lists[l], l, graph_laws::tops(g)));
    }
    lemma_member_at_the_end(old, x);
    assert(plan.list == old.push(x));
    if old.len() >= room(q, l) {
        let (start, hits) = choose|start: NodeId, hits: Seq<LayerHits>|
            {
                &&& hits.len() == cs.len()
                &&& cs.len() <= model::shared_levels(w1.index, pending)
                &&& model::shared_levels(w1.index, pending) > 0 ==> index::descended(
                    search,
                    w1.index,
                    w1.disk.pages,
                    vector,
                    w1.index.params.max_level + 1,
                    pending.level + 1,
                    start,
                )
                &&& #[trigger] index::choices_below(
                    search,
                    w1,
                    x,
                    model::shared_levels(w1.index, pending),
                    vector,
                    start,
                    cs,
                    hits,
                )
            };
        assert(index::choice_is_answer(search, w1, x, n, vector, start, cs, hits, k as nat));
        assert(index::cut_is_answer(search, w2, x, level, c, j as nat));
        reveal(index::cut_is_answer);
        lemma_cut_asked(
            search,
            w3.index,
            w3.disk.pages,
            NodeId(nb),
            level,
            plan.list,
            c.shrunk[j],
        );
    }
}

/// Where connecting succeeds, it has succeeded so far.
proof fn lemma_connected_so_far(
    w: World,
    node_id: u32,
    shared: nat,
    cs: Seq<LevelChoice>,
    k: nat,
    n: nat,
)
    requires
        k <= n,
        model::connected(w, node_id, shared, cs, n).1 is Ok,
    ensures
        model::connected(w, node_id, shared, cs, k).1 is Ok,
    decreases n,
{
    if k < n {
        lemma_connected_so_far(w, node_id, shared, cs, k, (n - 1) as nat);
    }
}

/// Where connecting a level succeeds, it has succeeded so far.
proof fn lemma_level_so_far(
    w: World,
    node_id: u32,
    level: u8,
    c: LevelChoice,
    k: nat,
    n: nat,
)
    requires
        k <= n,
        model::level_connected(w, node_id, level, c, n).1 is Ok,
    ensures
        model::level_connected(w, node_id, level, c, k).1 is Ok,
    decreases n,
{
    reveal_with_fuel(model::level_connected, 2);
    if k < n {
        lemma_level_so_far(w, node_id, level, c, k, (n - 1) as nat);
    }
}

/// The list of a chosen neighbor is as it was before the insertion until its
/// turn comes.
proof fn lemma_untouched_list(
    w: World,
    vector: Seq<u32>,
    cs: Seq<LevelChoice>,
    k: int,
    j: int,
)
    requires
        index_laws::held(w),
        graph_laws::in_order(index_laws::graph_of(w), w.index.params),
        model::decided(w, vector, cs),
        model::inserted(w, vector, cs).1 is Ok,
        0 <= k < cs.len(),
        0 <= j < cs[k].neighbors.len(),
    ensures
        ({
            let g = index_laws::graph_of(w);
            let q = w.index.params;
            let x = g.len() as u32;
            let l = cs.len() - 1 - k;
            let a = index_laws::joined(g, q, x, cs.len(), cs, k as nat);
            let cap = model::level_cap(q, l as u8);
            let d = index_laws::level_joined(a, cap, x, l as u8, cs[k], j as nat);
            let nb = cs[k].neighbors[j] as int;
            &&& nb < g.len()
            &&& l < g[nb].lists.len()
            &&& d.len() == g.len()
            &&& d[nb].lists[l] == g[nb].lists[l]
        }),
{
    index_laws::lemma_held(w);
    index_laws::lemma_insertion_adds_the_node(w, vector, cs);
    lemma_insertion_grows_the_graph(w, vector, cs);
    let g = index_laws::graph_of(w);
    let h = index_laws::graph_of(model::inserted(w, vector, cs).0);
    let q = w.index.params;
    let x = g.len() as u32;
    let n = cs.len();
    let l = n - 1 - k;
    let level = l as u8;
    let c = cs[k];
    let nb = c.neighbors[j] as int;
    index_laws::lemma_held(model::inserted(w, vector, cs).0);
    assert forall|p: int, i: int, t: int|
        0 <= p < cs.len() && 0 <= i < t < cs[p].neighbors.len() implies
        #[trigger] cs[p].neighbors[i] != #[trigger] cs[p].neighbors[t] by {
        let m = cs.len() - 1 - p;
        assert(h[x as int].lists[m] == cs[p].neighbors);
        assert(index_laws::list_ok(q, x as int, m, h[x as int].lists[m]));
    }
    assert forall|i: int, m: int, p: int|
        0 <= i < g.len() && 0 <= m < g[i].lists.len() && 0 <= p < g[i].lists[m].len() implies
        #[trigger] g[i].lists[m][p] < x by {
        assert(g[i].lists[m].contains(g[i].lists[m][p]));
        assert(graph_laws::targets_ok(g[i].lists[m], m, graph_laws::tops(g)));
    }
    assert(index_laws::all_joinable(g, n, cs, k as nat));
    lemma_joined_lists(g, q, x, cs, k as nat);
    index_laws::lemma_joined_keeps(g, q, x, n, cs, k as nat);
    let a = index_laws::joined(g, q, x, n, cs, k as nat);
    let cap = model::level_cap(q, level);
    assert(index_laws::joinable(g, (n - 1 - k) as u8, cs[k], cs[k].neighbors.len()));
    index_laws::lemma_joinable_kept(g, a, level, c, c.neighbors.len());
    assert forall|i: int, p: int|
        0 <= i < a.len() && level < a[i].lists.len() && 0 <= p
            < a[i].lists[level as int].len() implies #[trigger] a[i].lists[level as int][p]
        < x by {
        assert(a[i].lists.len() == g[i].lists.len());
        assert(a[i].lists[level as int] == g[i].lists[level as int]);
        assert(g[i].lists[level as int][p] < x);
    }
    assert forall|i: int, t: int| 0 <= i < t < j implies c.neighbors[i] != c.neighbors[t] by {
        assert(cs[k].neighbors[i] != cs[k].neighbors[t]);
    }
    assert(index_laws::joinable(a, level, c, j as nat));
    lemma_level_lists(a, cap, x, level, c, j as nat);
    assert forall|t: int| 0 <= t < j implies c.neighbors[t] != nb by {
        assert(cs[k].neighbors[t] != cs[k].neighbors[j]);
    }
    assert(a[nb].lists.len() == g[nb].lists.len());
    assert(a[nb].lists[l] == g[nb].lists[l]);
}

// ---------------------------------------------------------------------
// Searching.
// ---------------------------------------------------------------------

/// A search goes down from the entry point to level 0 with beams of 1, asks
/// there for the nodes nearest to the query with the beam that it was given,
/// or the index's default, and answers the first `k` of all that were found:
/// never none, and never fewer than there are.
pub proof fn lemma_search_asks<S: GraphSearch>(
    search: &S,
    ix: IndexView,
    pages: Seq<Seq<u8>>,
    query: &[u32],
    k: usize,
    ef: Option<usize>,
    width: usize,
    ep: NodeId,
    hits: LayerHits,
) -> (path: Seq<NodeId>)
    requires
        ix.params.dim > 0,
        model::search_plan(ix, query@, k, ef) == Ok::<Option<usize>, HnswError>(Some(width)),
        index::descended(search, ix, pages, query, ix.params.max_level + 1, 1, ep),
        index::layer_answer(search, ix, pages, query, ep, width, 0, hits),
    ensures
        leads_down(search, ix.params, ix.hwm as int, query, 0, path),
        width as int == match ef {
            Some(n) => n as int,
            None => ix.params.ef_search_default as int,
        },
        asked_for_hits(search, ix.params, ix.hwm as int, query, path.last(), width, 0, hits),
        ({
            let all = found(hits);
            let n = if all.len() < k {
                all.len() as int
            } else {
                k as int
            };
            &&& n > 0
            &&& model::first_hits(hits.spec_list(), k) == all.take(n)
        }),
{
    let path = lemma_descended(search, ix, pages, query, 1, ep);
    lemma_layer_asked(search, ix, pages, query, ep, width, 0, hits);
    check_laws::lemma_search_planned(ix, query@, k, ef);
    assert(found(hits).take(found(hits).len() as int) =~= found(hits));
    path
}

} // verus!

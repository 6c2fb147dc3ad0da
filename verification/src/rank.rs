//! The rank store: the rank of every vertex and the minimum length that
//! every edge has to span.

use crate::error::RankError;
use crate::graph::Digraph;
use crate::graph::Shape;
use crate::layers::Layers;
use crate::tree::TightTree;
use std::collections::HashMap;
use vstd::prelude::*;
use vstd::std_specs::iter::IteratorSpec;

verus! {

broadcast use vstd::std_specs::hash::group_hash_axioms;

/// The slack of an edge from `tail` to `head`: what its rank difference has
/// beyond the minimum length.
pub open spec fn slack(ranks: Map<usize, isize>, min_len: usize, tail: usize, head: usize) -> int {
    ranks[head] - ranks[tail] - min_len
}

/// The keys of `ranks` are exactly the vertices of the graph.
pub open spec fn covers(ranks: Map<usize, isize>, shape: Shape) -> bool {
    forall|v: usize| ranks.contains_key(v) <==> shape.vertices.contains(v)
}

/// Every edge of the graph spans at least the minimum length.
pub open spec fn feasible(ranks: Map<usize, isize>, min_len: usize, shape: Shape) -> bool {
    forall|e: int|
        #![trigger shape.edges[e]]
        0 <= e < shape.edges.len() ==> slack(ranks, min_len, shape.edges[e].0, shape.edges[e].1)
            >= 0
}

/// `least` is a rank of some vertex and no vertex has a lower one.
pub open spec fn is_least_rank(ranks: Map<usize, isize>, least: int) -> bool {
    &&& exists|v: usize| ranks.contains_key(v) && ranks[v] == least
    &&& forall|v: usize| ranks.contains_key(v) ==> least <= ranks[v]
}

/// The lowest rank in a store that is not empty.
pub open spec fn least_rank(ranks: Map<usize, isize>) -> int {
    choose|least: int| is_least_rank(ranks, least)
}

/// Every rank lies between `-bound` and `bound`.
pub open spec fn banded(ranks: Map<usize, isize>, bound: int) -> bool {
    forall|v: usize| ranks.contains_key(v) ==> -bound <= #[trigger] ranks[v] <= bound
}

/// The differences between the ranks and the lowest one fit in `isize`.
pub open spec fn normalizable(ranks: Map<usize, isize>) -> bool {
    forall|v: usize| ranks.contains_key(v) ==> ranks[v] - least_rank(ranks) <= isize::MAX
}

/// The ranks moved so that the lowest one is 0.
pub open spec fn normalized(ranks: Map<usize, isize>) -> Map<usize, isize> {
    Map::new(
        |v: usize| ranks.contains_key(v),
        |v: usize| (ranks[v] - least_rank(ranks)) as isize,
    )
}

/// The ranks with `delta` added to those of the vertices in `moved`.
pub open spec fn shifted(ranks: Map<usize, isize>, moved: Set<usize>, delta: int) -> Map<
    usize,
    isize,
> {
    Map::new(
        |v: usize| ranks.contains_key(v),
        |v: usize|
            if moved.contains(v) {
                (ranks[v] + delta) as isize
            } else {
                ranks[v]
            },
    )
}

/// Group `i` holds exactly the vertices of rank `i`, each once, and the
/// groups end with the highest rank.
pub open spec fn is_layering(layers: Seq<Seq<usize>>, ranks: Map<usize, isize>) -> bool {
    &&& forall|i: int, k: int|
        0 <= i < layers.len() && 0 <= k < layers[i].len() ==> ranks.contains_key(
            #[trigger] layers[i][k],
        ) && ranks[layers[i][k]] == i
    &&& forall|v: usize|
        ranks.contains_key(v) ==> 0 <= #[trigger] ranks[v] < layers.len()
            && layers[ranks[v] as int].contains(v)
    &&& forall|i: int| 0 <= i < layers.len() ==> (#[trigger] layers[i]).no_duplicates()
    &&& layers.len() > 0 ==> layers[layers.len() - 1].len() > 0
}

/// A store has at most one lowest rank.
pub proof fn lemma_least_rank_is_unique(ranks: Map<usize, isize>, least: int)
    requires
        is_least_rank(ranks, least),
    ensures
        least_rank(ranks) == least,
{
}

/// A finite store that is not empty has a lowest rank.
pub proof fn lemma_least_rank_exists(ranks: Map<usize, isize>)
    requires
        ranks.dom().finite(),
        ranks.dom().len() > 0,
    ensures
        is_least_rank(ranks, least_rank(ranks)),
    decreases ranks.dom().len(),
{
    let v = ranks.dom().choose();
    let rest = ranks.remove(v);
    if rest.dom().len() == 0 {
        assert(is_least_rank(ranks, ranks[v] as int));
    } else {
        lemma_least_rank_exists(rest);
        let below = least_rank(rest);
        let least = if ranks[v] < below {
            ranks[v] as int
        } else {
            below
        };
        assert(is_least_rank(ranks, least));
    }
}

/// Normalizing leaves 0 as the lowest rank, and normalizing again changes
/// nothing.
pub proof fn lemma_normalize_idempotent(ranks: Map<usize, isize>)
    requires
        ranks.dom().finite(),
        normalizable(ranks),
    ensures
        ranks.dom().len() > 0 ==> is_least_rank(normalized(ranks), 0),
        normalizable(normalized(ranks)),
        normalized(normalized(ranks)) == normalized(ranks),
{
    let once = normalized(ranks);
    if ranks.dom().len() > 0 {
        lemma_least_rank_exists(ranks);
        let least = least_rank(ranks);
        let v = choose|v: usize| ranks.contains_key(v) && ranks[v] == least;
        assert(once.contains_key(v) && once[v] == 0);
    }
}

/// Ranks that all lie within half the range of `isize` of 0 can be
/// normalized.
pub proof fn lemma_banded_is_normalizable(ranks: Map<usize, isize>, bound: int)
    requires
        ranks.dom().finite(),
        banded(ranks, bound),
        bound <= isize::MAX / 2,
    ensures
        normalizable(ranks),
{
    if ranks.dom().len() > 0 {
        lemma_least_rank_exists(ranks);
    }
}

/// Moving a set of vertices by one amount keeps the rank difference of any
/// two of them.
pub proof fn lemma_shift_keeps_differences(
    ranks: Map<usize, isize>,
    moved: Set<usize>,
    delta: int,
    u: usize,
    v: usize,
)
    requires
        ranks.contains_key(u),
        ranks.contains_key(v),
        moved.contains(u),
        moved.contains(v),
        isize::MIN <= ranks[u] + delta <= isize::MAX,
        isize::MIN <= ranks[v] + delta <= isize::MAX,
    ensures
        shifted(ranks, moved, delta)[u] - shifted(ranks, moved, delta)[v] == ranks[u] - ranks[v],
{
}

/// In a layering every vertex of the store stands in one place only: in
/// the group of its rank, once.
pub proof fn lemma_layering_places_once(
    layers: Seq<Seq<usize>>,
    ranks: Map<usize, isize>,
    v: usize,
)
    requires
        is_layering(layers, ranks),
        ranks.contains_key(v),
    ensures
        exists|i: int, k: int|
            0 <= i < layers.len() && 0 <= k < layers[i].len() && #[trigger] layers[i][k] == v,
        forall|i: int, k: int, j: int, l: int|
            0 <= i < layers.len() && 0 <= k < layers[i].len() && 0 <= j < layers.len() && 0 <= l
                < layers[j].len() && #[trigger] layers[i][k] == v && #[trigger] layers[j][l] == v
                ==> i == j && k == l,
{
    assert(layers[ranks[v] as int].contains(v));
}

/// The ranks of the vertices of a graph, with the minimum length shared by
/// all edges.
#[derive(Debug, Clone)]
pub struct Ranks {
    inner: HashMap<usize, isize>,
    minimum_length: usize,
}

impl View for Ranks {
    type V = Map<usize, isize>;

    closed spec fn view(&self) -> Map<usize, isize> {
        self.inner@
    }
}

impl Ranks {
    /// The minimum length that the store was made with.
    pub closed spec fn min_len(&self) -> usize {
        self.minimum_length
    }

    /// The slack of an edge from `tail` to `head` under this store.
    pub open spec fn slack_of(&self, tail: usize, head: usize) -> int {
        slack(self@, self.min_len(), tail, head)
    }

    /// A store for `graph`, or `MalformedStore` where the keys of `ranks`
    /// are not exactly the vertices of `graph`.
    pub fn new(ranks: HashMap<usize, isize>, graph: &Digraph, minimum_length: usize) -> (made:
        Result<Ranks, RankError>)
        requires
            graph.wf(),
        ensures
            made is Ok <==> covers(ranks@, graph@),
            made matches Ok(store) ==> store@ == ranks@ && store.min_len() == minimum_length,
            made matches Err(refusal) ==> refusal == RankError::MalformedStore,
    {
        if Self::is_valid(&ranks, graph) {
            Ok(Ranks { inner: ranks, minimum_length })
        } else {
            Err(RankError::MalformedStore)
        }
    }

    /// A store with the given ranks, whatever graph they are meant for.
    pub fn new_unchecked(ranks: HashMap<usize, isize>, minimum_length: usize) -> (store: Ranks)
        ensures
            store@ == ranks@,
            store.min_len() == minimum_length,
    {
        Ranks { inner: ranks, minimum_length }
    }

    /// Whether the keys of `ranks` are exactly the vertices of `graph`.
    pub fn is_valid(ranks: &HashMap<usize, isize>, graph: &Digraph) -> (valid: bool)
        requires
            graph.wf(),
        ensures
            valid == covers(ranks@, graph@),
    {
        let vertices = graph.vertices();
        proof {
            vertices@.unique_seq_to_set();
        }
        if ranks.len() != vertices.len() {
            proof {
                if covers(ranks@, graph@) {
                    assert(ranks@.dom() =~= vertices@.to_set());
                }
            }
            return false;
        }
        let mut i: usize = 0;
        while i < vertices.len()
            invariant
                i <= vertices.len(),
                vertices@ == graph@.vertices,
                forall|j: int| 0 <= j < i ==> ranks@.contains_key(#[trigger] vertices[j]),
            decreases vertices.len() - i,
        {
            if !ranks.contains_key(&vertices[i]) {
                return false;
            }
            i += 1;
        }
        proof {
            vstd::set_lib::lemma_subset_equality(vertices@.to_set(), ranks@.dom());
        }
        true
    }

    /// The rank of a vertex that the store holds.
    fn rank_of(&self, vertex: usize) -> (rank: isize)
        requires
            self@.contains_key(vertex),
        ensures
            rank == self@[vertex],
    {
        match self.inner.get(&vertex) {
            Some(rank) => *rank,
            None => vstd::pervasive::unreached(),
        }
    }

    /// The rank of `vertex`, if the store holds it.
    pub fn get(&self, vertex: usize) -> (rank: Option<isize>)
        ensures
            rank == (if self@.contains_key(vertex) {
                Some(self@[vertex])
            } else {
                None
            }),
    {
        match self.inner.get(&vertex) {
            Some(rank) => Some(*rank),
            None => None,
        }
    }

    /// The slack of an edge from `tail` to `head`, both of which the store
    /// has to hold.
    pub fn slack(&self, tail: usize, head: usize) -> (slack: isize)
        requires
            self@.contains_key(tail),
            self@.contains_key(head),
            isize::MIN <= self.slack_of(tail, head) <= isize::MAX,
        ensures
            slack == self.slack_of(tail, head),
    {
        let wide = self.rank_of(head) as i128 - self.rank_of(tail) as i128
            - self.minimum_length as i128;
        wide as isize
    }

    /// The minimum length that every edge has to span.
    pub fn get_minimum_length(&self) -> (minimum_length: usize)
        ensures
            minimum_length == self.min_len(),
    {
        self.minimum_length
    }

    /// Adds `delta` to the rank of `vertex`; does nothing where the store
    /// does not hold the vertex.
    pub fn update(&mut self, vertex: usize, delta: isize)
        requires
            old(self)@.contains_key(vertex) ==> isize::MIN <= old(self)@[vertex] + delta
                <= isize::MAX,
        ensures
            final(self)@ == shifted(old(self)@, set![vertex], delta as int),
            final(self)@.dom() == old(self)@.dom(),
            final(self).min_len() == old(self).min_len(),
    {
        match self.inner.get(&vertex) {
            Some(rank) => {
                let moved = *rank + delta;
                self.inner.insert(vertex, moved);
            },
            None => {},
        }
    }

    /// Adds `delta` to the rank of every vertex of `tree` that the store
    /// holds. The rank difference of two vertices of the tree stays as it is.
    pub fn tighten_edge(&mut self, tree: &TightTree, delta: isize)
        requires
            tree.wf(),
            forall|v: usize|
                tree@.vertices.contains(v) && old(self)@.contains_key(v) ==> isize::MIN
                    <= old(self)@[v] + delta <= isize::MAX,
        ensures
            final(self)@ == shifted(old(self)@, tree@.vertices.to_set(), delta as int),
            final(self)@.dom() == old(self)@.dom(),
            final(self).min_len() == old(self).min_len(),
            forall|u: usize, v: usize|
                #![trigger final(self)@[u], final(self)@[v]]
                tree@.vertices.contains(u) && tree@.vertices.contains(v)
                    && old(self)@.contains_key(u) && old(self)@.contains_key(v)
                    ==> final(self)@[u] - final(self)@[v] == old(self)@[u] - old(self)@[v],
    {
        let vertices = tree.vertices();
        proof {
            tree.lemma_wf();
        }
        let mut i: usize = 0;
        while i < vertices.len()
            invariant
                i <= vertices.len(),
                vertices@ == tree@.vertices,
                vertices@.no_duplicates(),
                self.min_len() == old(self).min_len(),
                forall|v: usize|
                    vertices@.contains(v) && old(self)@.contains_key(v) ==> isize::MIN
                        <= old(self)@[v] + delta <= isize::MAX,
                self@ == shifted(old(self)@, vertices@.take(i as int).to_set(), delta as int),
            decreases vertices.len() - i,
        {
            let vertex = vertices[i];
            proof {
                assert(vertices@.contains(vertex));
            }
            self.update(vertex, delta);
            proof {
                let done = vertices@.take(i as int).to_set();
                let next = vertices@.take(i + 1).to_set();
                assert forall|v: usize| next.contains(v) <==> (done.contains(v) || v == vertex) by {
                    if v == vertex {
                        assert(vertices@.take(i + 1)[i as int] == v);
                    }
                }
            }
            i += 1;
        }
        assert(vertices@.take(vertices.len() as int) =~= vertices@);
    }

    /// Moves all ranks by one amount so that the lowest rank is 0. A store
    /// without vertices stays as it is.
    pub fn normalize(&mut self)
        requires
            normalizable(old(self)@),
        ensures
            final(self)@ == normalized(old(self)@),
            final(self)@.dom() == old(self)@.dom(),
            final(self).min_len() == old(self).min_len(),
            old(self)@.dom().len() > 0 ==> is_least_rank(final(self)@, 0),
    {
        let keys = self.keys();
        if keys.len() == 0 {
            return;
        }
        assert(keys@.contains(keys[0]));
        let mut least = self.rank_of(keys[0]);
        let mut i: usize = 1;
        while i < keys.len()
            invariant
                1 <= i <= keys.len(),
                forall|v: usize| keys@.contains(v) <==> self@.contains_key(v),
                exists|j: int| 0 <= j < i && self@[#[trigger] keys[j]] == least,
                forall|j: int| 0 <= j < i ==> least <= self@[#[trigger] keys[j]],
            decreases keys.len() - i,
        {
            assert(keys@.contains(keys[i as int]));
            let rank = self.rank_of(keys[i]);
            if rank < least {
                least = rank;
            }
            i += 1;
        }
        proof {
            let j = choose|j: int| 0 <= j < keys.len() && self@[#[trigger] keys[j]] == least;
            assert(keys@.contains(keys[j]));
            assert forall|v: usize| self@.contains_key(v) implies least <= self@[v] by {
                assert(keys@.contains(v));
            }
            lemma_least_rank_is_unique(self@, least as int);
        }
        let mut i: usize = 0;
        while i < keys.len()
            invariant
                i <= keys.len(),
                keys@.no_duplicates(),
                self.min_len() == old(self).min_len(),
                normalizable(old(self)@),
                least == least_rank(old(self)@),
                forall|v: usize| old(self)@.contains_key(v) ==> least <= old(self)@[v],
                forall|v: usize| keys@.contains(v) <==> old(self)@.contains_key(v),
                forall|v: usize| self@.contains_key(v) <==> old(self)@.contains_key(v),
                forall|j: int|
                    0 <= j < i ==> self@[#[trigger] keys[j]] == old(self)@[keys[j]] - least,
                forall|j: int|
                    i <= j < keys.len() ==> self@[#[trigger] keys[j]] == old(self)@[keys[j]],
            decreases keys.len() - i,
        {
            let vertex = keys[i];
            assert(keys@.contains(vertex));
            let rank = self.rank_of(vertex);
            self.inner.insert(vertex, rank - least);
            i += 1;
        }
        proof {
            assert forall|v: usize| self@.contains_key(v) implies self@[v] == normalized(
                old(self)@,
            )[v] by {
                assert(keys@.contains(v));
            }
        }
    }

    /// Normalizes the store and groups the vertices by rank: group `i` of
    /// the result holds the vertices of rank `i`, in no particular order.
    pub fn into_layers(self, graph: &Digraph) -> (layers: Layers)
        requires
            graph.wf(),
            covers(self@, graph@),
            normalizable(self@),
        ensures
            is_layering(layers@, normalized(self@)),
            forall|v: usize|
                graph@.vertices.contains(v) <==> exists|i: int|
                    0 <= i < layers@.len() && (#[trigger] layers@[i]).contains(v),
    {
        let mut store = self;
        store.normalize();
        let keys = store.keys();
        let mut groups: Vec<Vec<usize>> = Vec::new();
        let mut i: usize = 0;
        while i < keys.len()
            invariant
                i <= keys.len(),
                keys@.no_duplicates(),
                store@ == normalized(self@),
                forall|v: usize| keys@.contains(v) <==> store@.contains_key(v),
                store@.dom().len() > 0 ==> is_least_rank(store@, 0),
                forall|g: int, k: int|
                    0 <= g < groups.len() && 0 <= k < groups[g].len() ==> store@.contains_key(
                        #[trigger] groups[g][k],
                    ) && store@[groups[g][k]] == g && keys@.take(i as int).contains(groups[g][k]),
                forall|j: int|
                    0 <= j < i ==> 0 <= store@[#[trigger] keys[j]] < groups.len()
                        && groups[store@[keys[j]] as int]@.contains(keys[j]),
                forall|g: int| 0 <= g < groups.len() ==> (#[trigger] groups[g])@.no_duplicates(),
                groups.len() > 0 ==> groups[groups.len() - 1].len() > 0,
            decreases keys.len() - i,
        {
            let vertex = keys[i];
            proof {
                assert(keys@.contains(vertex));
            }
            let rank = store.rank_of(vertex);
            let layer = rank as usize;
            while groups.len() <= layer
                invariant
                    layer == rank,
                    rank >= 0,
                    forall|g: int, k: int|
                        0 <= g < groups.len() && 0 <= k < groups[g].len() ==> store@.contains_key(
                            #[trigger] groups[g][k],
                        ) && store@[groups[g][k]] == g && keys@.take(i as int).contains(
                            groups[g][k],
                        ),
                    forall|j: int|
                        0 <= j < i ==> 0 <= store@[#[trigger] keys[j]] < groups.len()
                            && groups[store@[keys[j]] as int]@.contains(keys[j]),
                    forall|g: int|
                        0 <= g < groups.len() ==> (#[trigger] groups[g])@.no_duplicates(),
                    groups.len() > layer + 1 ==> groups[groups.len() - 1].len() > 0,
                decreases layer + 1 - groups.len(),
            {
                groups.push(Vec::new());
            }
            let ghost before = groups@;
            Self::place(&mut groups, layer, vertex);
            proof {
                assert forall|g: int, k: int|
                    0 <= g < groups.len() && 0 <= k < groups[g].len() implies store@.contains_key(
                    #[trigger] groups[g][k],
                ) && store@[groups[g][k]] == g && keys@.take(i + 1).contains(groups[g][k]) by {
                    if g == layer && k == before[g].len() {
                        assert(keys@.take(i + 1)[i as int] == vertex);
                    }
                }
                assert forall|j: int| 0 <= j < i + 1 implies 0 <= store@[#[trigger] keys[j]]
                    < groups.len() && groups[store@[keys[j]] as int]@.contains(keys[j]) by {
                    let g = store@[keys[j]] as int;
                    if j < i {
                        let k = choose|k: int|
                            0 <= k < before[g]@.len() && before[g]@[k] == keys[j];
                        assert(groups[g]@[k] == keys[j]);
                    } else {
                        assert(groups[g]@[before[g]@.len() as int] == vertex);
                    }
                }
            }
            i += 1;
        }
        let layers = Layers::new(groups);
        proof {
            assert forall|v: usize| store@.contains_key(v) implies 0 <= #[trigger] store@[v]
                < layers@.len() && layers@[store@[v] as int].contains(v) by {
                assert(keys@.contains(v));
            }
        }
        layers
    }

    /// Appends `vertex` to group `layer`.
    fn place(groups: &mut Vec<Vec<usize>>, layer: usize, vertex: usize)
        requires
            layer < old(groups).len(),
        ensures
            final(groups).len() == old(groups).len(),
            final(groups)[layer as int]@ == old(groups)[layer as int]@.push(vertex),
            forall|g: int|
                0 <= g < old(groups).len() && g != layer ==> #[trigger] final(groups)[g]
                    == old(groups)[g],
    {
        groups[layer].push(vertex);
    }

    /// The keys of the store, each once, in no particular order.
    fn keys(&self) -> (keys: Vec<usize>)
        ensures
            keys@.no_duplicates(),
            forall|v: usize| keys@.contains(v) <==> self@.contains_key(v),
            keys@.len() == self@.dom().len(),
    {
        let mut keys: Vec<usize> = Vec::new();
        let ghost listed = self.inner.keys().remaining();
        for key in it: self.inner.keys()
            invariant
                it.seq() == listed,
                keys@.len() == it.index(),
                forall|i: int| 0 <= i < keys@.len() ==> keys@[i] == *it.seq()[i],
        {
            keys.push(*key);
        }
        proof {
            assert(keys@ =~= listed.unref());
        }
        keys
    }
}

impl std::ops::Index<usize> for Ranks {
    type Output = isize;

    /// The rank of `index`, which the store has to hold.
    fn index(&self, index: usize) -> (rank: &isize)
        ensures
            *rank == self@[index],
    {
        match self.inner.get(&index) {
            Some(rank) => rank,
            None => vstd::pervasive::unreached(),
        }
    }
}

impl vstd::std_specs::core::IndexSpecImpl<usize> for Ranks {
    open spec fn index_req(&self, index: &usize) -> bool {
        self@.contains_key(*index)
    }
}

} // verus!

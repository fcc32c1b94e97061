use vstd::prelude::*;

verus! {

/// An item vector: the order keys of its coordinates, compared in item space.
pub struct EmbeddingPoint(pub Vec<u32>);

/// A routing vector: the order keys of its coordinates, compared in centroid
/// space. It holds the same coordinates as an item vector of the same
/// dimension.
pub struct Point(pub Vec<u32>);

/// An item of a cluster: its id and its vector.
pub struct CompactEmbedding(pub u32, pub EmbeddingPoint);

impl View for EmbeddingPoint {
    type V = Seq<u32>;

    open spec fn view(&self) -> Seq<u32> {
        self.0@
    }
}

impl View for Point {
    type V = Seq<u32>;

    open spec fn view(&self) -> Seq<u32> {
        self.0@
    }
}

impl View for CompactEmbedding {
    type V = (u32, Seq<u32>);

    open spec fn view(&self) -> (u32, Seq<u32>) {
        (self.0, self.1@)
    }
}

impl EmbeddingPoint {
    /// A copy of this vector.
    pub fn duplicate(&self) -> (r: EmbeddingPoint)
        ensures
            r@ == self@,
    {
        EmbeddingPoint(self.0.clone())
    }

    /// The same coordinates read as a routing vector.
    pub fn into_point(self) -> (r: Point)
        ensures
            r@ == self@,
    {
        Point(self.0)
    }
}

impl Point {
    /// The same coordinates read as an item vector.
    pub fn into_embedding(self) -> (r: EmbeddingPoint)
        ensures
            r@ == self@,
    {
        EmbeddingPoint(self.0)
    }
}

/// The clusters as plain values: per cluster, its items' ids and vectors.
pub open spec fn clusters_view(clusters: Seq<Vec<CompactEmbedding>>) -> Seq<
    Seq<(u32, Seq<u32>)>,
> {
    clusters.map_values(|c: Vec<CompactEmbedding>| c@.map_values(|e: CompactEmbedding| e@))
}

/// The vector of the first item of `items` with id `id`.
pub open spec fn lookup_in(items: Seq<(u32, Seq<u32>)>, id: u32) -> Option<Seq<u32>>
    decreases items.len(),
{
    if items.len() == 0 {
        None
    } else {
        match lookup_in(items.drop_last(), id) {
            Some(p) => Some(p),
            None => if items.last().0 == id {
                Some(items.last().1)
            } else {
                None
            },
        }
    }
}

/// The vector of the first item with id `id`, scanning the clusters in
/// order and each cluster's items in order.
pub open spec fn lookup(clusters: Seq<Seq<(u32, Seq<u32>)>>, id: u32) -> Option<Seq<u32>>
    decreases clusters.len(),
{
    if clusters.len() == 0 {
        None
    } else {
        match lookup(clusters.drop_last(), id) {
            Some(p) => Some(p),
            None => lookup_in(clusters.last(), id),
        }
    }
}

proof fn lemma_lookup_in_prefix(items: Seq<(u32, Seq<u32>)>, n: int, id: u32)
    requires
        0 <= n <= items.len(),
        lookup_in(items.subrange(0, n), id) is Some,
    ensures
        lookup_in(items, id) == lookup_in(items.subrange(0, n), id),
    decreases items.len() - n,
{
    if n < items.len() {
        let next = items.subrange(0, n + 1);
        assert(next.drop_last() =~= items.subrange(0, n));
        assert(next.subrange(0, n) =~= items.subrange(0, n));
        lemma_lookup_in_prefix(items, n + 1, id);
    } else {
        assert(items.subrange(0, n) =~= items);
    }
}

proof fn lemma_lookup_prefix(clusters: Seq<Seq<(u32, Seq<u32>)>>, n: int, id: u32)
    requires
        0 <= n <= clusters.len(),
        lookup(clusters.subrange(0, n), id) is Some,
    ensures
        lookup(clusters, id) == lookup(clusters.subrange(0, n), id),
    decreases clusters.len() - n,
{
    if n < clusters.len() {
        let next = clusters.subrange(0, n + 1);
        assert(next.drop_last() =~= clusters.subrange(0, n));
        lemma_lookup_prefix(clusters, n + 1, id);
    } else {
        assert(clusters.subrange(0, n) =~= clusters);
    }
}

/// The vector of the first item with id `target_id`, scanning the clusters in
/// order and each cluster's items in order; `None` where no item has it.
pub fn find_embedding_point_by_id(clusters: &Vec<Vec<CompactEmbedding>>, target_id: u32) -> (r:
    Option<EmbeddingPoint>)
    ensures
        match r {
            Some(p) => lookup(clusters_view(clusters@), target_id) == Some(p@),
            None => lookup(clusters_view(clusters@), target_id) is None,
        },
{
    let ghost cs = clusters_view(clusters@);
    let mut c: usize = 0;
    while c < clusters.len()
        invariant
            c <= clusters.len(),
            cs == clusters_view(clusters@),
            cs.len() == clusters.len(),
            lookup(cs.subrange(0, c as int), target_id) is None,
        decreases clusters.len() - c,
    {
        let cluster = &clusters[c];
        let ghost items = cs[c as int];
        assert(items == cluster@.map_values(|e: CompactEmbedding| e@));
        let mut i: usize = 0;
        while i < cluster.len()
            invariant
                i <= cluster.len(),
                items == cluster@.map_values(|e: CompactEmbedding| e@),
                items.len() == cluster.len(),
                c < cs.len(),
                items == cs[c as int],
                cs == clusters_view(clusters@),
                lookup(cs.subrange(0, c as int), target_id) is None,
                lookup_in(items.subrange(0, i as int), target_id) is None,
            decreases cluster.len() - i,
        {
            let item = &cluster[i];
            if item.0 == target_id {
                let p = item.1.duplicate();
                proof {
                    let pre = items.subrange(0, i as int + 1);
                    assert(pre.drop_last() =~= items.subrange(0, i as int));
                    assert(lookup_in(pre, target_id) == Some(p@));
                    lemma_lookup_in_prefix(items, i as int + 1, target_id);
                    let cpre = cs.subrange(0, c as int + 1);
                    assert(cpre.drop_last() =~= cs.subrange(0, c as int));
                    assert(items.subrange(0, items.len() as int) =~= items);
                    assert(cpre.last() == items);
                    lemma_lookup_prefix(cs, c as int + 1, target_id);
                }
                return Some(p);
            }
            proof {
                let pre = items.subrange(0, i as int + 1);
                assert(pre.drop_last() =~= items.subrange(0, i as int));
            }
            i = i + 1;
        }
        proof {
            assert(items.subrange(0, i as int) =~= items);
            let cpre = cs.subrange(0, c as int + 1);
            assert(cpre.drop_last() =~= cs.subrange(0, c as int));
        }
        c = c + 1;
    }
    assert(cs.subrange(0, c as int) =~= cs);
    None
}

} // verus!

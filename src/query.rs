use vstd::prelude::*;

use crate::corpus::{clusters_view, lookup, lookup_in, CompactEmbedding};
use crate::selection::{median_vector, medians_of, uniform, ColumnMedian};

verus! {

/// How many recommendations a request gets when it names no count.
pub const MAX_RECS: usize = 50;

/// The number of recommendations used when a request names none.
pub fn default_recs() -> (r: usize)
    ensures
        r == MAX_RECS,
{
    MAX_RECS
}

/// The seed ids used when a request names none: no ids.
pub fn default_ids() -> (r: Vec<u32>)
    ensures
        r@ == Seq::<u32>::empty(),
{
    Vec::new()
}

/// Why a recommendation request failed.
#[derive(Clone, Copy, Debug, PartialEq, Eq, Structural)]
pub enum RecommendError {
    /// None of the seed ids names an item of the corpus.
    EmptyInput,
    /// The corpus has no clusters to route to.
    NoClusters,
    /// Routing named a cluster that the corpus does not have.
    UnknownCluster(usize),
    /// The store holds no artifact for the cluster.
    NotFound(usize),
    /// The artifact for the cluster could not be read back.
    Corrupt(usize),
    /// The query vector has zero magnitude, so no cosine can be taken with it.
    DegenerateVector,
}

/// Why a corpus was refused.
#[derive(Clone, Copy, Debug, PartialEq, Eq, Structural)]
pub enum CorpusError {
    /// The item with this id has a vector of another dimension.
    Dimension(u32),
}

/// Every item vector of `cs` has `dim` coordinates.
pub open spec fn uniform_clusters(cs: Seq<Seq<(u32, Seq<u32>)>>, dim: int) -> bool {
    forall|c: int, i: int|
        0 <= c < cs.len() && 0 <= i < cs[c].len() ==> (#[trigger] cs[c][i]).1.len() == dim
}

/// The in-memory corpus: its clusters of items, each item vector of the same
/// dimension. Cluster `n` is the cluster that centroid `n` stands for.
pub struct Vectors {
    dimensions: usize,
    clusters: Vec<Vec<CompactEmbedding>>,
}

impl Vectors {
    /// The dimension of every vector.
    pub closed spec fn dim(&self) -> int {
        self.dimensions as int
    }

    /// The clusters as plain values.
    pub closed spec fn clusters_spec(&self) -> Seq<Seq<(u32, Seq<u32>)>> {
        clusters_view(self.clusters@)
    }

    /// Every item vector has the corpus's dimension.
    pub closed spec fn wf(&self) -> bool {
        uniform_clusters(clusters_view(self.clusters@), self.dimensions as int)
    }

    /// A corpus of `clusters`, whose item vectors must all have `dimensions`
    /// coordinates; the first item that has another count is named in the
    /// error.
    pub fn new(dimensions: usize, clusters: Vec<Vec<CompactEmbedding>>) -> (r: Result<
        Vectors,
        CorpusError,
    >)
        ensures
            match r {
                Ok(v) => v.wf() && v.dim() == dimensions && v.clusters_spec() == clusters_view(
                    clusters@,
                ),
                Err(CorpusError::Dimension(id)) => !uniform_clusters(
                    clusters_view(clusters@),
                    dimensions as int,
                ) && exists|c: int, i: int|
                    0 <= c < clusters@.len() && 0 <= i < clusters_view(clusters@)[c].len()
                        && clusters_view(clusters@)[c][i] == (
                    id,
                    clusters_view(clusters@)[c][i].1,
                ) && clusters_view(clusters@)[c][i].1.len() != dimensions,
            },
    {
        let ghost cs = clusters_view(clusters@);
        let mut c: usize = 0;
        while c < clusters.len()
            invariant
                c <= clusters.len(),
                cs == clusters_view(clusters@),
                cs.len() == clusters.len(),
                forall|c2: int, i: int|
                    0 <= c2 < c && 0 <= i < cs[c2].len() ==> (#[trigger] cs[c2][i]).1.len()
                        == dimensions,
            decreases clusters.len() - c,
        {
            let mut i: usize = 0;
            while i < clusters[c].len()
                invariant
                    c < clusters.len(),
                    i <= clusters[c as int].len(),
                    cs == clusters_view(clusters@),
                    cs.len() == clusters.len(),
                    cs[c as int].len() == clusters[c as int].len(),
                    forall|c2: int, i2: int|
                        0 <= c2 < c && 0 <= i2 < cs[c2].len() ==> (#[trigger] cs[c2][i2]).1.len()
                            == dimensions,
                    forall|i2: int| 0 <= i2 < i ==> (#[trigger] cs[c as int][i2]).1.len() == dimensions,
                decreases clusters[c as int].len() - i,
            {
                let item = &clusters[c][i];
                assert(cs[c as int][i as int] == item@);
                if item.1.0.len() != dimensions {
                    return Err(CorpusError::Dimension(item.0));
                }
                i = i + 1;
            }
            c = c + 1;
        }
        Ok(Vectors { dimensions, clusters })
    }

    /// The dimension of every vector.
    pub fn dimensions(&self) -> (r: usize)
        ensures
            r == self.dim(),
    {
        self.dimensions
    }

    /// The number of clusters.
    pub fn cluster_count(&self) -> (r: usize)
        ensures
            r == self.clusters_spec().len(),
    {
        self.clusters.len()
    }

    /// The clusters, in the order of their ids.
    pub fn clusters(&self) -> (r: &Vec<Vec<CompactEmbedding>>)
        ensures
            clusters_view(r@) == self.clusters_spec(),
    {
        &self.clusters
    }
}

/// The vectors of the seed ids that name an item, in the order of `ids`;
/// ids that name no item are dropped.
pub open spec fn resolved(cs: Seq<Seq<(u32, Seq<u32>)>>, ids: Seq<u32>) -> Seq<Seq<u32>>
    decreases ids.len(),
{
    if ids.len() == 0 {
        Seq::empty()
    } else {
        let r = resolved(cs, ids.drop_last());
        match lookup(cs, ids.last()) {
            Some(p) => r.push(p),
            None => r,
        }
    }
}

proof fn lemma_lookup_in_dim(items: Seq<(u32, Seq<u32>)>, id: u32, dim: int)
    requires
        forall|i: int| 0 <= i < items.len() ==> (#[trigger] items[i]).1.len() == dim,
    ensures
        lookup_in(items, id) matches Some(p) ==> p.len() == dim,
    decreases items.len(),
{
    if items.len() > 0 {
        let rest = items.drop_last();
        assert forall|i: int| 0 <= i < rest.len() implies (#[trigger] rest[i]).1.len() == dim by {
            assert(rest[i] == items[i]);
        }
        lemma_lookup_in_dim(rest, id, dim);
    }
}

proof fn lemma_lookup_dim(cs: Seq<Seq<(u32, Seq<u32>)>>, id: u32, dim: int)
    requires
        uniform_clusters(cs, dim),
    ensures
        lookup(cs, id) matches Some(p) ==> p.len() == dim,
    decreases cs.len(),
{
    if cs.len() > 0 {
        let rest = cs.drop_last();
        assert forall|c: int, i: int|
            0 <= c < rest.len() && 0 <= i < rest[c].len() implies (#[trigger] rest[c][i]).1.len()
            == dim by {
            assert(rest[c] == cs[c]);
        }
        lemma_lookup_dim(rest, id, dim);
        let last = cs.last();
        assert forall|i: int| 0 <= i < last.len() implies (#[trigger] last[i]).1.len() == dim by {
            assert(cs[cs.len() - 1][i] == last[i]);
        }
        lemma_lookup_in_dim(last, id, dim);
    }
}

/// What a request asks of the search once its seed ids are read.
pub enum QueryPlan {
    /// No seed ids: the answer is empty.
    NoSeeds,
    /// Search with this coordinate-wise median of the seeds' vectors.
    Median(Vec<ColumnMedian>),
}

impl Vectors {
    /// The vectors of the seed ids that name an item, in the order of `ids`.
    pub fn resolve_embeddings(&self, ids: &Vec<u32>) -> (r: Vec<Vec<u32>>)
        requires
            self.wf(),
        ensures
            r@.map_values(|v: Vec<u32>| v@) == resolved(self.clusters_spec(), ids@),
            uniform(r@.map_values(|v: Vec<u32>| v@), self.dim()),
    {
        let ghost cs = self.clusters_spec();
        let mut r: Vec<Vec<u32>> = Vec::new();
        let mut k: usize = 0;
        while k < ids.len()
            invariant
                k <= ids.len(),
                cs == self.clusters_spec(),
                self.wf(),
                r@.map_values(|v: Vec<u32>| v@) == resolved(cs, ids@.subrange(0, k as int)),
                uniform(r@.map_values(|v: Vec<u32>| v@), self.dim()),
            decreases ids.len() - k,
        {
            let found = crate::corpus::find_embedding_point_by_id(&self.clusters, ids[k]);
            let ghost pre = ids@.subrange(0, k as int + 1);
            proof {
                assert(pre.drop_last() =~= ids@.subrange(0, k as int));
                assert(pre.last() == ids[k as int]);
                lemma_lookup_dim(cs, ids[k as int], self.dim());
            }
            match found {
                Some(p) => {
                    let ghost before = r@.map_values(|v: Vec<u32>| v@);
                    r.push(p.0);
                    assert(r@.map_values(|v: Vec<u32>| v@) =~= before.push(p@));
                },
                None => {},
            }
            k = k + 1;
        }
        assert(ids@.subrange(0, k as int) =~= ids@);
        r
    }

    /// Reads the seed ids of a request: no ids ask for nothing; ids of which
    /// none names an item are an error; otherwise the search goes on with the
    /// coordinate-wise median of the vectors of the ids that name an item.
    pub fn plan_query(&self, ids: &Vec<u32>, rng: &mut rand::rngs::StdRng) -> (r: Result<
        QueryPlan,
        RecommendError,
    >)
        requires
            self.wf(),
        ensures
            match r {
                Ok(QueryPlan::NoSeeds) => ids@.len() == 0,
                Ok(QueryPlan::Median(m)) => ids@.len() > 0 && resolved(
                    self.clusters_spec(),
                    ids@,
                ).len() > 0 && medians_of(resolved(self.clusters_spec(), ids@), self.dim(), m@),
                Err(e) => ids@.len() > 0 && resolved(self.clusters_spec(), ids@).len() == 0 && e
                    == RecommendError::EmptyInput,
            },
    {
        if ids.len() == 0 {
            return Ok(QueryPlan::NoSeeds);
        }
        let vectors = self.resolve_embeddings(ids);
        if vectors.len() == 0 {
            return Err(RecommendError::EmptyInput);
        }
        let ghost m = vectors@.map_values(|v: Vec<u32>| v@);
        assert(m[0] == vectors[0]@);
        let medians = median_vector(&vectors, rng);
        Ok(QueryPlan::Median(medians))
    }
}

/// The first index past `skip` entries of a sequence of length `len`.
pub open spec fn page_start(len: int, offset: int) -> int {
    if offset < len {
        offset
    } else {
        len
    }
}

/// The index that ends a page of at most `limit` entries after `offset`.
pub open spec fn page_end(len: int, offset: int, limit: int) -> int {
    if offset + limit < len {
        offset + limit
    } else {
        len
    }
}

/// The page of `ranked` that skips `offset` entries and takes at most `limit`
/// of the rest, in order: the contiguous slice of the whole ranking.
pub fn paginate(ranked: &Vec<u32>, offset: usize, limit: usize) -> (r: Vec<u32>)
    ensures
        r@ == ranked@.subrange(
            page_start(ranked.len() as int, offset as int),
            page_end(ranked.len() as int, offset as int, limit as int),
        ),
{
    let mut r: Vec<u32> = Vec::new();
    if offset >= ranked.len() {
        return r;
    }
    let end: usize = if limit < ranked.len() - offset {
        offset + limit
    } else {
        ranked.len()
    };
    let mut i: usize = offset;
    while i < end
        invariant
            offset <= i <= end <= ranked.len(),
            r@ == ranked@.subrange(offset as int, i as int),
        decreases end - i,
    {
        r.push(ranked[i]);
        assert(ranked@.subrange(offset as int, i + 1) =~= ranked@.subrange(offset as int, i as int).push(ranked[i as int]));
        i = i + 1;
    }
    r
}

/// The cluster a routed query goes to: routing finds none only where the
/// corpus has no clusters, and must name one of the `cluster_count` clusters.
pub fn select_cluster(routed: Option<usize>, cluster_count: usize) -> (r: Result<
    usize,
    RecommendError,
>)
    ensures
        match routed {
            None => r == Err::<usize, RecommendError>(RecommendError::NoClusters),
            Some(c) => if c < cluster_count {
                r == Ok::<usize, RecommendError>(c)
            } else {
                r == Err::<usize, RecommendError>(RecommendError::UnknownCluster(c))
            },
        },
{
    match routed {
        None => Err(RecommendError::NoClusters),
        Some(c) => if c < cluster_count {
            Ok(c)
        } else {
            Err(RecommendError::UnknownCluster(c))
        },
    }
}

} // verus!

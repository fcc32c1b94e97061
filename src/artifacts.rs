use vstd::prelude::*;

use vstd::string::StringExecFns;

use crate::corpus::{CompactEmbedding, EmbeddingPoint};
use crate::query::Vectors;

verus! {

/// The binary encodings that precompiled indices are stored in.
#[derive(Clone, Copy, Debug, PartialEq, Eq, Structural)]
pub enum ArtifactFormat {
    /// The schema-based encoding.
    Bincode,
    /// The compact self-describing encoding.
    Msgpack,
}

/// Where a request gets the index of its cluster from.
#[derive(Clone, Copy, Debug, PartialEq, Eq, Structural)]
pub enum Provisioning {
    /// Fetch the precompiled index from the artifact store.
    Precompiled(ArtifactFormat),
    /// Build the index from the in-memory corpus.
    OnDemand,
}

/// The ten decimal digits.
pub open spec fn digits() -> Seq<char> {
    seq!['0', '1', '2', '3', '4', '5', '6', '7', '8', '9']
}

/// The decimal numeral of `n`, without leading zeros.
pub open spec fn decimal(n: nat) -> Seq<char>
    decreases n,
{
    if n < 10 {
        seq![digits()[n as int]]
    } else {
        decimal(n / 10) + seq![digits()[(n % 10) as int]]
    }
}

/// The file extension of a format.
pub open spec fn extension(format: ArtifactFormat) -> Seq<char> {
    match format {
        ArtifactFormat::Bincode => seq!['b', 'i', 'n', 'c', 'o', 'd', 'e'],
        ArtifactFormat::Msgpack => seq!['m', 's', 'g', 'p', 'a', 'c', 'k'],
    }
}

/// The name of the artifact of cluster `n`: `cluster-map-<n>.<extension>`.
pub open spec fn cluster_name(n: nat, format: ArtifactFormat) -> Seq<char> {
    "cluster-map-"@ + decimal(n) + seq!['.'] + extension(format)
}

/// The name of the centroid router's artifact, keyed by the number of
/// centroids: `centroids-map-<count>.<extension>`.
pub open spec fn centroids_name(count: nat, format: ArtifactFormat) -> Seq<char> {
    "centroids-map-"@ + decimal(count) + seq!['.'] + extension(format)
}

/// The store key of the artifact of cluster `n`.
pub open spec fn cluster_key(n: nat, format: ArtifactFormat) -> Seq<char> {
    "precompiled/"@ + cluster_name(n, format)
}

fn digit_str(d: usize) -> (r: &'static str)
    requires
        d < 10,
    ensures
        r@ == seq![digits()[d as int]],
{
    proof {
        reveal_strlit("0");
        reveal_strlit("1");
        reveal_strlit("2");
        reveal_strlit("3");
        reveal_strlit("4");
        reveal_strlit("5");
        reveal_strlit("6");
        reveal_strlit("7");
        reveal_strlit("8");
        reveal_strlit("9");
    }
    let r = match d {
        0 => "0",
        1 => "1",
        2 => "2",
        3 => "3",
        4 => "4",
        5 => "5",
        6 => "6",
        7 => "7",
        8 => "8",
        _ => "9",
    };
    assert(r@ =~= seq![digits()[d as int]]);
    r
}

fn push_decimal(s: &mut String, n: usize)
    ensures
        final(s)@ == old(s)@ + decimal(n as nat),
    decreases n,
{
    if n >= 10 {
        push_decimal(s, n / 10);
    }
    s.append(digit_str(n % 10));
    assert(final(s)@ =~= old(s)@ + decimal(n as nat));
}

fn push_extension(s: &mut String, format: ArtifactFormat)
    ensures
        final(s)@ == old(s)@ + seq!['.'] + extension(format),
{
    proof {
        reveal_strlit(".bincode");
        reveal_strlit(".msgpack");
    }
    match format {
        ArtifactFormat::Bincode => s.append(".bincode"),
        ArtifactFormat::Msgpack => s.append(".msgpack"),
    }
    assert(final(s)@ =~= old(s)@ + seq!['.'] + extension(format));
}

/// The name of the artifact of cluster `n`.
pub fn cluster_artifact_name(n: usize, format: ArtifactFormat) -> (r: String)
    ensures
        r@ == cluster_name(n as nat, format),
{
    let mut s = String::from_str("cluster-map-");
    push_decimal(&mut s, n);
    push_extension(&mut s, format);
    assert(s@ =~= cluster_name(n as nat, format));
    s
}

/// The name of the centroid router's artifact for `count` centroids.
pub fn centroids_artifact_name(count: usize, format: ArtifactFormat) -> (r: String)
    ensures
        r@ == centroids_name(count as nat, format),
{
    let mut s = String::from_str("centroids-map-");
    push_decimal(&mut s, count);
    push_extension(&mut s, format);
    assert(s@ =~= centroids_name(count as nat, format));
    s
}

/// The store key under which the artifact of cluster `n` is kept.
pub fn cluster_artifact_key(n: usize, format: ArtifactFormat) -> (r: String)
    ensures
        r@ == cluster_key(n as nat, format),
{
    let mut s = String::from_str("precompiled/");
    let name = cluster_artifact_name(n, format);
    s.append(name.as_str());
    assert(s@ =~= cluster_key(n as nat, format));
    s
}

/// The provisioning of a deployment: a service version of `0` marks a local
/// run, which builds indices on demand; any other fetches precompiled ones.
pub fn provisioning_for_version(version: &str) -> (r: Provisioning)
    ensures
        r == (if version@ == "0"@ {
            Provisioning::OnDemand
        } else {
            Provisioning::Precompiled(ArtifactFormat::Bincode)
        }),
{
    proof {
        reveal_strlit("0");
    }
    let len = version.unicode_len();
    if len == 1 && version.get_char(0) == '0' {
        assert(version@ =~= "0"@);
        Provisioning::OnDemand
    } else {
        assert(version@ != "0"@ ) by {
            if version@ == "0"@ {
                assert(version@[0] == '0');
            }
        }
        Provisioning::Precompiled(ArtifactFormat::Bincode)
    }
}

/// The items of cluster `n` split for building its index: their vectors and,
/// at the same positions, their ids.
pub fn cluster_parts(vectors: &Vectors, n: usize) -> (r: (Vec<EmbeddingPoint>, Vec<u32>))
    requires
        n < vectors.clusters_spec().len(),
    ensures
        r.0.len() == vectors.clusters_spec()[n as int].len(),
        r.1.len() == vectors.clusters_spec()[n as int].len(),
        forall|i: int|
            0 <= i < r.0.len() ==> vectors.clusters_spec()[n as int][i] == (
                r.1[i],
                #[trigger] r.0[i]@,
            ),
{
    let clusters = vectors.clusters();
    let cluster: &Vec<CompactEmbedding> = &clusters[n];
    let ghost items = vectors.clusters_spec()[n as int];
    assert(items == cluster@.map_values(|e: CompactEmbedding| e@));
    let mut vecs: Vec<EmbeddingPoint> = Vec::new();
    let mut ids: Vec<u32> = Vec::new();
    let mut i: usize = 0;
    while i < cluster.len()
        invariant
            i <= cluster.len(),
            items == cluster@.map_values(|e: CompactEmbedding| e@),
            vecs.len() == i,
            ids.len() == i,
            forall|k: int| 0 <= k < i ==> items[k] == (ids[k], #[trigger] vecs[k]@),
        decreases cluster.len() - i,
    {
        vecs.push(cluster[i].1.duplicate());
        ids.push(cluster[i].0);
        i = i + 1;
    }
    (vecs, ids)
}

} // verus!

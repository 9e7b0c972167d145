use vstd::prelude::*;

use crate::hashing::{hamming, spec_phash, try_compute_phash, hamming_distance, lemma_hamming_bound, PerceptualHash};
use crate::types::{ImageId, ImageRecord, Scene, StackingConfig};

verus! {

broadcast use vstd::seq_lib::group_to_multiset_ensures;

/// `(capture time, id)` of the images that have a capture time, in input order.
pub open spec fn timed_entries(images: Seq<ImageRecord>) -> Seq<(i64, ImageId)>
    decreases images.len(),
{
    if images.len() == 0 {
        seq![]
    } else {
        let rest = timed_entries(images.drop_last());
        match images.last().timestamp {
            Some(t) => rest.push((t, images.last().id)),
            None => rest,
        }
    }
}

/// Ids of the images without a capture time, in input order.
pub open spec fn untimed_ids(images: Seq<ImageRecord>) -> Seq<ImageId>
    decreases images.len(),
{
    if images.len() == 0 {
        seq![]
    } else {
        let rest = untimed_ids(images.drop_last());
        match images.last().timestamp {
            Some(_) => rest,
            None => rest.push(images.last().id),
        }
    }
}

/// Inserts `x` into `s` after every entry whose time is not later than its own.
pub open spec fn insert_by_time(s: Seq<(i64, ImageId)>, x: (i64, ImageId)) -> Seq<(i64, ImageId)>
    decreases s.len(),
{
    if s.len() == 0 {
        seq![x]
    } else if s.last().0 <= x.0 {
        s.push(x)
    } else {
        insert_by_time(s.drop_last(), x).push(s.last())
    }
}

/// Stable sort by capture time: entries with equal times keep their order.
pub open spec fn sort_by_time(s: Seq<(i64, ImageId)>) -> Seq<(i64, ImageId)>
    decreases s.len(),
{
    if s.len() == 0 {
        s
    } else {
        insert_by_time(sort_by_time(s.drop_last()), s.last())
    }
}

/// Entries are in order of capture time.
pub open spec fn sorted_by_time(s: Seq<(i64, ImageId)>) -> bool {
    forall|i: int, j: int| 0 <= i <= j < s.len() ==> s[i].0 <= s[j].0
}

proof fn lemma_insert_by_time(s: Seq<(i64, ImageId)>, x: (i64, ImageId))
    requires
        sorted_by_time(s),
    ensures
        sorted_by_time(insert_by_time(s, x)),
        insert_by_time(s, x).to_multiset() == s.to_multiset().insert(x),
        insert_by_time(s, x).len() == s.len() + 1,
    decreases s.len(),
{
    if s.len() == 0 {
        assert(seq![x] =~= Seq::<(i64, ImageId)>::empty().push(x));
    } else if s.last().0 <= x.0 {
    } else {
        let d = s.drop_last();
        lemma_insert_by_time(d, x);
        let t = insert_by_time(d, x);
        assert(s =~= d.push(s.last()));
        assert forall|k: int| 0 <= k < t.len() implies t[k].0 <= s.last().0 by {
            assert(t.contains(t[k]));
            assert(t.to_multiset().count(t[k]) > 0);
            if t[k] != x {
                assert(d.to_multiset().count(t[k]) > 0);
                assert(d.contains(t[k]));
                let m = choose|m: int| 0 <= m < d.len() && d[m] == t[k];
                assert(s[m] == t[k]);
            }
        }
    }
}

/// Sorting by time gives a sorted permutation of its input.
pub proof fn lemma_sort_by_time(s: Seq<(i64, ImageId)>)
    ensures
        sorted_by_time(sort_by_time(s)),
        sort_by_time(s).to_multiset() == s.to_multiset(),
        sort_by_time(s).len() == s.len(),
    decreases s.len(),
{
    if s.len() > 0 {
        lemma_sort_by_time(s.drop_last());
        lemma_insert_by_time(sort_by_time(s.drop_last()), s.last());
        assert(s =~= s.drop_last().push(s.last()));
    }
}

/// Inserting at the first position after which only later entries follow is
/// `insert_by_time`.
proof fn lemma_insert_by_time_at(s: Seq<(i64, ImageId)>, x: (i64, ImageId), j: int)
    requires
        0 <= j <= s.len(),
        j == 0 || s[j - 1].0 <= x.0,
        forall|k: int| j <= k < s.len() ==> s[k].0 > x.0,
    ensures
        insert_by_time(s, x) == s.insert(j, x),
    decreases s.len(),
{
    if s.len() == 0 {
        assert(s.insert(j, x) =~= seq![x]);
    } else if s.last().0 <= x.0 {
        assert(j == s.len());
        assert(s.insert(j, x) =~= s.push(x));
    } else {
        lemma_insert_by_time_at(s.drop_last(), x, j);
        assert(s.drop_last().insert(j, x).push(s.last()) =~= s.insert(j, x));
    }
}

/// Capture-time entries of `images`, stably sorted by time, and the ids of
/// the images without a capture time.
fn sorted_timed_entries(images: &[ImageRecord]) -> (r: (Vec<(i64, ImageId)>, Vec<ImageId>))
    ensures
        r.0@ == sort_by_time(timed_entries(images@)),
        r.1@ == untimed_ids(images@),
{
    let mut sorted: Vec<(i64, ImageId)> = Vec::new();
    let mut untimed: Vec<ImageId> = Vec::new();
    let mut i: usize = 0;
    while i < images.len()
        invariant
            i <= images@.len(),
            sorted@ == sort_by_time(timed_entries(images@.take(i as int))),
            untimed@ == untimed_ids(images@.take(i as int)),
        decreases images@.len() - i,
    {
        let ghost prefix = images@.take(i as int);
        assert(images@.take(i + 1).drop_last() =~= prefix);
        proof {
            lemma_sort_by_time(timed_entries(prefix));
        }
        match images[i].timestamp {
            Some(t) => {
                let x = (t, images[i].id);
                let mut j: usize = sorted.len();
                while j > 0 && sorted[j - 1].0 > t
                    invariant
                        j <= sorted@.len(),
                        forall|k: int| j <= k < sorted@.len() ==> sorted@[k].0 > t,
                    decreases j,
                {
                    j = j - 1;
                }
                proof {
                    lemma_insert_by_time_at(sorted@, x, j as int);
                    let te = timed_entries(prefix);
                    assert(timed_entries(images@.take(i + 1)) == te.push(x));
                    assert(te.push(x).drop_last() =~= te);
                }
                sorted.insert(j, x);
            },
            None => {
                assert(timed_entries(images@.take(i + 1)) == timed_entries(prefix));
                untimed.push(images[i].id);
            },
        }
        i = i + 1;
    }
    assert(images@.take(i as int) =~= images@);
    (sorted, untimed)
}

/// Splits time-sorted entries into bursts: a new burst starts wherever the
/// gap to the previous capture time exceeds `threshold`.
pub open spec fn time_clusters(s: Seq<(i64, ImageId)>, threshold: int) -> Seq<Seq<ImageId>>
    decreases s.len(),
{
    if s.len() == 0 {
        seq![]
    } else if s.len() == 1 {
        seq![seq![s[0].1]]
    } else {
        let c = time_clusters(s.drop_last(), threshold);
        if s.last().0 - s[s.len() - 2].0 <= threshold {
            c.update(c.len() - 1, c.last().push(s.last().1))
        } else {
            c.push(seq![s.last().1])
        }
    }
}

/// One single-image cluster per id.
pub open spec fn singletons(ids: Seq<ImageId>) -> Seq<Seq<ImageId>> {
    ids.map_values(|id: ImageId| seq![id])
}

/// The clusters that timestamp clustering forms: the bursts of the images
/// with a capture time, in time order, then one cluster for each image
/// without one, in input order.
pub open spec fn stack_clusters(images: Seq<ImageRecord>, threshold_ms: i64) -> Seq<Seq<ImageId>> {
    time_clusters(sort_by_time(timed_entries(images)), threshold_ms as int) + singletons(
        untimed_ids(images),
    )
}

/// Capture-time differences between images that are adjacent in time order
/// fit in an `i64` (the gap between consecutive capture times is computed in
/// `i64`).
pub open spec fn gaps_representable(images: Seq<ImageRecord>) -> bool {
    forall|i: int, j: int|
        #![trigger images[i].timestamp, images[j].timestamp]
        0 <= i < images.len() && 0 <= j < images.len() && images[i].timestamp is Some
            && images[j].timestamp is Some && images[j].timestamp.unwrap()
            - images[i].timestamp.unwrap() > i64::MAX ==> exists|k: int|
            0 <= k < images.len() && #[trigger] images[k].timestamp is Some
                && images[i].timestamp.unwrap() < images[k].timestamp.unwrap()
                < images[j].timestamp.unwrap()
}

proof fn lemma_timed_entries_contains(images: Seq<ImageRecord>, e: (i64, ImageId))
    ensures
        timed_entries(images).contains(e) <==> exists|k: int|
            0 <= k < images.len() && images[k].timestamp == Some(e.0) && images[k].id == e.1,
    decreases images.len(),
{
    if images.len() > 0 {
        let d = images.drop_last();
        lemma_timed_entries_contains(d, e);
        if timed_entries(images).contains(e) {
            let r = timed_entries(d);
            if r.contains(e) {
                let k = choose|k: int| 0 <= k < d.len() && d[k].timestamp == Some(e.0) && d[k].id == e.1;
                assert(images[k] == d[k]);
            } else {
                let m = choose|m: int| 0 <= m < timed_entries(images).len() && timed_entries(images)[m] == e;
                assert(images.last().timestamp is Some);
                assert(m == r.len()) by {
                    if m < r.len() {
                        assert(r[m] == e);
                    }
                }
                assert(images[images.len() - 1].id == e.1);
            }
        }
        if exists|k: int| 0 <= k < images.len() && images[k].timestamp == Some(e.0) && images[k].id == e.1 {
            let k = choose|k: int| 0 <= k < images.len() && images[k].timestamp == Some(e.0) && images[k].id == e.1;
            if k < d.len() {
                assert(d[k] == images[k]);
                let r = timed_entries(d);
                let m = choose|m: int| 0 <= m < r.len() && r[m] == e;
                if images.last().timestamp is Some {
                    assert(timed_entries(images)[m] == e);
                }
            } else {
                assert(timed_entries(images).last() == e);
            }
        }
    }
}

/// Adjacent entries of the time-sorted order differ by at most `i64::MAX`.
#[verifier::spinoff_prover]
#[verifier::rlimit(40)]
proof fn lemma_adjacent_gap(images: Seq<ImageRecord>, i: int)
    requires
        gaps_representable(images),
        1 <= i < sort_by_time(timed_entries(images)).len(),
    ensures
        sort_by_time(timed_entries(images))[i].0 - sort_by_time(timed_entries(images))[i - 1].0
            <= i64::MAX,
        sort_by_time(timed_entries(images))[i - 1].0 <= sort_by_time(timed_entries(images))[i].0,
{
    let t = timed_entries(images);
    let s = sort_by_time(t);
    lemma_sort_by_time(t);
    if s[i].0 - s[i - 1].0 > i64::MAX {
        assert(s.contains(s[i - 1]));
        assert(s.contains(s[i]));
        assert(t.to_multiset().count(s[i - 1]) > 0);
        assert(t.to_multiset().count(s[i]) > 0);
        lemma_timed_entries_contains(images, s[i - 1]);
        lemma_timed_entries_contains(images, s[i]);
        let a = choose|k: int| 0 <= k < images.len() && images[k].timestamp == Some(s[i - 1].0) && images[k].id == s[i - 1].1;
        let b = choose|k: int| 0 <= k < images.len() && images[k].timestamp == Some(s[i].0) && images[k].id == s[i].1;
        assert(images[a].timestamp is Some && images[b].timestamp is Some);
        let c = choose|k: int|
            0 <= k < images.len() && #[trigger] images[k].timestamp is Some
                && images[a].timestamp.unwrap() < images[k].timestamp.unwrap()
                < images[b].timestamp.unwrap();
        let e = (images[c].timestamp.unwrap(), images[c].id);
        lemma_timed_entries_contains(images, e);
        assert(t.contains(e));
        assert(s.to_multiset().count(e) > 0);
        assert(s.contains(e));
        let m = choose|m: int| 0 <= m < s.len() && s[m] == e;
        if m < i {
            assert(s[m].0 <= s[i - 1].0);
        } else {
            assert(s[i].0 <= s[m].0);
        }
    }
}

/// The id sequences held by a vector of clusters.
pub open spec fn cluster_views(v: Seq<Vec<ImageId>>) -> Seq<Seq<ImageId>> {
    v.map_values(|c: Vec<ImageId>| c@)
}

/// Groups images into bursts by capture time (see `stack_clusters`).
#[verifier::spinoff_prover]
#[verifier::rlimit(30)]
fn cluster_by_timestamp(images: &[ImageRecord], threshold_ms: i64) -> (r: Vec<Vec<ImageId>>)
    requires
        gaps_representable(images@),
    ensures
        cluster_views(r@) == stack_clusters(images@, threshold_ms),
{
    let (sorted, untimed) = sorted_timed_entries(images);
    let ghost s = sorted@;
    let mut clusters: Vec<Vec<ImageId>> = Vec::new();
    if sorted.len() > 0 {
        let mut current: Vec<ImageId> = Vec::new();
        current.push(sorted[0].1);
        assert(s.take(1).drop_last() =~= Seq::<(i64, ImageId)>::empty());
        assert(cluster_views(clusters@).push(current@) =~= time_clusters(s.take(1), threshold_ms as int));
        let mut i: usize = 1;
        while i < sorted.len()
            invariant
                1 <= i <= sorted@.len(),
                s == sorted@,
                s == sort_by_time(timed_entries(images@)),
                gaps_representable(images@),
                cluster_views(clusters@).push(current@) == time_clusters(s.take(i as int), threshold_ms as int),
            decreases sorted@.len() - i,
        {
            proof {
                lemma_adjacent_gap(images@, i as int);
            }
            let gap = sorted[i].0 - sorted[i - 1].0;
            let ghost tp = s.take(i as int);
            let ghost tn = s.take(i + 1);
            assert(tn.drop_last() =~= tp);
            let ghost c = time_clusters(tp, threshold_ms as int);
            if gap <= threshold_ms {
                current.push(sorted[i].1);
                assert(cluster_views(clusters@).push(current@) =~= c.update(c.len() - 1, c.last().push(s[i as int].1)));
            } else {
                let done = current;
                clusters.push(done);
                current = Vec::new();
                current.push(sorted[i].1);
                assert(cluster_views(clusters@).push(current@) =~= c.push(seq![s[i as int].1]));
            }
            i = i + 1;
        }
        assert(s.take(i as int) =~= s);
        clusters.push(current);
    }
    let ghost timed_part = cluster_views(clusters@);
    assert(timed_part =~= time_clusters(s, threshold_ms as int));
    let mut k: usize = 0;
    while k < untimed.len()
        invariant
            k <= untimed@.len(),
            cluster_views(clusters@) =~= timed_part + singletons(untimed@.take(k as int)),
        decreases untimed@.len() - k,
    {
        let mut single: Vec<ImageId> = Vec::new();
        single.push(untimed[k]);
        let ghost before = clusters@;
        assert(single@ =~= seq![untimed@[k as int]]);
        clusters.push(single);
        assert(cluster_views(clusters@) =~= cluster_views(before).push(seq![untimed@[k as int]]));
        assert(singletons(untimed@.take(k + 1)) =~= singletons(untimed@.take(k as int)).push(seq![untimed@[k as int]]));
        k = k + 1;
    }
    assert(untimed@.take(k as int) =~= untimed@);
    clusters
}

/// Some image carries this id.
pub open spec fn is_image_id(images: Seq<ImageRecord>, id: ImageId) -> bool {
    exists|k: int| 0 <= k < images.len() && images[k].id == id
}

/// Index of the first image that carries `id`.
pub open spec fn first_image_index(images: Seq<ImageRecord>, id: ImageId) -> int {
    choose|k: int|
        0 <= k < images.len() && images[k].id == id && forall|j: int|
            0 <= j < k ==> images[j].id != id
}

/// The perceptual hash of an image's preview; none for an empty preview or
/// one that does not decode.
pub open spec fn record_hash(r: ImageRecord) -> Option<Seq<u8>> {
    if r.preview_data@.len() == 0 {
        None
    } else {
        spec_phash(r.preview_data@)
    }
}

/// Hashes of the images of a cluster, each id standing for the first image
/// that carries it.
#[verifier::opaque]
pub open spec fn cluster_hashes(images: Seq<ImageRecord>, ids: Seq<ImageId>) -> Seq<Option<Seq<u8>>> {
    ids.map_values(|id: ImageId| record_hash(images[first_image_index(images, id)]))
}

/// An image starts a new scene when both it and the scene's anchor (the
/// first image of the scene that has a hash) have a hash and these differ in
/// more than `threshold` bits.
pub open spec fn splits_from(anchor: Option<Seq<u8>>, hash: Option<Seq<u8>>, threshold: u32) -> bool {
    anchor is Some && hash is Some && hamming(anchor.unwrap(), hash.unwrap()) > threshold
}

/// After the first `n` images of a cluster: the finished scenes, the scene
/// being filled and its anchor, the hash of its first image that has one.
pub open spec fn split_state(
    ids: Seq<ImageId>,
    hashes: Seq<Option<Seq<u8>>>,
    threshold: u32,
    n: nat,
) -> (Seq<Seq<ImageId>>, Seq<ImageId>, Option<Seq<u8>>)
    decreases n,
{
    if n <= 1 {
        (seq![], seq![ids[0]], hashes[0])
    } else {
        let (done, current, anchor) = split_state(ids, hashes, threshold, (n - 1) as nat);
        if splits_from(anchor, hashes[n - 1], threshold) {
            (done.push(current), seq![ids[n - 1]], hashes[n - 1])
        } else {
            (done, current.push(ids[n - 1]), if anchor is None {
                hashes[n - 1]
            } else {
                anchor
            })
        }
    }
}

/// The first hash among the images `lo..hi` of a cluster, if any has one.
pub open spec fn first_hash(hashes: Seq<Option<Seq<u8>>>, lo: int, hi: int) -> Option<Seq<u8>>
    decreases hi - lo,
{
    if hi <= lo {
        None
    } else {
        let f = first_hash(hashes, lo, hi - 1);
        if f is Some {
            f
        } else {
            hashes[hi - 1]
        }
    }
}

/// The anchor of images `lo..hi` is the hash of the first of them that has
/// one: it is absent exactly when none has a hash, and otherwise it is the
/// hash of an image before which none in the range has one.
pub proof fn law_anchor_is_first_hashed_image(hashes: Seq<Option<Seq<u8>>>, lo: int, hi: int)
    requires
        0 <= lo,
        hi <= hashes.len(),
    ensures
        first_hash(hashes, lo, hi) is None <==> forall|i: int| lo <= i < hi ==> (#[trigger] hashes[i]) is None,
        first_hash(hashes, lo, hi) is Some ==> exists|i: int|
            #![trigger hashes[i]]
            lo <= i < hi && hashes[i] == first_hash(hashes, lo, hi) && forall|j: int|
                lo <= j < i ==> (#[trigger] hashes[j]) is None,
    decreases hi - lo,
{
    if hi > lo {
        law_anchor_is_first_hashed_image(hashes, lo, hi - 1);
        if first_hash(hashes, lo, hi - 1) is None && hashes[hi - 1] is Some {
            assert(forall|j: int| lo <= j < hi - 1 ==> (#[trigger] hashes[j]) is None);
        }
    }
}

/// The scenes into which a cluster is split by perceptual hash; a cluster of
/// at most one image stays whole.
pub open spec fn phash_groups(ids: Seq<ImageId>, hashes: Seq<Option<Seq<u8>>>, threshold: u32) -> Seq<Seq<ImageId>> {
    if ids.len() <= 1 {
        seq![ids]
    } else {
        let (done, current, _) = split_state(ids, hashes, threshold, ids.len());
        done.push(current)
    }
}

spec fn hash_view(h: Option<PerceptualHash>) -> Option<Seq<u8>> {
    match h {
        Some(x) => Some(x@),
        None => None,
    }
}

fn find_first_image(images: &[ImageRecord], id: ImageId) -> (k: usize)
    requires
        is_image_id(images@, id),
    ensures
        k < images@.len(),
        k == first_image_index(images@, id),
{
    let mut k: usize = 0;
    while k < images.len()
        invariant
            k <= images@.len(),
            is_image_id(images@, id),
            forall|j: int| 0 <= j < k ==> images@[j].id != id,
        decreases images@.len() - k,
    {
        if images[k].id == id {
            let ghost f = first_image_index(images@, id);
            assert(images@[k as int].id == id && forall|j: int| 0 <= j < k ==> images@[j].id != id);
            assert(f == k) by {
                if f < k {
                    assert(images@[f].id != id);
                } else if f > k {
                }
            }
            return k;
        }
        k = k + 1;
    }
    proof {
        let w = choose|w: int| 0 <= w < images@.len() && images@[w].id == id;
        assert(images@[w].id != id);
    }
    0
}

spec fn hashes_match(hashes: Seq<Option<PerceptualHash>>, hs: Seq<Option<Seq<u8>>>) -> bool {
    &&& hashes.len() == hs.len()
    &&& forall|m: int|
        0 <= m < hashes.len() ==> hash_view(#[trigger] hashes[m]) == hs[m] && (hashes[m] matches Some(h)
            ==> h@.len() <= 4096)
}

/// The perceptual hashes of the images of a cluster (see `cluster_hashes`).
fn hashes_of_cluster(images: &[ImageRecord], ids: &Vec<ImageId>) -> (r: Vec<Option<PerceptualHash>>)
    requires
        forall|j: int| 0 <= j < ids@.len() ==> is_image_id(images@, #[trigger] ids@[j]),
    ensures
        hashes_match(r@, cluster_hashes(images@, ids@)),
        r@.len() == ids@.len(),
{
    let ghost hs = cluster_hashes(images@, ids@);
    proof {
        reveal(cluster_hashes);
    }
    let mut hashes: Vec<Option<PerceptualHash>> = Vec::new();
    let mut j: usize = 0;
    while j < ids.len()
        invariant
            j <= ids@.len(),
            hashes@.len() == j,
            hs == cluster_hashes(images@, ids@),
            forall|m: int| 0 <= m < ids@.len() ==> is_image_id(images@, #[trigger] ids@[m]),
            forall|m: int|
                0 <= m < j ==> hash_view(#[trigger] hashes@[m]) == hs[m] && (hashes@[m] matches Some(h)
                    ==> h@.len() <= 4096),
        decreases ids@.len() - j,
    {
        let k = find_first_image(images, ids[j]);
        proof {
            reveal(cluster_hashes);
        }
        let record = &images[k];
        let h = if record.preview_data.len() == 0 {
            None
        } else {
            try_compute_phash(&record.preview_data, &record.file_name)
        };
        hashes.push(h);
        j = j + 1;
    }
    hashes
}

/// The distance between any two of the hashes fits in a `u32`.
pub open spec fn distances_fit(hashes: Seq<Option<PerceptualHash>>) -> bool {
    forall|m1: int, m2: int|
        #![trigger hashes[m1], hashes[m2]]
        0 <= m1 < hashes.len() && 0 <= m2 < hashes.len() && hashes[m1] is Some && hashes[m2] is Some
            ==> hamming(hashes[m1].unwrap()@, hashes[m2].unwrap()@) <= u32::MAX
}

/// Whether image `i` starts a new scene, given the image whose hash anchors
/// the scene.
fn starts_new_scene(hashes: &Vec<Option<PerceptualHash>>, anchor: usize, i: usize, threshold: u32) -> (r: bool)
    requires
        anchor < hashes@.len(),
        i < hashes@.len(),
        distances_fit(hashes@),
    ensures
        r == splits_from(hash_view(hashes@[anchor as int]), hash_view(hashes@[i as int]), threshold),
{
    match (&hashes[anchor], &hashes[i]) {
        (Some(a), Some(c)) => {
            assert(hashes@[anchor as int] is Some && hashes@[i as int] is Some);
            hamming_distance(a, c) > threshold
        },
        _ => false,
    }
}

/// The hashes of a cluster's images, as byte sequences.
pub open spec fn hash_views(hashes: Seq<Option<PerceptualHash>>) -> Seq<Option<Seq<u8>>> {
    hashes.map_values(|h: Option<PerceptualHash>| match h {
        Some(x) => Some(x@),
        None => None,
    })
}

/// Splits the images of one cluster into scenes given their perceptual
/// hashes (see `phash_groups`): an image starts a new scene when it and the
/// current scene's anchor (its first image that has a hash) both have a hash
/// and these differ in more than `threshold` bits.
pub fn split_by_hashes(ids: &Vec<ImageId>, hashes: &Vec<Option<PerceptualHash>>, threshold: u32) -> (r: Vec<Vec<ImageId>>)
    requires
        hashes@.len() == ids@.len(),
        distances_fit(hashes@),
    ensures
        cluster_views(r@) == phash_groups(ids@, hash_views(hashes@), threshold),
{
    let ghost hs = hash_views(hashes@);
    if ids.len() <= 1 {
        let mut whole: Vec<Vec<ImageId>> = Vec::new();
        whole.push(ids.clone());
        assert(cluster_views(whole@) =~= seq![ids@]);
        return whole;
    }
    assert forall|m: int| 0 <= m < hashes@.len() implies hash_view(#[trigger] hashes@[m]) == hs[m] by {}
    let mut groups: Vec<Vec<ImageId>> = Vec::new();
    let mut current: Vec<ImageId> = Vec::new();
    current.push(ids[0]);
    let mut anchor: usize = 0;
    assert(current@ =~= seq![ids@[0]]);
    let mut i: usize = 1;
    while i < ids.len()
        invariant
            1 <= i <= ids@.len(),
            anchor < i,
            hashes@.len() == ids@.len(),
            distances_fit(hashes@),
            hs == hash_views(hashes@),
            forall|m: int| 0 <= m < hashes@.len() ==> hash_view(#[trigger] hashes@[m]) == hs[m],
            hs.len() == ids@.len(),
            split_state(ids@, hs, threshold, i as nat) == (cluster_views(groups@), current@, hs[anchor as int]),
        decreases ids@.len() - i,
    {
        let should_split = starts_new_scene(hashes, anchor, i, threshold);
        let ghost st = split_state(ids@, hs, threshold, i as nat);
        assert(should_split == splits_from(st.2, hs[i as int], threshold));
        if should_split {
            let done = current;
            let ghost before = groups@;
            groups.push(done);
            assert(cluster_views(groups@) =~= cluster_views(before).push(done@));
            current = Vec::new();
            current.push(ids[i]);
            assert(current@ =~= seq![ids@[i as int]]);
            anchor = i;
        } else {
            current.push(ids[i]);
            if hashes[anchor].is_none() {
                anchor = i;
            }
        }
        i = i + 1;
    }
    let ghost before = groups@;
    let last = current;
    groups.push(last);
    assert(cluster_views(groups@) =~= cluster_views(before).push(last@));
    groups
}

/// Splits one timestamp cluster into scenes by perceptual hash (see
/// `phash_groups`).
fn split_by_phash(images: &[ImageRecord], ids: &Vec<ImageId>, threshold: u32) -> (r: Vec<Vec<ImageId>>)
    requires
        forall|j: int| 0 <= j < ids@.len() ==> is_image_id(images@, #[trigger] ids@[j]),
    ensures
        cluster_views(r@) == phash_groups(ids@, cluster_hashes(images@, ids@), threshold),
{
    if ids.len() <= 1 {
        let mut whole: Vec<Vec<ImageId>> = Vec::new();
        whole.push(ids.clone());
        assert(cluster_views(whole@) =~= seq![ids@]);
        return whole;
    }
    let hashes = hashes_of_cluster(images, ids);
    assert(hash_views(hashes@) =~= cluster_hashes(images@, ids@));
    assert forall|m1: int, m2: int|
        #![trigger hashes@[m1], hashes@[m2]]
        0 <= m1 < hashes@.len() && 0 <= m2 < hashes@.len() && hashes@[m1] is Some && hashes@[m2] is Some
            implies hamming(hashes@[m1].unwrap()@, hashes@[m2].unwrap()@) <= u32::MAX by {
        lemma_hamming_bound(hashes@[m1].unwrap()@, hashes@[m2].unwrap()@);
    }
    split_by_hashes(ids, &hashes, threshold)
}

/// Scenes of a sequence of clusters: each cluster split by perceptual hash,
/// in cluster order.
pub open spec fn scene_groups_of(images: Seq<ImageRecord>, clusters: Seq<Seq<ImageId>>, threshold: u32) -> Seq<Seq<ImageId>>
    decreases clusters.len(),
{
    if clusters.len() == 0 {
        seq![]
    } else {
        scene_groups_of(images, clusters.drop_last(), threshold) + phash_groups(
            clusters.last(),
            cluster_hashes(images, clusters.last()),
            threshold,
        )
    }
}

/// The image ids of each scene that stacking forms, in scene order.
pub open spec fn scene_groups(images: Seq<ImageRecord>, config: StackingConfig) -> Seq<Seq<ImageId>> {
    scene_groups_of(
        images,
        stack_clusters(images, config.burst_threshold_ms),
        config.phash_similarity_threshold,
    )
}

/// The ids of a sequence of images.
pub open spec fn image_ids(images: Seq<ImageRecord>) -> Seq<ImageId> {
    images.map_values(|r: ImageRecord| r.id)
}

/// The ids of time-ordered entries.
pub open spec fn entry_ids(s: Seq<(i64, ImageId)>) -> Seq<ImageId> {
    s.map_values(|e: (i64, ImageId)| e.1)
}

proof fn lemma_flatten_alt_append(a: Seq<Seq<ImageId>>, b: Seq<Seq<ImageId>>)
    ensures
        (a + b).flatten_alt() == a.flatten_alt() + b.flatten_alt(),
    decreases b.len(),
{
    if b.len() == 0 {
        assert(a + b =~= a);
        assert(a.flatten_alt() + b.flatten_alt() =~= a.flatten_alt());
    } else {
        lemma_flatten_alt_append(a, b.drop_last());
        assert((a + b).drop_last() =~= a + b.drop_last());
        assert((a + b).flatten_alt() =~= a.flatten_alt() + b.flatten_alt());
    }
}

proof fn lemma_time_clusters_flatten(s: Seq<(i64, ImageId)>, th: int)
    ensures
        time_clusters(s, th).flatten_alt() == entry_ids(s),
        forall|i: int| 0 <= i < time_clusters(s, th).len() ==> (#[trigger] time_clusters(s, th)[i]).len() > 0,
        s.len() > 0 ==> time_clusters(s, th).len() > 0,
    decreases s.len(),
{
    let tc = time_clusters(s, th);
    if s.len() == 0 {
        assert(entry_ids(s) =~= seq![]);
    } else if s.len() == 1 {
        let e = tc.drop_last();
        assert(e.len() == 0);
        assert(e.flatten_alt() =~= Seq::<ImageId>::empty());
        assert(tc.last() =~= seq![s[0].1]);
        assert(entry_ids(s) =~= seq![s[0].1]);
        assert(tc.flatten_alt() =~= entry_ids(s));
    } else {
        let d = s.drop_last();
        lemma_time_clusters_flatten(d, th);
        let c = time_clusters(d, th);
        assert(entry_ids(s) =~= entry_ids(d).push(s.last().1));
        if s.last().0 - s[s.len() - 2].0 <= th {
            assert(tc.drop_last() =~= c.drop_last());
            assert(c.flatten_alt() == c.drop_last().flatten_alt() + c.last());
            assert(tc.flatten_alt() =~= entry_ids(s));
        } else {
            assert(tc.drop_last() =~= c);
            assert(tc.flatten_alt() =~= entry_ids(s));
        }
    }
}

proof fn lemma_singletons_flatten(ids: Seq<ImageId>)
    ensures
        singletons(ids).flatten_alt() == ids,
        forall|i: int| 0 <= i < singletons(ids).len() ==> (#[trigger] singletons(ids)[i]).len() > 0,
    decreases ids.len(),
{
    if ids.len() > 0 {
        lemma_singletons_flatten(ids.drop_last());
        assert(singletons(ids).drop_last() =~= singletons(ids.drop_last()));
        assert(singletons(ids).flatten_alt() =~= ids);
    } else {
        assert(singletons(ids).flatten_alt() =~= ids);
    }
}

proof fn lemma_split_state_flatten(ids: Seq<ImageId>, hs: Seq<Option<Seq<u8>>>, th: u32, n: nat)
    requires
        1 <= n <= ids.len(),
    ensures
        ({
            let (done, current, _) = split_state(ids, hs, th, n);
            &&& done.flatten_alt() + current == ids.take(n as int)
            &&& current.len() > 0
            &&& forall|i: int| 0 <= i < done.len() ==> (#[trigger] done[i]).len() > 0
        }),
    decreases n,
{
    if n == 1 {
        assert(ids.take(1) =~= seq![ids[0]]);
        let e: Seq<Seq<ImageId>> = seq![];
        assert(e.flatten_alt() + seq![ids[0]] =~= seq![ids[0]]);
    } else {
        lemma_split_state_flatten(ids, hs, th, (n - 1) as nat);
        let (done, current, anchor) = split_state(ids, hs, th, (n - 1) as nat);
        assert(ids.take(n as int) =~= ids.take(n - 1).push(ids[n - 1]));
        if splits_from(anchor, hs[n - 1], th) {
            assert(done.push(current).drop_last() =~= done);
            assert(done.push(current).flatten_alt() + seq![ids[n - 1]] =~= ids.take(n as int));
        } else {
            assert(done.flatten_alt() + current.push(ids[n - 1]) =~= ids.take(n as int));
        }
    }
}

#[verifier::spinoff_prover]
proof fn lemma_phash_groups_flatten(ids: Seq<ImageId>, hs: Seq<Option<Seq<u8>>>, th: u32)
    ensures
        phash_groups(ids, hs, th).flatten_alt() == ids,
        ids.len() > 0 ==> forall|i: int|
            0 <= i < phash_groups(ids, hs, th).len() ==> (#[trigger] phash_groups(ids, hs, th)[i]).len() > 0,
{
    let g = phash_groups(ids, hs, th);
    if ids.len() <= 1 {
        assert(g.drop_last() =~= seq![]);
        assert(g.flatten_alt() =~= ids);
    } else {
        lemma_split_state_flatten(ids, hs, th, ids.len());
        let (done, current, _) = split_state(ids, hs, th, ids.len());
        assert(g.drop_last() =~= done);
        assert(ids.take(ids.len() as int) =~= ids);
    }
}

proof fn lemma_scene_groups_of_flatten(images: Seq<ImageRecord>, clusters: Seq<Seq<ImageId>>, th: u32)
    ensures
        scene_groups_of(images, clusters, th).flatten_alt() == clusters.flatten_alt(),
        (forall|i: int| 0 <= i < clusters.len() ==> (#[trigger] clusters[i]).len() > 0) ==> forall|i: int|
            0 <= i < scene_groups_of(images, clusters, th).len() ==> (#[trigger] scene_groups_of(
                images,
                clusters,
                th,
            )[i]).len() > 0,
    decreases clusters.len(),
{
    if clusters.len() > 0 {
        let d = clusters.drop_last();
        let c = clusters.last();
        lemma_scene_groups_of_flatten(images, d, th);
        let a = scene_groups_of(images, d, th);
        let b = phash_groups(c, cluster_hashes(images, c), th);
        lemma_flatten_alt_append(a, b);
        lemma_phash_groups_flatten(c, cluster_hashes(images, c), th);
        if forall|i: int| 0 <= i < clusters.len() ==> (#[trigger] clusters[i]).len() > 0 {
            assert forall|i: int| 0 <= i < d.len() implies (#[trigger] d[i]).len() > 0 by {
                assert(d[i] == clusters[i]);
            }
            assert(c.len() > 0) by {
                assert(c == clusters[clusters.len() - 1]);
            }
            assert forall|i: int| 0 <= i < (a + b).len() implies (#[trigger] (a + b)[i]).len() > 0 by {
                if i >= a.len() {
                    assert((a + b)[i] == b[i - a.len()]);
                }
            }
        }
    } else {
        assert(scene_groups_of(images, clusters, th).flatten_alt() =~= clusters.flatten_alt());
    }
}

proof fn lemma_insert_by_time_ids(s: Seq<(i64, ImageId)>, x: (i64, ImageId))
    ensures
        entry_ids(insert_by_time(s, x)).to_multiset() == entry_ids(s).to_multiset().insert(x.1),
    decreases s.len(),
{
    if s.len() == 0 {
        assert(entry_ids(insert_by_time(s, x)) =~= entry_ids(s).push(x.1));
    } else if s.last().0 <= x.0 {
        assert(entry_ids(insert_by_time(s, x)) =~= entry_ids(s).push(x.1));
    } else {
        let d = s.drop_last();
        lemma_insert_by_time_ids(d, x);
        assert(entry_ids(insert_by_time(s, x)) =~= entry_ids(insert_by_time(d, x)).push(s.last().1));
        assert(entry_ids(s) =~= entry_ids(d).push(s.last().1));
    }
}

proof fn lemma_sort_by_time_ids(s: Seq<(i64, ImageId)>)
    ensures
        entry_ids(sort_by_time(s)).to_multiset() == entry_ids(s).to_multiset(),
    decreases s.len(),
{
    if s.len() > 0 {
        let d = s.drop_last();
        lemma_sort_by_time_ids(d);
        lemma_insert_by_time_ids(sort_by_time(d), s.last());
        assert(entry_ids(s) =~= entry_ids(d).push(s.last().1));
    }
}

proof fn lemma_timed_untimed_ids(images: Seq<ImageRecord>)
    ensures
        entry_ids(timed_entries(images)).to_multiset().add(untimed_ids(images).to_multiset())
            == image_ids(images).to_multiset(),
    decreases images.len(),
{
    broadcast use vstd::multiset::group_multiset_axioms;
    if images.len() == 0 {
        assert(image_ids(images) =~= seq![]);
        assert(entry_ids(timed_entries(images)) =~= seq![]);
        assert(entry_ids(timed_entries(images)).to_multiset().add(untimed_ids(images).to_multiset())
            =~= image_ids(images).to_multiset());
    } else {
        let d = images.drop_last();
        lemma_timed_untimed_ids(d);
        assert(image_ids(images) =~= image_ids(d).push(images.last().id));
        match images.last().timestamp {
            Some(t) => {
                assert(entry_ids(timed_entries(images)) =~= entry_ids(timed_entries(d)).push(images.last().id));
            },
            None => {},
        }
        assert(entry_ids(timed_entries(images)).to_multiset().add(untimed_ids(images).to_multiset())
            =~= image_ids(images).to_multiset());
    }
}

proof fn lemma_nonempty_groups_count(g: Seq<Seq<ImageId>>)
    requires
        forall|i: int| 0 <= i < g.len() ==> (#[trigger] g[i]).len() > 0,
    ensures
        g.len() <= g.flatten_alt().len(),
    decreases g.len(),
{
    if g.len() > 0 {
        let d = g.drop_last();
        assert forall|i: int| 0 <= i < d.len() implies (#[trigger] d[i]).len() > 0 by {
            assert(d[i] == g[i]);
        }
        lemma_nonempty_groups_count(d);
        assert(g.last() == g[g.len() - 1]);
    }
}

proof fn lemma_stack_clusters_cover(images: Seq<ImageRecord>, threshold_ms: i64)
    ensures
        stack_clusters(images, threshold_ms).flatten_alt().to_multiset() == image_ids(images).to_multiset(),
        forall|i: int|
            0 <= i < stack_clusters(images, threshold_ms).len() ==> (#[trigger] stack_clusters(images, threshold_ms)[i]).len() > 0,
{
    let t = timed_entries(images);
    let s = sort_by_time(t);
    let tc = time_clusters(s, threshold_ms as int);
    let u = untimed_ids(images);
    let c = stack_clusters(images, threshold_ms);
    lemma_time_clusters_flatten(s, threshold_ms as int);
    lemma_singletons_flatten(u);
    lemma_flatten_alt_append(tc, singletons(u));
    assert forall|i: int| 0 <= i < c.len() implies (#[trigger] c[i]).len() > 0 by {
        if i < tc.len() {
            assert(c[i] == tc[i]);
        } else {
            assert(c[i] == singletons(u)[i - tc.len()]);
        }
    }
    vstd::seq_lib::lemma_multiset_commutative(entry_ids(s), u);
    lemma_sort_by_time_ids(t);
    lemma_timed_untimed_ids(images);
}

proof fn lemma_flatten_alt_contains(g: Seq<Seq<ImageId>>, i: int, j: int)
    requires
        0 <= i < g.len(),
        0 <= j < g[i].len(),
    ensures
        g.flatten_alt().contains(g[i][j]),
    decreases g.len(),
{
    let d = g.drop_last();
    if i < g.len() - 1 {
        assert(d[i] == g[i]);
        lemma_flatten_alt_contains(d, i, j);
        let m = choose|m: int| 0 <= m < d.flatten_alt().len() && d.flatten_alt()[m] == g[i][j];
        assert(g.flatten_alt()[m] == g[i][j]);
    } else {
        assert(g.flatten_alt()[d.flatten_alt().len() + j] == g[i][j]);
    }
}

/// Every id in a timestamp cluster is the id of some image.
proof fn lemma_cluster_members(images: Seq<ImageRecord>, threshold_ms: i64, i: int, j: int)
    requires
        0 <= i < stack_clusters(images, threshold_ms).len(),
        0 <= j < stack_clusters(images, threshold_ms)[i].len(),
    ensures
        is_image_id(images, stack_clusters(images, threshold_ms)[i][j]),
{
    let c = stack_clusters(images, threshold_ms);
    let x = c[i][j];
    lemma_stack_clusters_cover(images, threshold_ms);
    lemma_flatten_alt_contains(c, i, j);
    assert(c.flatten_alt().to_multiset().count(x) > 0);
    assert(image_ids(images).contains(x));
    let k = choose|k: int| 0 <= k < image_ids(images).len() && image_ids(images)[k] == x;
    assert(images[k].id == x);
}

/// End of run `k` of a sequence of length `n` cut at the ascending indices
/// `starts`: where the next run starts, or `n` for the last run.
pub open spec fn run_end(starts: Seq<int>, k: int, n: int) -> int {
    if k + 1 < starts.len() {
        starts[k + 1]
    } else {
        n
    }
}

/// `starts` cuts `0..n` into nonempty consecutive runs: it begins at 0 and
/// ascends strictly below `n`.
pub open spec fn cuts_into_runs(starts: Seq<int>, n: int) -> bool {
    &&& starts.len() > 0
    &&& starts[0] == 0
    &&& forall|k: int| 0 <= k < starts.len() ==> 0 <= #[trigger] starts[k] < n || (n == 0 && starts[k] == 0)
    &&& forall|i: int, j: int| 0 <= i < j < starts.len() ==> #[trigger] starts[i] < #[trigger] starts[j]
}

/// Gap between the capture time of entry `p` and that of the entry before.
pub open spec fn capture_gap(s: Seq<(i64, ImageId)>, p: int) -> int {
    s[p].0 - s[p - 1].0
}

/// Indices of time-ordered entries that start a burst: the first entry, and
/// each one whose gap to the previous capture time exceeds `threshold`.
pub open spec fn burst_starts(s: Seq<(i64, ImageId)>, threshold: int) -> Seq<int>
    decreases s.len(),
{
    if s.len() <= 1 {
        seq![0]
    } else {
        let b = burst_starts(s.drop_last(), threshold);
        if s.last().0 - s[s.len() - 2].0 <= threshold {
            b
        } else {
            b.push(s.len() - 1)
        }
    }
}

/// The shape that bursts have (see `law_bursts_split_at_gaps`).
#[verifier::opaque]
pub open spec fn burst_shape(s: Seq<(i64, ImageId)>, threshold: int) -> bool {
    let c = time_clusters(s, threshold);
    let b = burst_starts(s, threshold);
    &&& cuts_into_runs(b, s.len() as int)
    &&& c.len() == b.len()
    &&& forall|k: int|
        0 <= k < b.len() ==> #[trigger] c[k] == entry_ids(s.subrange(b[k], run_end(b, k, s.len() as int)))
    &&& forall|k: int, p: int|
        #![trigger b[k], capture_gap(s, p)]
        0 <= k < b.len() && b[k] < p < run_end(b, k, s.len() as int) ==> capture_gap(s, p) <= threshold
    &&& forall|k: int| 0 < k < b.len() ==> capture_gap(s, #[trigger] b[k]) > threshold
}

#[verifier::spinoff_prover]
#[verifier::rlimit(40)]
proof fn lemma_burst_shape_join(s: Seq<(i64, ImageId)>, threshold: int)
    requires
        s.len() >= 2,
        burst_shape(s.drop_last(), threshold),
        s.last().0 - s[s.len() - 2].0 <= threshold,
    ensures
        burst_shape(s, threshold),
{
    reveal(burst_shape);
    let c = time_clusters(s, threshold);
    let b = burst_starts(s, threshold);
    let n = s.len() as int;
    let d = s.drop_last();
    let cd = time_clusters(d, threshold);
    let bd = burst_starts(d, threshold);
    let m = bd.len() - 1;
    assert(b == bd);
    assert(c == cd.update(cd.len() - 1, cd.last().push(s.last().1)));
    assert forall|k: int| 0 <= k < b.len() implies #[trigger] c[k] == entry_ids(
        s.subrange(b[k], run_end(b, k, n)),
    ) by {
        if k < m {
            assert(d.subrange(b[k], run_end(b, k, n - 1)) =~= s.subrange(b[k], run_end(b, k, n)));
        } else {
            assert(s.subrange(b[k], n) =~= d.subrange(b[k], n - 1).push(s.last()));
            assert(entry_ids(s.subrange(b[k], n)) =~= entry_ids(d.subrange(b[k], n - 1)).push(s.last().1));
        }
    }
    assert forall|k: int, p: int|
        #![trigger b[k], capture_gap(s, p)]
        0 <= k < b.len() && b[k] < p < run_end(b, k, n) implies capture_gap(s, p) <= threshold by {
        if p < n - 1 {
            assert(capture_gap(s, p) == capture_gap(d, p));
            if k == m {
                assert(run_end(bd, k, n - 1) == n - 1);
            }
            assert(bd[k] < p < run_end(bd, k, n - 1));
        }
    }
    assert forall|k: int| 0 < k < b.len() implies capture_gap(s, #[trigger] b[k]) > threshold by {
        assert(capture_gap(s, b[k]) == capture_gap(d, bd[k]));
    }
}

#[verifier::spinoff_prover]
#[verifier::rlimit(40)]
proof fn lemma_burst_shape_split(s: Seq<(i64, ImageId)>, threshold: int)
    requires
        s.len() >= 2,
        burst_shape(s.drop_last(), threshold),
        s.last().0 - s[s.len() - 2].0 > threshold,
    ensures
        burst_shape(s, threshold),
{
    reveal(burst_shape);
    let c = time_clusters(s, threshold);
    let b = burst_starts(s, threshold);
    let n = s.len() as int;
    let d = s.drop_last();
    let cd = time_clusters(d, threshold);
    let bd = burst_starts(d, threshold);
    assert(b == bd.push(n - 1));
    assert(c == cd.push(seq![s.last().1]));
    assert forall|k: int| 0 <= k < b.len() implies #[trigger] c[k] == entry_ids(
        s.subrange(b[k], run_end(b, k, n)),
    ) by {
        if k < bd.len() {
            assert(run_end(b, k, n) == run_end(bd, k, n - 1));
            assert(d.subrange(b[k], run_end(bd, k, n - 1)) =~= s.subrange(b[k], run_end(b, k, n)));
        } else {
            assert(entry_ids(s.subrange(n - 1, n)) =~= seq![s.last().1]);
        }
    }
    assert forall|k: int, p: int|
        #![trigger b[k], capture_gap(s, p)]
        0 <= k < b.len() && b[k] < p < run_end(b, k, n) implies capture_gap(s, p) <= threshold by {
        assert(k < bd.len());
        assert(run_end(b, k, n) == run_end(bd, k, n - 1));
        assert(capture_gap(s, p) == capture_gap(d, p));
        assert(bd[k] < p < run_end(bd, k, n - 1));
    }
    assert forall|k: int| 0 < k < b.len() implies capture_gap(s, #[trigger] b[k]) > threshold by {
        if k < bd.len() {
            assert(capture_gap(s, b[k]) == capture_gap(d, bd[k]));
        }
    }
}

proof fn lemma_burst_shape(s: Seq<(i64, ImageId)>, threshold: int)
    requires
        s.len() > 0,
    ensures
        burst_shape(s, threshold),
    decreases s.len(),
{
    if s.len() == 1 {
        reveal(burst_shape);
        assert(entry_ids(s.subrange(0, 1)) =~= seq![s[0].1]);
    } else {
        lemma_burst_shape(s.drop_last(), threshold);
        if s.last().0 - s[s.len() - 2].0 <= threshold {
            lemma_burst_shape_join(s, threshold);
        } else {
            lemma_burst_shape_split(s, threshold);
        }
    }
}

/// Bursts are the maximal runs of time-ordered captures whose consecutive
/// gaps are within the threshold: each burst holds the ids of one run of
/// consecutive entries, within a burst no gap exceeds the threshold, and
/// between two bursts the gap does.
pub proof fn law_bursts_split_at_gaps(s: Seq<(i64, ImageId)>, threshold: int)
    requires
        s.len() > 0,
    ensures
        ({
            let c = time_clusters(s, threshold);
            let b = burst_starts(s, threshold);
            &&& cuts_into_runs(b, s.len() as int)
            &&& c.len() == b.len()
            &&& forall|k: int|
                0 <= k < b.len() ==> #[trigger] c[k] == entry_ids(
                    s.subrange(b[k], run_end(b, k, s.len() as int)),
                )
            &&& forall|k: int, p: int|
                #![trigger b[k], capture_gap(s, p)]
                0 <= k < b.len() && b[k] < p < run_end(b, k, s.len() as int) ==> capture_gap(s, p) <= threshold
            &&& forall|k: int| 0 < k < b.len() ==> capture_gap(s, #[trigger] b[k]) > threshold
        }),
{
    lemma_burst_shape(s, threshold);
    reveal(burst_shape);
}

/// Indices, among the first `n` images of a cluster, of those that start a
/// scene (see `split_state`).
pub open spec fn split_starts(
    ids: Seq<ImageId>,
    hashes: Seq<Option<Seq<u8>>>,
    threshold: u32,
    n: nat,
) -> Seq<int>
    decreases n,
{
    if n <= 1 {
        seq![0]
    } else {
        let st = split_starts(ids, hashes, threshold, (n - 1) as nat);
        let (_, _, anchor) = split_state(ids, hashes, threshold, (n - 1) as nat);
        if splits_from(anchor, hashes[n - 1], threshold) {
            st.push(n - 1)
        } else {
            st
        }
    }
}

/// Indices of the images of a cluster that start a scene.
pub open spec fn scene_starts(ids: Seq<ImageId>, hashes: Seq<Option<Seq<u8>>>, threshold: u32) -> Seq<int> {
    if ids.len() <= 1 {
        seq![0]
    } else {
        split_starts(ids, hashes, threshold, ids.len())
    }
}

/// The shape of the scenes formed among the first `n` images of a cluster.
#[verifier::opaque]
spec fn split_shape(ids: Seq<ImageId>, hashes: Seq<Option<Seq<u8>>>, threshold: u32, n: nat) -> bool {
    let (done, current, anchor) = split_state(ids, hashes, threshold, n);
    let st = split_starts(ids, hashes, threshold, n);
    &&& cuts_into_runs(st, n as int)
    &&& done.len() + 1 == st.len()
    &&& anchor == first_hash(hashes, st.last(), n as int)
    &&& forall|k: int| 0 <= k < done.len() ==> #[trigger] done[k] == ids.subrange(st[k], run_end(st, k, n as int))
    &&& current == ids.subrange(st.last(), n as int)
    &&& forall|k: int, p: int|
        #![trigger st[k], hashes[p]]
        0 <= k < st.len() && st[k] < p < run_end(st, k, n as int) ==> !splits_from(
            first_hash(hashes, st[k], p),
            hashes[p],
            threshold,
        )
    &&& forall|i: int, j: int|
        #![trigger st[i], st[j]]
        0 <= i && j == i + 1 && j < st.len() ==> splits_from(first_hash(hashes, st[i], st[j]), hashes[st[j]], threshold)
}

#[verifier::spinoff_prover]
#[verifier::rlimit(40)]
proof fn lemma_split_shape_new_scene(ids: Seq<ImageId>, hashes: Seq<Option<Seq<u8>>>, threshold: u32, n: nat)
    requires
        2 <= n <= ids.len(),
        hashes.len() == ids.len(),
        split_shape(ids, hashes, threshold, (n - 1) as nat),
        splits_from(split_state(ids, hashes, threshold, (n - 1) as nat).2, hashes[n - 1], threshold),
    ensures
        split_shape(ids, hashes, threshold, n),
{
    reveal(split_shape);
    let m = (n - 1) as nat;
    let (done0, current0, anchor0) = split_state(ids, hashes, threshold, m);
    let st0 = split_starts(ids, hashes, threshold, m);
    let (done, current, anchor) = split_state(ids, hashes, threshold, n);
    let st = split_starts(ids, hashes, threshold, n);
    let last0 = st0.len() - 1;
    assert(st == st0.push(n - 1));
    assert(done == done0.push(current0));
    assert(current == seq![ids[n - 1]]);
    assert(ids.subrange(n - 1, n as int) =~= seq![ids[n - 1]]);
    assert forall|k: int| 0 <= k < done.len() implies #[trigger] done[k] == ids.subrange(
        st[k],
        run_end(st, k, n as int),
    ) by {
        if k < done0.len() {
            assert(done[k] == done0[k]);
        }
    }
    assert forall|k: int, p: int|
        #![trigger st[k], hashes[p]]
        0 <= k < st.len() && st[k] < p < run_end(st, k, n as int) implies !splits_from(
        first_hash(hashes, st[k], p),
        hashes[p],
        threshold,
    ) by {
        assert(k < st0.len());
        assert(st0[k] == st[k]);
        assert(run_end(st, k, n as int) == run_end(st0, k, m as int));
    }
    assert forall|i: int, j: int|
        #![trigger st[i], st[j]]
        0 <= i && j == i + 1 && j < st.len() implies splits_from(first_hash(hashes, st[i], st[j]), hashes[st[j]], threshold) by {
        if j < st0.len() {
            assert(st0[i] == st[i] && st0[j] == st[j]);
        } else {
            assert(st[i] == st0[last0]);
        }
    }
}

#[verifier::spinoff_prover]
#[verifier::rlimit(40)]
proof fn lemma_split_shape_same_scene(ids: Seq<ImageId>, hashes: Seq<Option<Seq<u8>>>, threshold: u32, n: nat)
    requires
        2 <= n <= ids.len(),
        hashes.len() == ids.len(),
        split_shape(ids, hashes, threshold, (n - 1) as nat),
        !splits_from(split_state(ids, hashes, threshold, (n - 1) as nat).2, hashes[n - 1], threshold),
    ensures
        split_shape(ids, hashes, threshold, n),
{
    reveal(split_shape);
    let m = (n - 1) as nat;
    let (done0, current0, anchor0) = split_state(ids, hashes, threshold, m);
    let st0 = split_starts(ids, hashes, threshold, m);
    let (done, current, anchor) = split_state(ids, hashes, threshold, n);
    let st = split_starts(ids, hashes, threshold, n);
    let last0 = st0.len() - 1;
    assert(st == st0);
    assert(done == done0);
    assert(current == current0.push(ids[n - 1]));
    assert(ids.subrange(st.last(), n as int) =~= ids.subrange(st0.last(), m as int).push(ids[n - 1]));
    assert forall|k: int| 0 <= k < done.len() implies #[trigger] done[k] == ids.subrange(
        st[k],
        run_end(st, k, n as int),
    ) by {
        assert(run_end(st, k, n as int) == run_end(st0, k, m as int));
    }
    assert forall|k: int, p: int|
        #![trigger st[k], hashes[p]]
        0 <= k < st.len() && st[k] < p < run_end(st, k, n as int) implies !splits_from(
        first_hash(hashes, st[k], p),
        hashes[p],
        threshold,
    ) by {
        if p < m {
            if k == last0 {
                assert(run_end(st0, k, m as int) == m);
            }
            assert(st0[k] < p < run_end(st0, k, m as int));
        } else {
            assert(k == last0);
        }
    }
}

proof fn lemma_split_shape(ids: Seq<ImageId>, hashes: Seq<Option<Seq<u8>>>, threshold: u32, n: nat)
    requires
        1 <= n <= ids.len(),
        hashes.len() == ids.len(),
    ensures
        split_shape(ids, hashes, threshold, n),
    decreases n,
{
    if n == 1 {
        reveal(split_shape);
        assert(ids.subrange(0, 1) =~= seq![ids[0]]);
        assert(first_hash(hashes, 0, 0) is None);
        assert(first_hash(hashes, 0, 1) == hashes[0]);
    } else {
        lemma_split_shape(ids, hashes, threshold, (n - 1) as nat);
        if splits_from(split_state(ids, hashes, threshold, (n - 1) as nat).2, hashes[n - 1], threshold) {
            lemma_split_shape_new_scene(ids, hashes, threshold, n);
        } else {
            lemma_split_shape_same_scene(ids, hashes, threshold, n);
        }
    }
}

/// Scenes split a cluster where the composition changes: each scene holds
/// one run of consecutive images of the cluster, and an image starts a new
/// scene exactly when it and the anchor of the scene so far (its first image
/// that has a hash) both have a hash and these differ in more than the
/// threshold.
pub proof fn law_scenes_split_by_hash(ids: Seq<ImageId>, hashes: Seq<Option<Seq<u8>>>, threshold: u32)
    requires
        ids.len() > 0,
        hashes.len() == ids.len(),
    ensures
        ({
            let g = phash_groups(ids, hashes, threshold);
            let b = scene_starts(ids, hashes, threshold);
            &&& cuts_into_runs(b, ids.len() as int)
            &&& g.len() == b.len()
            &&& forall|k: int| 0 <= k < b.len() ==> #[trigger] g[k] == ids.subrange(
                b[k],
                run_end(b, k, ids.len() as int),
            )
            &&& forall|k: int, p: int|
                #![trigger b[k], hashes[p]]
                0 <= k < b.len() && b[k] < p < run_end(b, k, ids.len() as int) ==> !(first_hash(hashes, b[k], p)
                    is Some && hashes[p] is Some && hamming(first_hash(hashes, b[k], p).unwrap(), hashes[p].unwrap())
                    > threshold)
            &&& forall|i: int, j: int|
                #![trigger b[i], b[j]]
                0 <= i && j == i + 1 && j < b.len() ==> first_hash(hashes, b[i], b[j]) is Some && hashes[b[j]]
                    is Some && hamming(first_hash(hashes, b[i], b[j]).unwrap(), hashes[b[j]].unwrap()) > threshold
        }),
{
    let g = phash_groups(ids, hashes, threshold);
    let b = scene_starts(ids, hashes, threshold);
    if ids.len() == 1 {
        assert(ids.subrange(0, 1) =~= ids);
    } else {
        lemma_split_shape(ids, hashes, threshold, ids.len());
        reveal(split_shape);
        let (done, current, _) = split_state(ids, hashes, threshold, ids.len());
        assert forall|k: int| 0 <= k < b.len() implies #[trigger] g[k] == ids.subrange(
            b[k],
            run_end(b, k, ids.len() as int),
        ) by {
            if k < done.len() {
                assert(g[k] == done[k]);
            }
        }
    }
}

/// A cluster in which no image has a perceptual hash (no previews, or
/// ones that do not decode) is never split: it stays one scene.
pub proof fn law_unhashed_cluster_stays_whole(ids: Seq<ImageId>, hashes: Seq<Option<Seq<u8>>>, threshold: u32)
    requires
        ids.len() > 0,
        hashes.len() == ids.len(),
        forall|i: int| 0 <= i < hashes.len() ==> (#[trigger] hashes[i]) is None,
    ensures
        phash_groups(ids, hashes, threshold) == seq![ids],
{
    law_scenes_split_by_hash(ids, hashes, threshold);
    let b = scene_starts(ids, hashes, threshold);
    if b.len() > 1 {
        assert(b[0] == 0 && hashes[b[1]] is Some);
        assert(hashes[b[1]] is None);
    }
    assert(ids.subrange(0, ids.len() as int) =~= ids);
}

/// No two entries share a capture time.
pub open spec fn distinct_times(s: Seq<(i64, ImageId)>) -> bool {
    forall|i: int, j: int| 0 <= i < j < s.len() ==> #[trigger] s[i].0 != #[trigger] s[j].0
}

proof fn lemma_strictly_sorted_prefix(a: Seq<(i64, ImageId)>, b: Seq<(i64, ImageId)>, i: int)
    requires
        sorted_by_time(a),
        sorted_by_time(b),
        distinct_times(a),
        distinct_times(b),
        forall|e: (i64, ImageId)| a.contains(e) <==> b.contains(e),
        0 <= i < a.len(),
        i < b.len(),
    ensures
        forall|k: int| 0 <= k <= i ==> a[k] == b[k],
    decreases i,
{
    if i > 0 {
        lemma_strictly_sorted_prefix(a, b, i - 1);
    }
    assert(a.contains(a[i]));
    let j = choose|j: int| 0 <= j < b.len() && b[j] == a[i];
    if j < i {
        assert(b[j] == a[j]);
        assert(a[j].0 != a[i].0);
    }
    assert(b.contains(b[i]));
    let k = choose|k: int| 0 <= k < a.len() && a[k] == b[i];
    if k < i {
        assert(a[k] == b[k]);
        assert(b[k].0 != b[i].0);
    }
    assert(a[i].0 >= b[i].0);
    assert(b[i].0 >= a[i].0);
    if j != i {
        assert(b[j].0 != b[i].0);
    }
}

/// Two time-sorted sequences without shared capture times that hold the
/// same entries are equal.
proof fn lemma_strictly_sorted_unique(a: Seq<(i64, ImageId)>, b: Seq<(i64, ImageId)>)
    requires
        sorted_by_time(a),
        sorted_by_time(b),
        distinct_times(a),
        distinct_times(b),
        forall|e: (i64, ImageId)| a.contains(e) <==> b.contains(e),
    ensures
        a == b,
{
    let n = if a.len() < b.len() {
        a.len() as int
    } else {
        b.len() as int
    };
    if n > 0 {
        lemma_strictly_sorted_prefix(a, b, n - 1);
    }
    if a.len() > b.len() {
        assert(a.contains(a[n]));
        let j = choose|j: int| 0 <= j < b.len() && b[j] == a[n];
        assert(b[j] == a[j]);
        assert(a[j].0 != a[n].0);
    }
    if b.len() > a.len() {
        assert(b.contains(b[n]));
        let j = choose|j: int| 0 <= j < a.len() && a[j] == b[n];
        assert(a[j] == b[j]);
        assert(b[j].0 != b[n].0);
    }
    assert(a =~= b);
}

/// Every image carries a capture time, and no two share one or an id.
pub open spec fn distinctly_timed(images: Seq<ImageRecord>) -> bool {
    &&& forall|i: int| 0 <= i < images.len() ==> (#[trigger] images[i]).timestamp is Some
    &&& forall|i: int, j: int|
        0 <= i < j < images.len() ==> #[trigger] images[i].timestamp != #[trigger] images[j].timestamp
    &&& forall|i: int, j: int| 0 <= i < j < images.len() ==> #[trigger] images[i].id != #[trigger] images[j].id
}

proof fn lemma_untimed_empty(images: Seq<ImageRecord>)
    requires
        forall|i: int| 0 <= i < images.len() ==> (#[trigger] images[i]).timestamp is Some,
    ensures
        untimed_ids(images) == Seq::<ImageId>::empty(),
    decreases images.len(),
{
    if images.len() > 0 {
        let d = images.drop_last();
        assert forall|i: int| 0 <= i < d.len() implies (#[trigger] d[i]).timestamp is Some by {
            assert(d[i] == images[i]);
        }
        lemma_untimed_empty(d);
        assert(images[images.len() - 1].timestamp is Some);
    }
}

proof fn lemma_timed_distinct_times(images: Seq<ImageRecord>)
    requires
        distinctly_timed(images),
    ensures
        distinct_times(timed_entries(images)),
    decreases images.len(),
{
    if images.len() > 0 {
        let d = images.drop_last();
        assert forall|i: int| 0 <= i < d.len() implies (#[trigger] d[i]).timestamp is Some by {
            assert(d[i] == images[i]);
        }
        assert forall|i: int, j: int| 0 <= i < j < d.len() implies #[trigger] d[i].timestamp
            != #[trigger] d[j].timestamp by {
            assert(d[i] == images[i] && d[j] == images[j]);
        }
        assert forall|i: int, j: int| 0 <= i < j < d.len() implies #[trigger] d[i].id != #[trigger] d[j].id by {
            assert(d[i] == images[i] && d[j] == images[j]);
        }
        lemma_timed_distinct_times(d);
        let n = images.len() - 1;
        assert(images[n].timestamp is Some);
        let t = timed_entries(images);
        let td = timed_entries(d);
        assert(t == td.push((images[n].timestamp.unwrap(), images[n].id)));
        assert forall|i: int, j: int| 0 <= i < j < t.len() implies #[trigger] t[i].0 != #[trigger] t[j].0 by {
            if j == t.len() - 1 {
                assert(td.contains(td[i]));
                lemma_timed_entries_contains(d, td[i]);
                let k = choose|k: int| 0 <= k < d.len() && d[k].timestamp == Some(td[i].0) && d[k].id == td[i].1;
                assert(d[k] == images[k]);
                assert(images[k].timestamp != images[n].timestamp);
            } else {
                assert(t[i] == td[i] && t[j] == td[j]);
            }
        }
    }
}

proof fn lemma_sorted_distinct_times(s: Seq<(i64, ImageId)>)
    requires
        distinct_times(s),
    ensures
        distinct_times(sort_by_time(s)),
{
    let q = sort_by_time(s);
    lemma_sort_by_time(s);
    assert(s.no_duplicates()) by {
        assert forall|i: int, j: int| 0 <= i < s.len() && 0 <= j < s.len() && i != j implies s[i] != s[j] by {
            if i < j {
                assert(s[i].0 != s[j].0);
            } else {
                assert(s[j].0 != s[i].0);
            }
        }
    }
    s.lemma_multiset_has_no_duplicates();
    q.lemma_multiset_has_no_duplicates_conv();
    assert forall|i: int, j: int| 0 <= i < j < q.len() implies #[trigger] q[i].0 != #[trigger] q[j].0 by {
        assert(q[i] != q[j]);
        assert(q.contains(q[i]) && q.contains(q[j]));
        assert(q.to_multiset().count(q[i]) > 0 && q.to_multiset().count(q[j]) > 0);
        assert(s.contains(q[i]) && s.contains(q[j]));
        let p1 = choose|p: int| 0 <= p < s.len() && s[p] == q[i];
        let p2 = choose|p: int| 0 <= p < s.len() && s[p] == q[j];
        if p1 < p2 {
            assert(s[p1].0 != s[p2].0);
        } else if p2 < p1 {
            assert(s[p2].0 != s[p1].0);
        }
    }
}

proof fn lemma_reordered_distinctly_timed(images: Seq<ImageRecord>, reordered: Seq<ImageRecord>)
    requires
        reordered.to_multiset() == images.to_multiset(),
        distinctly_timed(images),
    ensures
        distinctly_timed(reordered),
        forall|r: ImageRecord| images.contains(r) <==> reordered.contains(r),
{
    assert forall|r: ImageRecord| images.contains(r) <==> reordered.contains(r) by {
        vstd::seq_lib::to_multiset_contains(images, r);
        vstd::seq_lib::to_multiset_contains(reordered, r);
    }
    assert(images.no_duplicates()) by {
        assert forall|i: int, j: int| 0 <= i < images.len() && 0 <= j < images.len() && i != j implies images[i]
            != images[j] by {
            if i < j {
                assert(images[i].id != images[j].id);
            } else {
                assert(images[j].id != images[i].id);
            }
        }
    }
    images.lemma_multiset_has_no_duplicates();
    reordered.lemma_multiset_has_no_duplicates_conv();
    assert forall|i: int| 0 <= i < reordered.len() implies (#[trigger] reordered[i]).timestamp is Some by {
        assert(reordered.contains(reordered[i]));
        let p = choose|p: int| 0 <= p < images.len() && images[p] == reordered[i];
        assert(images[p].timestamp is Some);
    }
    assert forall|i: int, j: int| 0 <= i < j < reordered.len() implies #[trigger] reordered[i].timestamp
        != #[trigger] reordered[j].timestamp && reordered[i].id != reordered[j].id by {
        assert(reordered[i] != reordered[j]);
        assert(reordered.contains(reordered[i]) && reordered.contains(reordered[j]));
        let p1 = choose|p: int| 0 <= p < images.len() && images[p] == reordered[i];
        let p2 = choose|p: int| 0 <= p < images.len() && images[p] == reordered[j];
        if p1 < p2 {
            assert(images[p1].timestamp != images[p2].timestamp && images[p1].id != images[p2].id);
        } else if p2 < p1 {
            assert(images[p2].timestamp != images[p1].timestamp && images[p2].id != images[p1].id);
        }
    }
    assert forall|i: int, j: int| 0 <= i < j < reordered.len() implies #[trigger] reordered[i].id
        != #[trigger] reordered[j].id by {
        assert(reordered[i].timestamp != reordered[j].timestamp && reordered[i].id != reordered[j].id);
    }
}

proof fn lemma_first_image_of_distinct(images: Seq<ImageRecord>, id: ImageId)
    requires
        is_image_id(images, id),
        forall|i: int, j: int| 0 <= i < j < images.len() ==> #[trigger] images[i].id != #[trigger] images[j].id,
    ensures
        0 <= first_image_index(images, id) < images.len(),
        images[first_image_index(images, id)].id == id,
{
    let k = choose|k: int| 0 <= k < images.len() && images[k].id == id;
    assert forall|j: int| 0 <= j < k implies images[j].id != id by {
        assert(images[j].id != images[k].id);
    }
}

proof fn lemma_cluster_hashes_agree(images: Seq<ImageRecord>, reordered: Seq<ImageRecord>, ids: Seq<ImageId>)
    requires
        distinctly_timed(images),
        distinctly_timed(reordered),
        forall|r: ImageRecord| images.contains(r) <==> reordered.contains(r),
        forall|j: int| 0 <= j < ids.len() ==> is_image_id(images, #[trigger] ids[j]),
    ensures
        cluster_hashes(reordered, ids) == cluster_hashes(images, ids),
{
    reveal(cluster_hashes);
    assert forall|j: int| 0 <= j < ids.len() implies record_hash(
        reordered[first_image_index(reordered, #[trigger] ids[j])],
    ) == record_hash(images[first_image_index(images, ids[j])]) by {
        let id = ids[j];
        lemma_first_image_of_distinct(images, id);
        let r = images[first_image_index(images, id)];
        assert(images.contains(r));
        assert(reordered.contains(r));
        let q = choose|q: int| 0 <= q < reordered.len() && reordered[q] == r;
        assert(is_image_id(reordered, id)) by {
            assert(reordered[q].id == id);
        }
        lemma_first_image_of_distinct(reordered, id);
        let k = first_image_index(reordered, id);
        if k != q {
            if k < q {
                assert(reordered[k].id != reordered[q].id);
            } else {
                assert(reordered[q].id != reordered[k].id);
            }
        }
    }
    assert(cluster_hashes(reordered, ids) =~= cluster_hashes(images, ids));
}

proof fn lemma_scene_groups_of_agree(
    images: Seq<ImageRecord>,
    reordered: Seq<ImageRecord>,
    clusters: Seq<Seq<ImageId>>,
    th: u32,
)
    requires
        distinctly_timed(images),
        distinctly_timed(reordered),
        forall|r: ImageRecord| images.contains(r) <==> reordered.contains(r),
        forall|i: int, j: int|
            0 <= i < clusters.len() && 0 <= j < clusters[i].len() ==> is_image_id(images, #[trigger] clusters[i][j]),
    ensures
        scene_groups_of(reordered, clusters, th) == scene_groups_of(images, clusters, th),
    decreases clusters.len(),
{
    if clusters.len() > 0 {
        let d = clusters.drop_last();
        assert forall|i: int, j: int| 0 <= i < d.len() && 0 <= j < d[i].len() implies is_image_id(
            images,
            #[trigger] d[i][j],
        ) by {
            assert(d[i] == clusters[i]);
        }
        lemma_scene_groups_of_agree(images, reordered, d, th);
        let last = clusters.last();
        assert forall|j: int| 0 <= j < last.len() implies is_image_id(images, #[trigger] last[j]) by {
            assert(last[j] == clusters[clusters.len() - 1][j]);
        }
        lemma_cluster_hashes_agree(images, reordered, last);
    }
}

/// When every image carries a capture time and no two share a capture time
/// or an id, the scenes do not depend on the order in which the images are
/// given.
pub proof fn law_stacking_ignores_input_order(
    images: Seq<ImageRecord>,
    reordered: Seq<ImageRecord>,
    config: StackingConfig,
)
    requires
        reordered.to_multiset() == images.to_multiset(),
        distinctly_timed(images),
    ensures
        scene_groups(reordered, config) == scene_groups(images, config),
{
    lemma_reordered_distinctly_timed(images, reordered);
    let th = config.burst_threshold_ms;
    let t1 = timed_entries(images);
    let t2 = timed_entries(reordered);
    lemma_timed_distinct_times(images);
    lemma_timed_distinct_times(reordered);
    lemma_sorted_distinct_times(t1);
    lemma_sorted_distinct_times(t2);
    lemma_sort_by_time(t1);
    lemma_sort_by_time(t2);
    let s1 = sort_by_time(t1);
    let s2 = sort_by_time(t2);
    assert forall|e: (i64, ImageId)| s1.contains(e) <==> s2.contains(e) by {
        assert(s1.to_multiset().count(e) == t1.to_multiset().count(e));
        assert(s2.to_multiset().count(e) == t2.to_multiset().count(e));
        lemma_timed_entries_contains(images, e);
        lemma_timed_entries_contains(reordered, e);
        if t1.contains(e) {
            let k = choose|k: int| 0 <= k < images.len() && images[k].timestamp == Some(e.0) && images[k].id == e.1;
            assert(images.contains(images[k]));
            let q = choose|q: int| 0 <= q < reordered.len() && reordered[q] == images[k];
            assert(reordered[q].timestamp == Some(e.0) && reordered[q].id == e.1);
        }
        if t2.contains(e) {
            let k = choose|k: int|
                0 <= k < reordered.len() && reordered[k].timestamp == Some(e.0) && reordered[k].id == e.1;
            assert(reordered.contains(reordered[k]));
            let q = choose|q: int| 0 <= q < images.len() && images[q] == reordered[k];
            assert(images[q].timestamp == Some(e.0) && images[q].id == e.1);
        }
    }
    lemma_strictly_sorted_unique(s1, s2);
    lemma_untimed_empty(images);
    lemma_untimed_empty(reordered);
    let c = stack_clusters(images, th);
    assert(stack_clusters(reordered, th) == c);
    assert forall|i: int, j: int| 0 <= i < c.len() && 0 <= j < c[i].len() implies is_image_id(
        images,
        #[trigger] c[i][j],
    ) by {
        lemma_cluster_members(images, th, i, j);
    }
    lemma_scene_groups_of_agree(images, reordered, c, config.phash_similarity_threshold);
}

/// Stacking partitions the images: every scene is nonempty, and taken
/// together the scenes hold each image id exactly as often as the input does.
pub proof fn law_stacking_partitions_images(images: Seq<ImageRecord>, config: StackingConfig)
    ensures
        scene_groups(images, config).flatten_alt().to_multiset() == image_ids(images).to_multiset(),
        forall|i: int|
            0 <= i < scene_groups(images, config).len() ==> (#[trigger] scene_groups(images, config)[i]).len() > 0,
        scene_groups(images, config).len() <= images.len(),
{
    let c = stack_clusters(images, config.burst_threshold_ms);
    lemma_stack_clusters_cover(images, config.burst_threshold_ms);
    lemma_scene_groups_of_flatten(images, c, config.phash_similarity_threshold);
    let g = scene_groups(images, config);
    lemma_nonempty_groups_count(g);
    assert(g.flatten_alt().len() == g.flatten_alt().to_multiset().len());
    assert(image_ids(images).len() == image_ids(images).to_multiset().len());
}

proof fn lemma_scene_groups_of_prefix(images: Seq<ImageRecord>, clusters: Seq<Seq<ImageId>>, th: u32, c: int)
    requires
        0 <= c < clusters.len(),
    ensures
        scene_groups_of(images, clusters.take(c), th).len() + phash_groups(
            clusters[c],
            cluster_hashes(images, clusters[c]),
            th,
        ).len() <= scene_groups_of(images, clusters, th).len(),
    decreases clusters.len(),
{
    let d = clusters.drop_last();
    if c < clusters.len() - 1 {
        lemma_scene_groups_of_prefix(images, d, th, c);
        assert(d.take(c) =~= clusters.take(c));
        assert(d[c] == clusters[c]);
    } else {
        assert(d =~= clusters.take(c));
    }
}

/// The images that have no capture time, in input order.
pub open spec fn without_capture_time(images: Seq<ImageRecord>) -> Seq<ImageRecord> {
    images.filter(|r: ImageRecord| r.timestamp is None)
}

proof fn lemma_untimed_ids_are_filtered(images: Seq<ImageRecord>)
    ensures
        untimed_ids(images) == image_ids(without_capture_time(images)),
    decreases images.len(),
{
    reveal(Seq::filter);
    if images.len() > 0 {
        let d = images.drop_last();
        lemma_untimed_ids_are_filtered(d);
        let w = without_capture_time(d);
        assert(image_ids(w.push(images.last())) =~= image_ids(w).push(images.last().id));
    } else {
        assert(image_ids(without_capture_time(images)) =~= Seq::<ImageId>::empty());
    }
}

proof fn lemma_untimed_image_position(images: Seq<ImageRecord>, j: int)
    requires
        0 <= j < images.len(),
        images[j].timestamp is None,
    ensures
        without_capture_time(images.take(j)).len() < without_capture_time(images).len(),
        without_capture_time(images)[without_capture_time(images.take(j)).len() as int] == images[j],
{
    let p = |r: ImageRecord| r.timestamp is None;
    let x = images[j];
    let rest = images.skip(j + 1);
    assert(images =~= images.take(j) + (seq![x] + rest));
    Seq::filter_distributes_over_add(images.take(j), seq![x] + rest, p);
    Seq::filter_distributes_over_add(seq![x], rest, p);
    reveal(Seq::filter);
    assert(seq![x].drop_last() =~= Seq::<ImageRecord>::empty());
    assert(seq![x].filter(p) =~= seq![x]);
    let w = without_capture_time(images);
    let wj = without_capture_time(images.take(j));
    assert(w == wj + (seq![x] + rest.filter(p)));
    assert(w[wj.len() as int] == x);
}

proof fn lemma_scene_groups_of_append(
    images: Seq<ImageRecord>,
    c1: Seq<Seq<ImageId>>,
    c2: Seq<Seq<ImageId>>,
    th: u32,
)
    ensures
        scene_groups_of(images, c1 + c2, th) == scene_groups_of(images, c1, th) + scene_groups_of(images, c2, th),
    decreases c2.len(),
{
    if c2.len() == 0 {
        assert(c1 + c2 =~= c1);
        assert(scene_groups_of(images, c1, th) + scene_groups_of(images, c2, th) =~= scene_groups_of(
            images,
            c1,
            th,
        ));
    } else {
        let d2 = c2.drop_last();
        lemma_scene_groups_of_append(images, c1, d2, th);
        assert((c1 + c2).drop_last() =~= c1 + d2);
        assert((c1 + c2).last() == c2.last());
        let a = scene_groups_of(images, c1, th);
        let b = scene_groups_of(images, d2, th);
        let pg = phash_groups(c2.last(), cluster_hashes(images, c2.last()), th);
        assert((a + b) + pg =~= a + (b + pg));
    }
}

proof fn lemma_scene_groups_of_singletons(images: Seq<ImageRecord>, ids: Seq<ImageId>, th: u32)
    ensures
        scene_groups_of(images, singletons(ids), th) == singletons(ids),
    decreases ids.len(),
{
    if ids.len() == 0 {
        assert(singletons(ids) =~= Seq::<Seq<ImageId>>::empty());
    } else {
        let d = ids.drop_last();
        lemma_scene_groups_of_singletons(images, d, th);
        assert(singletons(ids).drop_last() =~= singletons(d));
        assert(singletons(ids).last() == seq![ids.last()]);
        assert(singletons(ids) =~= singletons(d) + seq![seq![ids.last()]]);
    }
}

/// Each image without a capture time becomes a scene of its own, and these
/// scenes come last, after the scenes of the timed bursts, in the order in
/// which the images appear in the input: the untimed image that has `k`
/// untimed images before it in the input is alone in scene number
/// (scenes of the bursts) + `k`.
pub proof fn law_untimed_images_trail_as_singletons(images: Seq<ImageRecord>, config: StackingConfig)
    ensures
        without_capture_time(images).len() <= scene_groups(images, config).len(),
        scene_groups(images, config).take(
            scene_groups(images, config).len() - without_capture_time(images).len(),
        ) == scene_groups_of(
            images,
            time_clusters(sort_by_time(timed_entries(images)), config.burst_threshold_ms as int),
            config.phash_similarity_threshold,
        ),
        scene_groups(images, config).skip(scene_groups(images, config).len() - without_capture_time(images).len())
            == without_capture_time(images).map_values(|r: ImageRecord| seq![r.id]),
        forall|j: int|
            0 <= j < images.len() && (#[trigger] images[j]).timestamp is None ==> scene_groups(images, config)[
            scene_groups(images, config).len() - without_capture_time(images).len() + without_capture_time(
                images.take(j),
            ).len()] == seq![images[j].id],
{
    let th = config.phash_similarity_threshold;
    let t = time_clusters(sort_by_time(timed_entries(images)), config.burst_threshold_ms as int);
    let u = untimed_ids(images);
    let w = without_capture_time(images);
    lemma_scene_groups_of_append(images, t, singletons(u), th);
    lemma_scene_groups_of_singletons(images, u, th);
    lemma_untimed_ids_are_filtered(images);
    let a = scene_groups_of(images, t, th);
    let g = scene_groups(images, config);
    assert(g == a + singletons(u));
    assert(u.len() == w.len());
    assert(g.take(a.len() as int) =~= a);
    assert(singletons(u) =~= w.map_values(|r: ImageRecord| seq![r.id]));
    assert(g.skip(a.len() as int) =~= singletons(u));
    assert forall|j: int| 0 <= j < images.len() && (#[trigger] images[j]).timestamp is None implies g[a.len()
        + without_capture_time(images.take(j)).len() as int] == seq![images[j].id] by {
        lemma_untimed_image_position(images, j);
    }
}

/// Groups images into scenes: bursts by capture time, each burst split
/// where the composition changes (perceptual-hash distance from the scene's
/// first image that has a hash above the threshold). Capture times and the
/// burst threshold are in milliseconds. Scenes are numbered from 1 and have
/// no keeper yet.
pub fn stack_scenes(images: &[ImageRecord], config: &StackingConfig) -> (r: Vec<Scene>)
    requires
        gaps_representable(images@),
    ensures
        r@.len() == scene_groups(images@, *config).len(),
        forall|i: int|
            0 <= i < r@.len() ==> (#[trigger] r@[i]).id == i + 1 && r@[i].image_ids@ == scene_groups(
                images@,
                *config,
            )[i] && r@[i].keeper_id is None,
{
    let ghost g = scene_groups(images@, *config);
    let ghost cs = stack_clusters(images@, config.burst_threshold_ms);
    let threshold = config.phash_similarity_threshold;
    let n_images = images.len();
    let mut scenes: Vec<Scene> = Vec::new();
    if images.len() == 0 {
        proof {
            law_stacking_partitions_images(images@, *config);
        }
        return scenes;
    }
    let clusters = cluster_by_timestamp(images, config.burst_threshold_ms);
    proof {
        law_stacking_partitions_images(images@, *config);
    }
    let mut c: usize = 0;
    while c < clusters.len()
        invariant
            c <= clusters@.len(),
            cluster_views(clusters@) == cs,
            cs == stack_clusters(images@, config.burst_threshold_ms),
            g == scene_groups(images@, *config),
            g == scene_groups_of(images@, cs, threshold),
            threshold == config.phash_similarity_threshold,
            g.len() <= images@.len(),
            n_images == images@.len(),
            scenes@.len() == scene_groups_of(images@, cs.take(c as int), threshold).len(),
            forall|i: int|
                0 <= i < scenes@.len() ==> (#[trigger] scenes@[i]).id == i + 1 && scenes@[i].image_ids@
                    == scene_groups_of(images@, cs.take(c as int), threshold)[i] && scenes@[i].keeper_id is None,
        decreases clusters@.len() - c,
    {
        let ghost before = scene_groups_of(images@, cs.take(c as int), threshold);
        proof {
            assert(clusters@[c as int]@ == cs[c as int]);
            assert forall|j: int| 0 <= j < clusters@[c as int]@.len() implies is_image_id(
                images@,
                #[trigger] clusters@[c as int]@[j],
            ) by {
                lemma_cluster_members(images@, config.burst_threshold_ms, c as int, j);
            }
            lemma_scene_groups_of_prefix(images@, cs, threshold, c as int);
        }
        let groups = split_by_phash(images, &clusters[c], threshold);
        let ghost pg = phash_groups(cs[c as int], cluster_hashes(images@, cs[c as int]), threshold);
        assert(cs.take(c + 1).drop_last() =~= cs.take(c as int));
        assert(scene_groups_of(images@, cs.take(c + 1), threshold) == before + pg);
        let mut k: usize = 0;
        while k < groups.len()
            invariant
                k <= groups@.len(),
                cluster_views(groups@) == pg,
                before.len() + pg.len() <= g.len(),
                g.len() <= images@.len(),
                n_images == images@.len(),
                scenes@.len() == before.len() + k,
                forall|i: int|
                    0 <= i < scenes@.len() ==> (#[trigger] scenes@[i]).id == i + 1 && scenes@[i].image_ids@
                        == (before + pg)[i] && scenes@[i].keeper_id is None,
            decreases groups@.len() - k,
        {
            let ids = groups[k].clone();
            assert(ids@ =~= groups@[k as int]@);
            assert(scenes@.len() < images@.len());
            assert(images@.len() <= usize::MAX);
            let id: u64 = scenes.len() as u64 + 1;
            scenes.push(Scene { id, image_ids: ids, keeper_id: None });
            k = k + 1;
        }
        c = c + 1;
    }
    assert(cs.take(c as int) =~= cs);
    scenes
}

} // verus!

use vstd::prelude::*;

use crate::stacker::{gaps_representable, scene_groups, stack_scenes};
use crate::types::{ImageId, ImageRecord, RejectReason, Scene, StackingConfig, Verdict};

verus! {

/// What the analysis of one image found. The sharpness score is carried as
/// `sharpness_rank`, an integer that orders images as their scores do.
#[derive(Debug, Clone, Copy, PartialEq, Eq, Structural)]
pub struct ImageScore {
    pub image_id: ImageId,
    pub sharpness_rank: u64,
    pub has_face: bool,
    pub blink_detected: bool,
    pub verdict: Verdict,
}

/// Index of the sharpest candidate; among equally sharp ones the last.
pub open spec fn last_max_index(c: Seq<(ImageId, u64)>) -> int
    decreases c.len(),
{
    if c.len() <= 1 {
        0
    } else {
        let j = last_max_index(c.drop_last());
        if c.last().1 >= c[j].1 {
            c.len() - 1
        } else {
            j
        }
    }
}

/// The id of the sharpest candidate (the last one among equals); none for no
/// candidates.
pub open spec fn spec_pick(c: Seq<(ImageId, u64)>) -> Option<ImageId> {
    if c.len() == 0 {
        None
    } else {
        Some(c[last_max_index(c)].0)
    }
}

/// The candidate `last_max_index` picks is at least as sharp as every other
/// and sharper than every later one.
pub proof fn lemma_last_max_index(c: Seq<(ImageId, u64)>)
    requires
        c.len() > 0,
    ensures
        0 <= last_max_index(c) < c.len(),
        forall|j: int| 0 <= j < c.len() ==> (#[trigger] c[j]).1 <= c[last_max_index(c)].1,
        forall|j: int| last_max_index(c) < j < c.len() ==> (#[trigger] c[j]).1 < c[last_max_index(c)].1,
    decreases c.len(),
{
    if c.len() > 1 {
        let d = c.drop_last();
        lemma_last_max_index(d);
        let j = last_max_index(d);
        assert(d[j] == c[j]);
        assert forall|k: int| 0 <= k < d.len() implies c[k].1 == d[k].1 by {}
    }
}

/// Picks the keeper among `(image id, sharpness rank)` pairs: the sharpest,
/// and among equally sharp ones the last; none for no candidates.
pub fn pick_keeper(scores: &[(ImageId, u64)]) -> (r: Option<ImageId>)
    ensures
        r == spec_pick(scores@),
        r is None <==> scores@.len() == 0,
        r matches Some(id) ==> exists|i: int|
            0 <= i < scores@.len() && scores@[i].0 == id && (forall|j: int|
                0 <= j < scores@.len() ==> scores@[j].1 <= scores@[i].1) && (forall|j: int|
                i < j < scores@.len() ==> scores@[j].1 < scores@[i].1),
{
    if scores.len() == 0 {
        return None;
    }
    let mut best: usize = 0;
    let mut i: usize = 1;
    while i < scores.len()
        invariant
            1 <= i <= scores@.len(),
            best == last_max_index(scores@.take(i as int)),
        decreases scores@.len() - i,
    {
        assert(scores@.take(i + 1).drop_last() =~= scores@.take(i as int));
        proof {
            lemma_last_max_index(scores@.take(i as int));
        }
        if scores[i].1 >= scores[best].1 {
            best = i;
        }
        i = i + 1;
    }
    assert(scores@.take(i as int) =~= scores@);
    proof {
        lemma_last_max_index(scores@);
    }
    Some(scores[best].0)
}

/// Some analysis result carries this image id.
#[verifier::opaque]
pub open spec fn has_score(scores: Seq<ImageScore>, id: ImageId) -> bool {
    exists|i: int| 0 <= i < scores.len() && scores[i].image_id == id
}

/// Index of the last analysis result for `id` (a later result for the same
/// id replaces an earlier one).
#[verifier::opaque]
pub open spec fn score_index(scores: Seq<ImageScore>, id: ImageId) -> int {
    choose|i: int|
        0 <= i < scores.len() && scores[i].image_id == id && forall|j: int|
            i < j < scores.len() ==> scores[j].image_id != id
}

/// `(id, sharpness rank)` of the images of a scene that have an analysis
/// result, in scene order.
pub open spec fn scene_candidates(ids: Seq<ImageId>, scores: Seq<ImageScore>) -> Seq<(ImageId, u64)>
    decreases ids.len(),
{
    if ids.len() == 0 {
        seq![]
    } else {
        let rest = scene_candidates(ids.drop_last(), scores);
        if has_score(scores, ids.last()) {
            rest.push((ids.last(), scores[score_index(scores, ids.last())].sharpness_rank))
        } else {
            rest
        }
    }
}

/// The candidates of a scene whose analysis found no blink.
pub open spec fn open_eyed_candidates(ids: Seq<ImageId>, scores: Seq<ImageScore>) -> Seq<(ImageId, u64)>
    decreases ids.len(),
{
    if ids.len() == 0 {
        seq![]
    } else {
        let rest = open_eyed_candidates(ids.drop_last(), scores);
        if has_score(scores, ids.last()) && !scores[score_index(scores, ids.last())].blink_detected {
            rest.push((ids.last(), scores[score_index(scores, ids.last())].sharpness_rank))
        } else {
            rest
        }
    }
}

/// The keeper of a scene: the sharpest image without a blink, or, where
/// every image blinked, the sharpest image.
pub open spec fn scene_keeper(ids: Seq<ImageId>, scores: Seq<ImageScore>) -> Option<ImageId> {
    let open_eyed = open_eyed_candidates(ids, scores);
    if open_eyed.len() > 0 {
        spec_pick(open_eyed)
    } else {
        spec_pick(scene_candidates(ids, scores))
    }
}

fn find_score(scores: &[ImageScore], id: ImageId) -> (r: Option<usize>)
    ensures
        match r {
            Some(i) => has_score(scores@, id) && i == score_index(scores@, id) && i < scores@.len(),
            None => !has_score(scores@, id),
        },
{
    reveal(has_score);
    reveal(score_index);
    let mut k: usize = scores.len();
    while k > 0
        invariant
            k <= scores@.len(),
            forall|j: int| k <= j < scores@.len() ==> scores@[j].image_id != id,
        decreases k,
    {
        if scores[k - 1].image_id == id {
            proof {
                reveal(has_score);
                reveal(score_index);
            }
            let ghost f = score_index(scores@, id);
            assert(scores@[k - 1].image_id == id);
            assert(f == k - 1) by {
                if f < k - 1 {
                    assert(scores@[k - 1].image_id != id);
                }
            }
            return Some(k - 1);
        }
        k = k - 1;
    }
    None
}

/// The keeper of one scene (see `scene_keeper`).
fn keeper_of_scene(ids: &Vec<ImageId>, scores: &[ImageScore]) -> (r: Option<ImageId>)
    ensures
        r == scene_keeper(ids@, scores@),
{
    let mut all: Vec<(ImageId, u64)> = Vec::new();
    let mut open_eyed: Vec<(ImageId, u64)> = Vec::new();
    let mut i: usize = 0;
    while i < ids.len()
        invariant
            i <= ids@.len(),
            all@ == scene_candidates(ids@.take(i as int), scores@),
            open_eyed@ == open_eyed_candidates(ids@.take(i as int), scores@),
        decreases ids@.len() - i,
    {
        assert(ids@.take(i + 1).drop_last() =~= ids@.take(i as int));
        let id = ids[i];
        match find_score(scores, id) {
            Some(k) => {
                let s = scores[k];
                all.push((id, s.sharpness_rank));
                if !s.blink_detected {
                    open_eyed.push((id, s.sharpness_rank));
                }
            },
            None => {},
        }
        i = i + 1;
    }
    assert(ids@.take(i as int) =~= ids@);
    if open_eyed.len() > 0 {
        pick_keeper(open_eyed.as_slice())
    } else {
        pick_keeper(all.as_slice())
    }
}

/// Chooses the keeper of every scene (see `scene_keeper`); ids and members
/// of the scenes stay as they are.
pub fn select_keepers(scenes: &mut Vec<Scene>, scores: &[ImageScore])
    ensures
        final(scenes)@.len() == old(scenes)@.len(),
        forall|i: int|
            0 <= i < final(scenes)@.len() ==> (#[trigger] final(scenes)@[i]).id == old(scenes)@[i].id
                && final(scenes)@[i].image_ids@ == old(scenes)@[i].image_ids@
                && final(scenes)@[i].keeper_id == scene_keeper(old(scenes)@[i].image_ids@, scores@),
{
    let mut i: usize = 0;
    while i < scenes.len()
        invariant
            i <= scenes@.len(),
            scenes@.len() == old(scenes)@.len(),
            forall|j: int|
                0 <= j < scenes@.len() ==> (#[trigger] scenes@[j]).id == old(scenes)@[j].id
                    && scenes@[j].image_ids@ == old(scenes)@[j].image_ids@,
            forall|j: int|
                0 <= j < i ==> (#[trigger] scenes@[j]).keeper_id == scene_keeper(
                    old(scenes)@[j].image_ids@,
                    scores@,
                ),
        decreases scenes@.len() - i,
    {
        let keeper = keeper_of_scene(&scenes[i].image_ids, scores);
        scenes[i].keeper_id = keeper;
        i = i + 1;
    }
}

/// Some scene chose this image as its keeper.
pub open spec fn is_keeper(scenes: Seq<Scene>, id: ImageId) -> bool {
    exists|k: int| 0 <= k < scenes.len() && scenes[k].keeper_id == Some(id)
}

/// Final verdict of an image: keeper where a scene chose it, reject for a
/// blink otherwise, and else what the analysis said.
pub open spec fn final_verdict(score: ImageScore, scenes: Seq<Scene>) -> Verdict {
    if is_keeper(scenes, score.image_id) {
        Verdict::Keeper
    } else if score.blink_detected {
        Verdict::Reject { reason: RejectReason::Blink }
    } else {
        score.verdict
    }
}

/// The analysis result with its final verdict.
pub open spec fn with_final_verdict(score: ImageScore, scenes: Seq<Scene>) -> ImageScore {
    ImageScore { verdict: final_verdict(score, scenes), ..score }
}

fn chosen_as_keeper(scenes: &[Scene], id: ImageId) -> (r: bool)
    ensures
        r == is_keeper(scenes@, id),
{
    let mut k: usize = 0;
    while k < scenes.len()
        invariant
            k <= scenes@.len(),
            forall|j: int| 0 <= j < k ==> scenes@[j].keeper_id != Some(id),
        decreases scenes@.len() - k,
    {
        match scenes[k].keeper_id {
            Some(kid) => {
                if kid == id {
                    return true;
                }
            },
            None => {},
        }
        k = k + 1;
    }
    false
}

/// Gives every image its final verdict (see `final_verdict`).
pub fn assign_verdicts(scores: &mut Vec<ImageScore>, scenes: &[Scene])
    ensures
        final(scores)@.len() == old(scores)@.len(),
        forall|i: int|
            0 <= i < final(scores)@.len() ==> #[trigger] final(scores)@[i] == with_final_verdict(
                old(scores)@[i],
                scenes@,
            ),
{
    let mut i: usize = 0;
    while i < scores.len()
        invariant
            i <= scores@.len(),
            scores@.len() == old(scores)@.len(),
            forall|j: int| i <= j < scores@.len() ==> #[trigger] scores@[j] == old(scores)@[j],
            forall|j: int|
                0 <= j < i ==> #[trigger] scores@[j] == with_final_verdict(old(scores)@[j], scenes@),
        decreases scores@.len() - i,
    {
        let s = scores[i];
        let verdict = if chosen_as_keeper(scenes, s.image_id) {
            Verdict::Keeper
        } else if s.blink_detected {
            Verdict::Reject { reason: RejectReason::Blink }
        } else {
            s.verdict
        };
        scores[i] = ImageScore { verdict, ..s };
        i = i + 1;
    }
}

/// How many results carry a keeper verdict.
pub open spec fn keeper_count(scores: Seq<ImageScore>) -> nat
    decreases scores.len(),
{
    if scores.len() == 0 {
        0
    } else {
        keeper_count(scores.drop_last()) + if scores.last().verdict is Keeper { 1nat } else { 0nat }
    }
}

/// How many results carry a reject verdict.
pub open spec fn reject_count(scores: Seq<ImageScore>) -> nat
    decreases scores.len(),
{
    if scores.len() == 0 {
        0
    } else {
        reject_count(scores.drop_last()) + if scores.last().verdict is Reject { 1nat } else { 0nat }
    }
}

/// How many results are unrated.
pub open spec fn unrated_count(scores: Seq<ImageScore>) -> nat
    decreases scores.len(),
{
    if scores.len() == 0 {
        0
    } else {
        unrated_count(scores.drop_last()) + if scores.last().verdict is Unrated { 1nat } else { 0nat }
    }
}

proof fn lemma_counts_bounded(scores: Seq<ImageScore>)
    ensures
        keeper_count(scores) + reject_count(scores) + unrated_count(scores) == scores.len(),
    decreases scores.len(),
{
    if scores.len() > 0 {
        lemma_counts_bounded(scores.drop_last());
    }
}

/// Number of keepers, rejects and unrated images among the results.
fn count_verdicts(scores: &Vec<ImageScore>) -> (r: (usize, usize, usize))
    ensures
        r.0 == keeper_count(scores@),
        r.1 == reject_count(scores@),
        r.2 == unrated_count(scores@),
{
    let mut keepers: usize = 0;
    let mut rejects: usize = 0;
    let mut unrated: usize = 0;
    let mut i: usize = 0;
    while i < scores.len()
        invariant
            i <= scores@.len(),
            keepers == keeper_count(scores@.take(i as int)),
            rejects == reject_count(scores@.take(i as int)),
            unrated == unrated_count(scores@.take(i as int)),
        decreases scores@.len() - i,
    {
        assert(scores@.take(i + 1).drop_last() =~= scores@.take(i as int));
        proof {
            lemma_counts_bounded(scores@.take(i as int));
        }
        match scores[i].verdict {
            Verdict::Keeper => keepers = keepers + 1,
            Verdict::Reject { .. } => rejects = rejects + 1,
            Verdict::Unrated => unrated = unrated + 1,
        }
        i = i + 1;
    }
    assert(scores@.take(i as int) =~= scores@);
    (keepers, rejects, unrated)
}

/// Outcome of a cull: the scenes with their keepers and every image's
/// analysis result with its final verdict.
#[derive(Debug, Clone)]
pub struct CullManifest {
    pub total_images: usize,
    pub total_scenes: usize,
    pub total_keepers: usize,
    pub total_rejects: usize,
    pub total_unrated: usize,
    pub scenes: Vec<Scene>,
    pub image_scores: Vec<ImageScore>,
}

/// Culls a set of images given their analysis results: stacks them into
/// scenes, chooses each scene's keeper and settles every image's verdict.
/// No images give an empty manifest.
pub fn cull_manifest(images: &[ImageRecord], config: &StackingConfig, image_scores: Vec<ImageScore>) -> (m: CullManifest)
    requires
        gaps_representable(images@),
    ensures
        images@.len() == 0 ==> m.total_images == 0 && m.total_scenes == 0 && m.total_keepers == 0
            && m.total_rejects == 0 && m.total_unrated == 0 && m.scenes@.len() == 0
            && m.image_scores@.len() == 0,
        images@.len() > 0 ==> {
            &&& m.total_images == images@.len()
            &&& m.scenes@.len() == scene_groups(images@, *config).len()
            &&& forall|i: int|
                0 <= i < m.scenes@.len() ==> (#[trigger] m.scenes@[i]).id == i + 1
                    && m.scenes@[i].image_ids@ == scene_groups(images@, *config)[i]
                    && m.scenes@[i].keeper_id == scene_keeper(scene_groups(images@, *config)[i], image_scores@)
            &&& m.image_scores@.len() == image_scores@.len()
            &&& forall|i: int|
                0 <= i < m.image_scores@.len() ==> #[trigger] m.image_scores@[i] == with_final_verdict(
                    image_scores@[i],
                    m.scenes@,
                )
        },
        m.total_scenes == m.scenes@.len(),
        m.total_keepers == keeper_count(m.image_scores@),
        m.total_rejects == reject_count(m.image_scores@),
        m.total_unrated == unrated_count(m.image_scores@),
{
    if images.len() == 0 {
        return CullManifest {
            total_images: 0,
            total_scenes: 0,
            total_keepers: 0,
            total_rejects: 0,
            total_unrated: 0,
            scenes: Vec::new(),
            image_scores: Vec::new(),
        };
    }
    let mut scenes = stack_scenes(images, config);
    select_keepers(&mut scenes, image_scores.as_slice());
    let mut final_scores = image_scores;
    assign_verdicts(&mut final_scores, scenes.as_slice());
    let (total_keepers, total_rejects, total_unrated) = count_verdicts(&final_scores);
    CullManifest {
        total_images: images.len(),
        total_scenes: scenes.len(),
        total_keepers,
        total_rejects,
        total_unrated,
        scenes,
        image_scores: final_scores,
    }
}

/// The sharpness rank of an image's (last) analysis result.
pub open spec fn rank_of(scores: Seq<ImageScore>, id: ImageId) -> u64 {
    scores[score_index(scores, id)].sharpness_rank
}

/// Whether an image's (last) analysis result found a blink.
pub open spec fn blinked(scores: Seq<ImageScore>, id: ImageId) -> bool {
    scores[score_index(scores, id)].blink_detected
}

proof fn lemma_candidates(ids: Seq<ImageId>, scores: Seq<ImageScore>)
    ensures
        forall|m: int|
            0 <= m < scene_candidates(ids, scores).len() ==> ids.contains(
                #[trigger] scene_candidates(ids, scores)[m].0,
            ) && has_score(scores, scene_candidates(ids, scores)[m].0)
                && scene_candidates(ids, scores)[m].1 == rank_of(scores, scene_candidates(ids, scores)[m].0),
        forall|j: int|
            0 <= j < ids.len() && has_score(scores, #[trigger] ids[j]) ==> exists|m: int|
                0 <= m < scene_candidates(ids, scores).len() && scene_candidates(ids, scores)[m].0 == ids[j],
        forall|m: int|
            0 <= m < open_eyed_candidates(ids, scores).len() ==> ids.contains(
                #[trigger] open_eyed_candidates(ids, scores)[m].0,
            ) && has_score(scores, open_eyed_candidates(ids, scores)[m].0) && !blinked(
                scores,
                open_eyed_candidates(ids, scores)[m].0,
            ) && open_eyed_candidates(ids, scores)[m].1 == rank_of(
                scores,
                open_eyed_candidates(ids, scores)[m].0,
            ),
        forall|j: int|
            0 <= j < ids.len() && has_score(scores, #[trigger] ids[j]) && !blinked(scores, ids[j])
                ==> exists|m: int|
                0 <= m < open_eyed_candidates(ids, scores).len() && open_eyed_candidates(ids, scores)[m].0
                    == ids[j],
    decreases ids.len(),
{
    if ids.len() > 0 {
        let d = ids.drop_last();
        lemma_candidates(d, scores);
        let c = scene_candidates(ids, scores);
        let cd = scene_candidates(d, scores);
        let o = open_eyed_candidates(ids, scores);
        let od = open_eyed_candidates(d, scores);
        assert forall|m: int| 0 <= m < c.len() implies ids.contains(#[trigger] c[m].0) && has_score(scores, c[m].0)
            && c[m].1 == rank_of(scores, c[m].0) by {
            if m < cd.len() {
                assert(c[m] == cd[m]);
                let k = choose|k: int| 0 <= k < d.len() && d[k] == cd[m].0;
                assert(ids[k] == d[k]);
            } else {
                assert(ids[ids.len() - 1] == c[m].0);
            }
        }
        assert forall|j: int| 0 <= j < ids.len() && has_score(scores, #[trigger] ids[j]) implies exists|m: int|
            0 <= m < c.len() && c[m].0 == ids[j] by {
            if j < d.len() {
                assert(d[j] == ids[j]);
                let m = choose|m: int| 0 <= m < cd.len() && cd[m].0 == d[j];
                assert(c[m] == cd[m]);
            } else {
                assert(c[c.len() - 1].0 == ids[j]);
            }
        }
        assert forall|m: int| 0 <= m < o.len() implies ids.contains(#[trigger] o[m].0) && has_score(scores, o[m].0)
            && !blinked(scores, o[m].0) && o[m].1 == rank_of(scores, o[m].0) by {
            if m < od.len() {
                assert(o[m] == od[m]);
                let k = choose|k: int| 0 <= k < d.len() && d[k] == od[m].0;
                assert(ids[k] == d[k]);
            } else {
                assert(ids[ids.len() - 1] == o[m].0);
            }
        }
        assert forall|j: int| 0 <= j < ids.len() && has_score(scores, #[trigger] ids[j]) && !blinked(scores, ids[j])
            implies exists|m: int| 0 <= m < o.len() && o[m].0 == ids[j] by {
            if j < d.len() {
                assert(d[j] == ids[j]);
                let m = choose|m: int| 0 <= m < od.len() && od[m].0 == d[j];
                assert(o[m] == od[m]);
            } else {
                assert(o[o.len() - 1].0 == ids[j]);
            }
        }
    }
}

/// A scene's keeper is one of the scene's own images, one that was analysed.
pub proof fn law_keeper_belongs_to_scene(ids: Seq<ImageId>, scores: Seq<ImageScore>)
    ensures
        scene_keeper(ids, scores) matches Some(k) ==> ids.contains(k) && has_score(scores, k),
{
    lemma_candidates(ids, scores);
    let o = open_eyed_candidates(ids, scores);
    let c = scene_candidates(ids, scores);
    if o.len() > 0 {
        lemma_last_max_index(o);
    } else if c.len() > 0 {
        lemma_last_max_index(c);
    }
}

/// Every scene with at least one analysed image gets a keeper.
pub proof fn law_analysed_scene_gets_keeper(ids: Seq<ImageId>, scores: Seq<ImageScore>)
    ensures
        (exists|j: int| 0 <= j < ids.len() && has_score(scores, #[trigger] ids[j])) ==> scene_keeper(
            ids,
            scores,
        ) is Some,
{
    lemma_candidates(ids, scores);
    if exists|j: int| 0 <= j < ids.len() && has_score(scores, #[trigger] ids[j]) {
        let j = choose|j: int| 0 <= j < ids.len() && has_score(scores, #[trigger] ids[j]);
        let m = choose|m: int|
            0 <= m < scene_candidates(ids, scores).len() && scene_candidates(ids, scores)[m].0 == ids[j];
        assert(scene_candidates(ids, scores).len() > 0);
    }
}

/// Where some image of a scene kept its eyes open, the keeper kept its eyes
/// open and is at least as sharp as every such image.
pub proof fn law_keeper_is_sharpest_open_eyed(ids: Seq<ImageId>, scores: Seq<ImageScore>)
    requires
        exists|j: int| 0 <= j < ids.len() && has_score(scores, #[trigger] ids[j]) && !blinked(scores, ids[j]),
    ensures
        scene_keeper(ids, scores) matches Some(k) && !blinked(scores, k) && forall|j: int|
            0 <= j < ids.len() && has_score(scores, #[trigger] ids[j]) && !blinked(scores, ids[j])
                ==> rank_of(scores, ids[j]) <= rank_of(scores, k),
        scene_keeper(ids, scores) is Some,
{
    lemma_candidates(ids, scores);
    let o = open_eyed_candidates(ids, scores);
    let j0 = choose|j: int| 0 <= j < ids.len() && has_score(scores, #[trigger] ids[j]) && !blinked(scores, ids[j]);
    let m0 = choose|m: int| 0 <= m < o.len() && o[m].0 == ids[j0];
    assert(o.len() > 0);
    lemma_last_max_index(o);
    let b = last_max_index(o);
    assert forall|j: int| 0 <= j < ids.len() && has_score(scores, #[trigger] ids[j]) && !blinked(scores, ids[j])
        implies rank_of(scores, ids[j]) <= rank_of(scores, o[b].0) by {
        let m = choose|m: int| 0 <= m < o.len() && o[m].0 == ids[j];
        assert(o[m].1 <= o[b].1);
    }
}

/// Where every analysed image of a scene blinked, the keeper is at least as
/// sharp as every analysed image of the scene.
pub proof fn law_all_blinked_keeper_is_sharpest(ids: Seq<ImageId>, scores: Seq<ImageScore>)
    requires
        forall|j: int| 0 <= j < ids.len() && has_score(scores, #[trigger] ids[j]) ==> blinked(scores, ids[j]),
    ensures
        scene_keeper(ids, scores) matches Some(k) ==> forall|j: int|
            0 <= j < ids.len() && has_score(scores, #[trigger] ids[j]) ==> rank_of(scores, ids[j]) <= rank_of(
                scores,
                k,
            ),
{
    lemma_candidates(ids, scores);
    let o = open_eyed_candidates(ids, scores);
    let c = scene_candidates(ids, scores);
    if o.len() > 0 {
        let k = choose|k: int| 0 <= k < ids.len() && ids[k] == o[0].0;
        assert(blinked(scores, ids[k]));
    } else if c.len() > 0 {
        lemma_last_max_index(c);
        let b = last_max_index(c);
        assert forall|j: int| 0 <= j < ids.len() && has_score(scores, #[trigger] ids[j]) implies rank_of(
            scores,
            ids[j],
        ) <= rank_of(scores, c[b].0) by {
            let m = choose|m: int| 0 <= m < c.len() && c[m].0 == ids[j];
            assert(c[m].1 <= c[b].1);
        }
    }
}

/// Every image is counted exactly once as keeper, reject or unrated.
pub proof fn law_verdict_counts_add_up(scores: Seq<ImageScore>)
    ensures
        keeper_count(scores) + reject_count(scores) + unrated_count(scores) == scores.len(),
{
    lemma_counts_bounded(scores);
}

} // verus!

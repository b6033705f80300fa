//! Speech regions: what the segmentation capability found, kept in order,
//! without the candidates it failed on.

use vstd::prelude::*;

verus! {

/// A stretch of speech: its time bounds in milliseconds and its samples.
pub struct SpeechRegion {
    pub start_ms: i64,
    pub end_ms: i64,
    pub samples: Vec<i16>,
}

/// The regions among `detections`, in order; failed detections are left out.
pub open spec fn detected_regions(
    detections: Seq<Result<SpeechRegion, String>>,
) -> Seq<SpeechRegion>
    decreases detections.len(),
{
    if detections.len() == 0 {
        Seq::empty()
    } else {
        let front = detected_regions(detections.drop_last());
        match detections.last() {
            Ok(region) => front.push(region),
            Err(_) => front,
        }
    }
}

/// `earlier` starts no later than `later` and ends before `later` starts.
pub open spec fn precedes(earlier: SpeechRegion, later: SpeechRegion) -> bool {
    earlier.start_ms <= later.start_ms && earlier.end_ms <= later.start_ms
}

/// The regions are sorted by start and none overlaps another.
pub open spec fn regions_ordered(regions: Seq<SpeechRegion>) -> bool {
    forall|i: int, j: int|
        0 <= i < j < regions.len() ==> precedes(#[trigger] regions[i], #[trigger] regions[j])
}

/// The detections that succeeded are sorted by start and none overlaps another.
pub open spec fn detections_ordered(detections: Seq<Result<SpeechRegion, String>>) -> bool {
    forall|i: int, j: int|
        0 <= i < j < detections.len() && (#[trigger] detections[i]) is Ok && (
        #[trigger] detections[j]) is Ok ==> precedes(
            detections[i]->Ok_0,
            detections[j]->Ok_0,
        )
}

/// Keeps the regions that the segmentation capability reported, in its
/// order, and drops the candidates it reported an error for.
pub fn collect_regions(detections: Vec<Result<SpeechRegion, String>>) -> (regions: Vec<
    SpeechRegion,
>)
    ensures
        regions@ == detected_regions(detections@),
        regions@.len() <= detections@.len(),
{
    let mut regions: Vec<SpeechRegion> = Vec::new();
    let ghost all = detections@;
    for detection in it: detections
        invariant
            it.seq() == all,
            regions@ == detected_regions(all.take(it.index() as int)),
            regions@.len() <= it.index(),
    {
        proof {
            let grown = all.take(it.index() + 1);
            assert(grown.drop_last() =~= all.take(it.index() as int));
            assert(grown.last() == detection);
        }
        match detection {
            Ok(region) => {
                regions.push(region);
            },
            Err(_) => {},
        }
    }
    assert(all.take(all.len() as int) =~= all);
    regions
}

/// Every region that was kept is one of the successful detections.
pub proof fn lemma_detected_regions_come_from_detections(
    detections: Seq<Result<SpeechRegion, String>>,
    k: int,
) -> (i: int)
    requires
        0 <= k < detected_regions(detections).len(),
    ensures
        0 <= i < detections.len(),
        detections[i] == Ok::<SpeechRegion, String>(detected_regions(detections)[k]),
        detected_regions(detections.take(i)).len() == k,
    decreases detections.len(),
{
    let front = detections.drop_last();
    let last = detections.len() - 1;
    assert(detections.take(last) =~= front);
    if detections.last() is Ok && k == detected_regions(front).len() {
        last
    } else {
        let i = lemma_detected_regions_come_from_detections(front, k);
        assert(front.take(i) =~= detections.take(i));
        i
    }
}

/// Dropping failed detections keeps the order: where the successful
/// detections are sorted and free of overlap, so are the regions kept.
pub proof fn lemma_detected_regions_stay_ordered(detections: Seq<Result<SpeechRegion, String>>)
    requires
        detections_ordered(detections),
    ensures
        regions_ordered(detected_regions(detections)),
    decreases detections.len(),
{
    if detections.len() > 0 {
        let front = detections.drop_last();
        assert(detections_ordered(front)) by {
            assert forall|i: int, j: int|
                0 <= i < j < front.len() && (#[trigger] front[i]) is Ok && (
                #[trigger] front[j]) is Ok implies precedes(front[i]->Ok_0, front[j]->Ok_0) by {
                assert(front[i] == detections[i]);
                assert(front[j] == detections[j]);
            }
        }
        lemma_detected_regions_stay_ordered(front);
        let kept = detected_regions(detections);
        assert forall|i: int, j: int| 0 <= i < j < kept.len() implies precedes(
            #[trigger] kept[i],
            #[trigger] kept[j],
        ) by {
            let before = detected_regions(front);
            if j < before.len() {
                assert(kept[i] == before[i]);
                assert(kept[j] == before[j]);
            } else {
                let source = lemma_detected_regions_come_from_detections(front, i);
                assert(front[source] == detections[source]);
                assert(detections[detections.len() - 1] is Ok);
            }
        }
    }
}

} // verus!

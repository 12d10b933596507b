//! What holds of the tracker over many frames.

use crate::order;
use crate::track;
use crate::track_laws;
use vstd::prelude::*;

verus! {

/// Some detection of the frame belongs to the signal.
pub open spec fn is_detected(s: track::TrackerView, f: track::Frame, id: u64) -> bool {
    track::sweep(s, f).ids.contains(id)
}

/// What a hit does to the counters of track `i`.
pub open spec fn counts_hit(
    s: track::TrackerView,
    age: track::Age,
    before: track::TrackView,
    after: track::TrackView,
) -> bool {
    &&& after.hits == before.hits + 1
    &&& after.streak == (if age.continuous {
        before.streak + 1
    } else {
        1
    })
    &&& after.bursts == (if age.continuous {
        before.bursts as int
    } else {
        before.bursts + 1
    })
    &&& after.confirmed == (before.confirmed || track::has_earned(s, after))
}

/// One of the first `k` detections in the order of choosing has the number.
spec fn is_named(w: track::Sweep, turns: Seq<int>, k: nat, id: u64) -> bool {
    exists|j: int| 0 <= j < k && w.ids[#[trigger] turns[j]] == id
}

/// Track `i` has its detection and counted it.
spec fn has_counted(s: track::TrackerView, f: track::Frame, w: track::Sweep, k: nat, i: int) -> bool {
    &&& is_named(w, track::choosing_order(f), k, w.tracks[i].id)
    &&& i < s.tracks.len() ==> counts_hit(s, f.ages[i], s.tracks[i], w.tracks[i])
}

proof fn lemma_swept_counts(s: track::TrackerView, f: track::Frame, k: nat)
    requires
        track_laws::is_ready(s, f),
        k <= f.detections.len(),
    ensures
        forall|i: int|
            0 <= i < track::swept(s, f, k).tracks.len() && #[trigger] track::swept(
                s,
                f,
                k,
            ).taken[i] ==> has_counted(s, f, track::swept(s, f, k), k, i),
    decreases k,
{
    if k > 0 {
        let n = f.detections.len();
        let o = track::choosing_order(f);
        let before = track::swept(s, f, (k - 1) as nat);
        let after = track::swept(s, f, k);
        let d = o[k - 1];
        lemma_swept_counts(s, f, (k - 1) as nat);
        track_laws::lemma_swept(s, f, (k - 1) as nat);
        order::law_descending(f.detections.map_values(|d: track::Detection| d.peak_db), n);
        assert(0 <= o[k - 1] < n);
        track::lemma_assigned(s, f, before, (k - 1) as nat, d);
        assert forall|i: int| 0 <= i < after.tracks.len() && #[trigger] after.taken[i] implies
            has_counted(s, f, after, k, i) by {
            if i < before.tracks.len() && before.taken[i] {
                assert(has_counted(s, f, before, (k - 1) as nat, i));
                let id = before.tracks[i].id;
                let j = choose|j: int| 0 <= j < k - 1 && before.ids[#[trigger] o[j]] == id;
                assert(0 <= o[j] < n);
                assert(o[j] != o[k - 1]);
                assert(after.ids[o[j]] == id);
                assert(after.tracks[i] == before.tracks[i]);
            } else {
                assert(after.ids[o[k - 1]] == after.tracks[i].id);
            }
        }
    }
}

/// A frame gives every signal that is followed after it what it saw: one hit
/// for a detection, and nothing for none. A hit right after the frame before
/// lengthens the streak, any other begins a burst, and what has earned its
/// confirmation with a hit is confirmed.
pub open spec fn is_counted(
    s: track::TrackerView,
    f: track::Frame,
    after: track::TrackView,
) -> bool {
    let id = after.id;
    if track_laws::is_followed(s, id) {
        exists|i: int|
            0 <= i < s.tracks.len() && #[trigger] s.tracks[i].id == id && (if is_detected(
                s,
                f,
                id,
            ) {
                counts_hit(s, f.ages[i], s.tracks[i], after)
            } else {
                after == s.tracks[i]
            })
    } else {
        &&& is_detected(s, f, id)
        &&& s.next_id <= id
        &&& after.hits == 1
        &&& after.streak == 1
        &&& after.bursts == 1
        &&& !after.confirmed
    }
}

/// Hits are counted: what a signal has after a frame is what it had before and
/// what the frame saw of it.
pub proof fn law_hits_are_counted(s: track::TrackerView, f: track::Frame, j: int)
    requires
        track_laws::is_ready(s, f),
        0 <= j < track::updated(s, f).tracks.len(),
    ensures
        is_counted(s, f, track::updated(s, f).tracks[j]),
{
    let w = track::sweep(s, f);
    let u = track::updated(s, f);
    let n = f.detections.len();
    let o = track::choosing_order(f);
    let after = u.tracks[j];
    track_laws::lemma_swept(s, f, n);
    track_laws::lemma_sweep_ids_differ(s, w);
    lemma_swept_counts(s, f, n);
    track::lemma_kept(f, w, w.tracks.len());
    assert(track::is_among(f, w, w.tracks.len(), track::kept(f, w, w.tracks.len())[j]));
    let x = choose|x: int|
        0 <= x < w.tracks.len() && track::is_alive(f, w, x) && #[trigger] w.tracks[x] == after;
    lemma_detected_is_taken(s, f, x);
    if x < s.tracks.len() {
        assert(track_laws::keeps_track(s, w, x));
        assert(s.tracks[x].id == after.id);
        assert(track_laws::is_followed(s, after.id));
        if w.taken[x] {
            assert(has_counted(s, f, w, n, x));
        }
    } else {
        assert(track_laws::adds_track(s, w, x));
        assert(w.taken[x]);
        if track_laws::is_followed(s, after.id) {
            let i = choose|i: int| 0 <= i < s.tracks.len() && #[trigger] s.tracks[i].id == after.id;
            assert(track_laws::keeps_track(s, w, i));
            assert(w.tracks[i].id != w.tracks[x].id);
        }
    }
}

/// A track of the sweep has its detection exactly if its signal is detected.
proof fn lemma_detected_is_taken(s: track::TrackerView, f: track::Frame, x: int)
    requires
        track_laws::is_ready(s, f),
        0 <= x < track::sweep(s, f).tracks.len(),
    ensures
        track::sweep(s, f).taken[x] <==> is_detected(s, f, track::sweep(s, f).tracks[x].id),
{
    let w = track::sweep(s, f);
    let n = f.detections.len();
    let o = track::choosing_order(f);
    let id = w.tracks[x].id;
    track_laws::lemma_swept(s, f, n);
    track_laws::lemma_sweep_ids_differ(s, w);
    lemma_swept_counts(s, f, n);
    order::law_descending(f.detections.map_values(|d: track::Detection| d.peak_db), n);
    if w.taken[x] {
        assert(has_counted(s, f, w, n, x));
        let j = choose|j: int| 0 <= j < n && w.ids[#[trigger] o[j]] == id;
        assert(0 <= o[j] < n);
        assert(w.ids[o[j]] == id);
    }
    if is_detected(s, f, id) {
        let d = choose|d: int| 0 <= d < w.ids.len() && w.ids[d] == id;
        assert(o.contains(d));
        let j = choose|j: int| 0 <= j < o.len() && o[j] == d;
        assert(track_laws::has_owner(w, w.ids[o[j]]));
        let y = choose|y: int| track_laws::owns(w, y, id);
        assert(w.tracks[x].id != w.tracks[y].id || x == y);
    }
}

/// A detected signal has a number that was given out.
proof fn lemma_detected_is_known(s: track::TrackerView, f: track::Frame, id: u64)
    requires
        track_laws::is_ready(s, f),
        is_detected(s, f, id),
    ensures
        1 <= id < track::updated(s, f).next_id,
{
    let w = track::sweep(s, f);
    let n = f.detections.len();
    let o = track::choosing_order(f);
    track_laws::lemma_swept(s, f, n);
    order::law_descending(f.detections.map_values(|d: track::Detection| d.peak_db), n);
    let d = choose|d: int| 0 <= d < w.ids.len() && w.ids[d] == id;
    assert(o.contains(d));
    let j = choose|j: int| 0 <= j < o.len() && o[j] == d;
    assert(track_laws::has_owner(w, w.ids[o[j]]));
    let y = choose|y: int| track_laws::owns(w, y, id);
    let v = track::TrackerView { tracks: w.tracks, next_id: w.next_id, ..s };
    assert(track::is_valid_track(v.tracks[y], v.next_id));
}

/// The tracker after several frames.
pub open spec fn run(s: track::TrackerView, frames: Seq<track::Frame>) -> track::TrackerView
    decreases frames.len(),
{
    if frames.len() == 0 {
        s
    } else {
        track::updated(run(s, frames.drop_last()), frames.last())
    }
}

/// Every frame belongs to the state that it finds.
pub open spec fn can_run(s: track::TrackerView, frames: Seq<track::Frame>) -> bool
    decreases frames.len(),
{
    if frames.len() == 0 {
        track::is_valid(s)
    } else {
        &&& can_run(s, frames.drop_last())
        &&& track_laws::is_ready(run(s, frames.drop_last()), frames.last())
    }
}

/// In how many frames a signal is detected.
pub open spec fn sightings(s: track::TrackerView, frames: Seq<track::Frame>, id: u64) -> nat
    decreases frames.len(),
{
    if frames.len() == 0 {
        0
    } else {
        sightings(s, frames.drop_last(), id) + if is_detected(
            run(s, frames.drop_last()),
            frames.last(),
            id,
        ) {
            1nat
        } else {
            0nat
        }
    }
}

proof fn lemma_unknown_is_unseen(s: track::TrackerView, frames: Seq<track::Frame>, id: u64)
    requires
        can_run(s, frames),
    ensures
        s.next_id <= run(s, frames).next_id,
        run(s, frames).confirm_streak == s.confirm_streak,
        run(s, frames).confirm_bursts == s.confirm_bursts,
        id >= run(s, frames).next_id ==> sightings(s, frames, id) == 0,
    decreases frames.len(),
{
    if frames.len() > 0 {
        let before = run(s, frames.drop_last());
        lemma_unknown_is_unseen(s, frames.drop_last(), id);
        track_laws::lemma_swept(before, frames.last(), frames.last().detections.len());
        if is_detected(before, frames.last(), id) {
            lemma_detected_is_known(before, frames.last(), id);
        }
    }
}

/// Every signal has as many hits as there were frames that saw it.
proof fn lemma_hits_are_sightings(s: track::TrackerView, frames: Seq<track::Frame>, j: int)
    requires
        s.tracks.len() == 0,
        can_run(s, frames),
        0 <= j < run(s, frames).tracks.len(),
    ensures
        run(s, frames).tracks[j].hits == sightings(s, frames, run(s, frames).tracks[j].id),
    decreases frames.len(),
{
    if frames.len() > 0 {
        let before = run(s, frames.drop_last());
        let f = frames.last();
        let after = run(s, frames).tracks[j];
        law_hits_are_counted(before, f, j);
        if track_laws::is_followed(before, after.id) {
            let i = choose|i: int|
                0 <= i < before.tracks.len() && #[trigger] before.tracks[i].id == after.id && (
                if is_detected(before, f, after.id) {
                    counts_hit(before, f.ages[i], before.tracks[i], after)
                } else {
                    after == before.tracks[i]
                });
            lemma_hits_are_sightings(s, frames.drop_last(), i);
        } else {
            lemma_unknown_is_unseen(s, frames.drop_last(), after.id);
        }
    }
}

/// The hits that a confirmation takes at least.
pub open spec fn hits_needed(s: track::TrackerView) -> int {
    if s.confirm_streak < s.confirm_bursts {
        s.confirm_streak as int
    } else {
        s.confirm_bursts as int
    }
}

proof fn lemma_confirmed_has_hits(s: track::TrackerView, frames: Seq<track::Frame>, j: int)
    requires
        s.tracks.len() == 0,
        can_run(s, frames),
        0 <= j < run(s, frames).tracks.len(),
        run(s, frames).tracks[j].confirmed,
    ensures
        run(s, frames).tracks[j].hits >= hits_needed(s),
    decreases frames.len(),
{
    if frames.len() > 0 {
        let before = run(s, frames.drop_last());
        let f = frames.last();
        let after = run(s, frames).tracks[j];
        lemma_unknown_is_unseen(s, frames.drop_last(), after.id);
        law_hits_are_counted(before, f, j);
        let i = choose|i: int|
            0 <= i < before.tracks.len() && #[trigger] before.tracks[i].id == after.id && (
            if is_detected(before, f, after.id) {
                counts_hit(before, f.ages[i], before.tracks[i], after)
            } else {
                after == before.tracks[i]
            });
        if before.tracks[i].confirmed {
            lemma_confirmed_has_hits(s, frames.drop_last(), i);
        } else {
            assert(track::is_valid_track(before.tracks[i], before.next_id));
        }
    }
}

/// A frequency hopper is not confirmed: a tracker that began without signals
/// confirms none that it saw in fewer frames than a confirmation takes.
pub proof fn law_hopper_is_not_confirmed(s: track::TrackerView, frames: Seq<track::Frame>, j: int)
    requires
        s.tracks.len() == 0,
        can_run(s, frames),
        0 <= j < run(s, frames).tracks.len(),
        sightings(s, frames, run(s, frames).tracks[j].id) < hits_needed(s),
    ensures
        !run(s, frames).tracks[j].confirmed,
{
    lemma_hits_are_sightings(s, frames, j);
    if run(s, frames).tracks[j].confirmed {
        lemma_confirmed_has_hits(s, frames, j);
    }
}

/// The signal stays in the tracker over the frame: it is detected, or it was
/// seen not too long ago.
pub open spec fn stays(s: track::TrackerView, f: track::Frame, id: u64) -> bool {
    forall|i: int|
        0 <= i < s.tracks.len() && (#[trigger] s.tracks[i]).id == id ==> if is_detected(
            s,
            f,
            id,
        ) {
            f.now.held && f.now.candidate_held
        } else {
            f.ages[i].held && f.ages[i].candidate_held
        }
}

/// The signal stays in the tracker over all frames.
pub open spec fn stays_on(s: track::TrackerView, frames: Seq<track::Frame>, id: u64) -> bool
    decreases frames.len(),
{
    if frames.len() == 0 {
        true
    } else {
        &&& stays_on(s, frames.drop_last(), id)
        &&& stays(run(s, frames.drop_last()), frames.last(), id)
    }
}

/// The frame detects the signal, not right after the frame before.
pub open spec fn begins_burst(s: track::TrackerView, f: track::Frame, id: u64) -> bool {
    &&& is_detected(s, f, id)
    &&& exists|i: int|
        0 <= i < s.tracks.len() && (#[trigger] s.tracks[i]).id == id && !f.ages[i].continuous
}

/// How many bursts of a signal begin.
pub open spec fn burst_starts(s: track::TrackerView, frames: Seq<track::Frame>, id: u64) -> nat
    decreases frames.len(),
{
    if frames.len() == 0 {
        0
    } else {
        burst_starts(s, frames.drop_last(), id) + if begins_burst(
            run(s, frames.drop_last()),
            frames.last(),
            id,
        ) {
            1nat
        } else {
            0nat
        }
    }
}

/// Place of a signal in the tracker.
pub open spec fn is_at(s: track::TrackerView, id: u64, i: int) -> bool {
    0 <= i < s.tracks.len() && s.tracks[i].id == id
}

/// A signal that stays is in the tracker after the frame, with its counters.
proof fn lemma_stays(s: track::TrackerView, f: track::Frame, i: int) -> (j: int)
    requires
        track_laws::is_ready(s, f),
        0 <= i < s.tracks.len(),
        stays(s, f, s.tracks[i].id),
    ensures
        is_at(track::updated(s, f), s.tracks[i].id, j),
        if is_detected(s, f, s.tracks[i].id) {
            counts_hit(s, f.ages[i], s.tracks[i], track::updated(s, f).tracks[j])
        } else {
            track::updated(s, f).tracks[j] == s.tracks[i]
        },
{
    let w = track::sweep(s, f);
    let n = f.detections.len();
    let id = s.tracks[i].id;
    track_laws::lemma_swept(s, f, n);
    lemma_swept_counts(s, f, n);
    lemma_detected_is_taken(s, f, i);
    assert(track_laws::keeps_track(s, w, i));
    if w.taken[i] {
        assert(has_counted(s, f, w, n, i));
    }
    track_laws::lemma_alive_is_kept(f, w, w.tracks.len(), i);
    let r = track::kept(f, w, w.tracks.len());
    let j = choose|j: int| 0 <= j < r.len() && #[trigger] r[j] == w.tracks[i];
    assert(track::updated(s, f).tracks[j] == w.tracks[i]);
    j
}

proof fn lemma_bursts(s: track::TrackerView, frames: Seq<track::Frame>, i: int) -> (j: int)
    requires
        can_run(s, frames),
        0 <= i < s.tracks.len(),
        stays_on(s, frames, s.tracks[i].id),
    ensures
        is_at(run(s, frames), s.tracks[i].id, j),
        run(s, frames).tracks[j].bursts == s.tracks[i].bursts + burst_starts(
            s,
            frames,
            s.tracks[i].id,
        ),
    decreases frames.len(),
{
    if frames.len() == 0 {
        i
    } else {
        let id = s.tracks[i].id;
        let before = run(s, frames.drop_last());
        let f = frames.last();
        let m = lemma_bursts(s, frames.drop_last(), i);
        assert(before.tracks[m].id == id);
        let j = lemma_stays(before, f, m);
        if begins_burst(before, f, id) {
            let x = choose|x: int|
                0 <= x < before.tracks.len() && (#[trigger] before.tracks[x]).id == id
                    && !f.ages[x].continuous;
            assert(before.tracks[x].id != before.tracks[m].id || x == m);
        }
        j
    }
}

proof fn lemma_run_confirms(s: track::TrackerView, frames: Seq<track::Frame>)
    requires
        can_run(s, frames),
        s.confirm_streak >= 2,
        s.confirm_bursts >= 2,
        track_laws::candidates_have_not_earned(s),
    ensures
        track_laws::candidates_have_not_earned(run(s, frames)),
        run(s, frames).confirm_streak == s.confirm_streak,
        run(s, frames).confirm_bursts == s.confirm_bursts,
    decreases frames.len(),
{
    if frames.len() > 0 {
        lemma_run_confirms(s, frames.drop_last());
        track_laws::law_candidates_fall_short(run(s, frames.drop_last()), frames.last());
    }
}

/// A sender of bursts is confirmed by their number: every gap between hits
/// begins one burst, however long the bursts are.
pub proof fn law_burst_sender_is_confirmed(
    s: track::TrackerView,
    frames: Seq<track::Frame>,
    i: int,
)
    requires
        can_run(s, frames),
        s.confirm_streak >= 2,
        s.confirm_bursts >= 2,
        track_laws::candidates_have_not_earned(s),
        0 <= i < s.tracks.len(),
        stays_on(s, frames, s.tracks[i].id),
        s.tracks[i].bursts + burst_starts(s, frames, s.tracks[i].id) >= s.confirm_bursts,
    ensures
        exists|j: int| #[trigger]
            is_at(run(s, frames), s.tracks[i].id, j) && run(s, frames).tracks[j].confirmed,
{
    let j = lemma_bursts(s, frames, i);
    lemma_run_confirms(s, frames);
    assert(is_at(run(s, frames), s.tracks[i].id, j));
}

/// The frame detects the signal right after the frame before.
pub open spec fn continues(s: track::TrackerView, f: track::Frame, id: u64) -> bool {
    &&& is_detected(s, f, id)
    &&& f.now.held
    &&& f.now.candidate_held
    &&& forall|i: int|
        0 <= i < s.tracks.len() && (#[trigger] s.tracks[i]).id == id ==> f.ages[i].continuous
}

/// All frames do.
pub open spec fn is_steady(s: track::TrackerView, frames: Seq<track::Frame>, id: u64) -> bool
    decreases frames.len(),
{
    if frames.len() == 0 {
        true
    } else {
        &&& is_steady(s, frames.drop_last(), id)
        &&& continues(run(s, frames.drop_last()), frames.last(), id)
    }
}

proof fn lemma_streak(s: track::TrackerView, frames: Seq<track::Frame>, i: int) -> (j: int)
    requires
        can_run(s, frames),
        0 <= i < s.tracks.len(),
        is_steady(s, frames, s.tracks[i].id),
    ensures
        is_at(run(s, frames), s.tracks[i].id, j),
        run(s, frames).tracks[j].streak == s.tracks[i].streak + frames.len(),
    decreases frames.len(),
{
    if frames.len() == 0 {
        i
    } else {
        let before = run(s, frames.drop_last());
        let m = lemma_streak(s, frames.drop_last(), i);
        assert(before.tracks[m].id == s.tracks[i].id);
        lemma_stays(before, frames.last(), m)
    }
}

/// A steady sender is confirmed after enough frames in a row.
pub proof fn law_steady_sender_is_confirmed(
    s: track::TrackerView,
    frames: Seq<track::Frame>,
    i: int,
)
    requires
        can_run(s, frames),
        s.confirm_streak >= 2,
        s.confirm_bursts >= 2,
        track_laws::candidates_have_not_earned(s),
        0 <= i < s.tracks.len(),
        is_steady(s, frames, s.tracks[i].id),
        s.tracks[i].streak + frames.len() >= s.confirm_streak,
    ensures
        exists|j: int| #[trigger]
            is_at(run(s, frames), s.tracks[i].id, j) && run(s, frames).tracks[j].confirmed,
{
    let j = lemma_streak(s, frames, i);
    lemma_run_confirms(s, frames);
    assert(is_at(run(s, frames), s.tracks[i].id, j));
}

/// The event is about this signal.
pub open spec fn concerns(e: track::TrackEvent, id: u64) -> bool {
    e == track::TrackEvent::Confirmed(id) || e == track::TrackEvent::Lost(id)
}

/// The events about one signal, in their order.
pub open spec fn about(events: Seq<track::TrackEvent>, id: u64) -> Seq<track::TrackEvent>
    decreases events.len(),
{
    if events.len() == 0 {
        Seq::empty()
    } else if concerns(events.last(), id) {
        about(events.drop_last(), id).push(events.last())
    } else {
        about(events.drop_last(), id)
    }
}

/// The events of all frames.
pub open spec fn all_events(s: track::TrackerView, frames: Seq<track::Frame>) -> Seq<
    track::TrackEvent,
>
    decreases frames.len(),
{
    if frames.len() == 0 {
        Seq::empty()
    } else {
        all_events(s, frames.drop_last()) + track::frame_events(
            run(s, frames.drop_last()),
            frames.last(),
        )
    }
}

proof fn lemma_about_both(a: Seq<track::TrackEvent>, b: Seq<track::TrackEvent>, id: u64)
    ensures
        about(a + b, id) == about(a, id) + about(b, id),
    decreases b.len(),
{
    if b.len() == 0 {
        assert(a + b =~= a);
    } else {
        lemma_about_both(a, b.drop_last(), id);
        assert((a + b).drop_last() =~= a + b.drop_last());
    }
}

/// Confirmations that all differ tell of a signal at most once.
proof fn lemma_about_confirmations(events: Seq<track::TrackEvent>, id: u64)
    requires
        forall|e: int| 0 <= e < events.len() ==> #[trigger] events[e] is Confirmed,
        forall|e: int, g: int|
            0 <= e < g < events.len() ==> #[trigger] events[e] != #[trigger] events[g],
    ensures
        about(events, id) == (if events.contains(track::TrackEvent::Confirmed(id)) {
            seq![track::TrackEvent::Confirmed(id)]
        } else {
            Seq::empty()
        }),
    decreases events.len(),
{
    if events.len() > 0 {
        let front = events.drop_last();
        let wanted = track::TrackEvent::Confirmed(id);
        lemma_about_confirmations(front, id);
        assert(events[events.len() - 1] is Confirmed);
        if front.contains(wanted) {
            let e = choose|e: int| 0 <= e < front.len() && front[e] == wanted;
            assert(events[e] == wanted);
            assert(events.last() != wanted);
        } else if events.contains(wanted) {
            let e = choose|e: int| 0 <= e < events.len() && events[e] == wanted;
            assert(e < front.len() ==> front[e] == wanted);
        }
        if events.last() == wanted {
            assert(events[events.len() - 1] == wanted);
        }
    }
}

/// One of the first `k` tracks is the confirmed signal and does not stay.
spec fn is_dropped(f: track::Frame, w: track::Sweep, k: nat, id: u64) -> bool {
    exists|i: int|
        0 <= i < k && (#[trigger] w.tracks[i]).id == id && w.tracks[i].confirmed
            && !track::is_alive(f, w, i)
}

proof fn lemma_about_reported(f: track::Frame, w: track::Sweep, k: nat, id: u64)
    requires
        k <= w.tracks.len(),
        forall|i: int, j: int|
            0 <= i < j < w.tracks.len() ==> (#[trigger] w.tracks[i]).id != (
            #[trigger] w.tracks[j]).id,
    ensures
        about(track::reported(f, w, k), id) == (if is_dropped(f, w, k, id) {
            about(w.events, id).push(track::TrackEvent::Lost(id))
        } else {
            about(w.events, id)
        }),
    decreases k,
{
    if k > 0 {
        let m = (k - 1) as nat;
        lemma_about_reported(f, w, m, id);
        let before = track::reported(f, w, m);
        let drops = !track::is_alive(f, w, k - 1) && w.tracks[k - 1].confirmed;
        if drops {
            let e = track::TrackEvent::Lost(w.tracks[k - 1].id);
            assert(before.push(e).drop_last() =~= before);
        }
        if is_dropped(f, w, m, id) {
            let i = choose|i: int|
                0 <= i < m && (#[trigger] w.tracks[i]).id == id && w.tracks[i].confirmed
                    && !track::is_alive(f, w, i);
            assert(w.tracks[i].id != w.tracks[k - 1].id);
            assert(is_dropped(f, w, k, id));
        } else if is_dropped(f, w, k, id) {
            let i = choose|i: int|
                0 <= i < k && (#[trigger] w.tracks[i]).id == id && w.tracks[i].confirmed
                    && !track::is_alive(f, w, i);
            assert(i == k - 1);
        }
    }
}

/// A track that became confirmed was reported so.
spec fn is_told(s: track::TrackerView, w: track::Sweep, i: int) -> bool {
    !s.tracks[i].confirmed && w.tracks[i].confirmed ==> w.events.contains(
        track::TrackEvent::Confirmed(w.tracks[i].id),
    )
}

proof fn lemma_confirmations_are_told(s: track::TrackerView, f: track::Frame, k: nat)
    requires
        track_laws::is_ready(s, f),
        k <= f.detections.len(),
    ensures
        forall|i: int|
            0 <= i < s.tracks.len() ==> #[trigger] is_told(s, track::swept(s, f, k), i),
    decreases k,
{
    if k > 0 {
        let n = f.detections.len();
        let o = track::choosing_order(f);
        let before = track::swept(s, f, (k - 1) as nat);
        let after = track::swept(s, f, k);
        let d = o[k - 1];
        lemma_confirmations_are_told(s, f, (k - 1) as nat);
        track_laws::lemma_swept(s, f, (k - 1) as nat);
        order::law_descending(f.detections.map_values(|d: track::Detection| d.peak_db), n);
        assert(0 <= o[k - 1] < n);
        track::lemma_assigned(s, f, before, (k - 1) as nat, d);
        assert forall|i: int| 0 <= i < s.tracks.len() implies #[trigger] is_told(s, after, i) by {
            let e = track::TrackEvent::Confirmed(after.tracks[i].id);
            assert(is_told(s, before, i));
            if !s.tracks[i].confirmed && after.tracks[i].confirmed {
                if before.tracks[i].confirmed {
                    let x = choose|x: int| 0 <= x < before.events.len() && before.events[x] == e;
                    assert(after.events[x] == e);
                } else {
                    assert(after.events[after.events.len() - 1] == e);
                }
            }
        }
    }
}

/// The signal is followed and confirmed.
pub open spec fn is_confirmed(s: track::TrackerView, id: u64) -> bool {
    exists|i: int|
        0 <= i < s.tracks.len() && (#[trigger] s.tracks[i]).id == id && s.tracks[i].confirmed
}

/// What a frame says of a signal, by whether it was confirmed before.
spec fn is_true_history(
    s: track::TrackerView,
    u: track::TrackerView,
    h: Seq<track::TrackEvent>,
    id: u64,
) -> bool {
    let confirmed = track::TrackEvent::Confirmed(id);
    let lost = track::TrackEvent::Lost(id);
    if is_confirmed(s, id) {
        ||| h == Seq::<track::TrackEvent>::empty() && is_confirmed(u, id)
        ||| h == seq![lost] && !track_laws::is_followed(u, id)
    } else {
        ||| h == Seq::<track::TrackEvent>::empty() && !is_confirmed(u, id)
        ||| h == seq![confirmed] && is_confirmed(u, id)
        ||| h == seq![confirmed, lost] && !track_laws::is_followed(u, id)
    }
}

proof fn lemma_frame_history(s: track::TrackerView, f: track::Frame, id: u64)
    requires
        track_laws::is_ready(s, f),
    ensures
        is_true_history(s, track::updated(s, f), about(track::frame_events(s, f), id), id),
        about(track::frame_events(s, f), id).len() > 0 ==> 1 <= id < track::updated(s, f).next_id
            && track_laws::is_followed(s, id),
{
    let n = f.detections.len();
    let w = track::sweep(s, f);
    let u = track::updated(s, f);
    let confirmed = track::TrackEvent::Confirmed(id);
    track_laws::lemma_swept(s, f, n);
    track_laws::lemma_sweep_ids_differ(s, w);
    lemma_confirmations_are_told(s, f, n);
    lemma_about_confirmations(w.events, id);
    lemma_about_reported(f, w, w.tracks.len(), id);
    track::lemma_kept(f, w, w.tracks.len());
    if exists|x: int| 0 <= x < w.tracks.len() && (#[trigger] w.tracks[x]).id == id {
        let x = choose|x: int| 0 <= x < w.tracks.len() && (#[trigger] w.tracks[x]).id == id;
        let v = track::TrackerView { tracks: w.tracks, next_id: w.next_id, ..s };
        assert(track::is_valid_track(v.tracks[x], v.next_id));
        law_signal_stays_while_held(s, f, x);
        if x < s.tracks.len() {
            assert(track_laws::keeps_track(s, w, x));
            assert(is_told(s, w, x));
            assert(s.tracks[x].id == id);
        } else {
            assert(track_laws::adds_track(s, w, x));
        }
        lemma_confirmed_at(s, f, x);
        if w.events.contains(confirmed) {
            let e = choose|e: int| 0 <= e < w.events.len() && w.events[e] == confirmed;
            assert(track_laws::has_confirmed(s, w, w.events[e]->Confirmed_0));
            let i = choose|i: int|
                0 <= i < s.tracks.len() && #[trigger] w.tracks[i].id == id
                    && track_laws::becomes_confirmed(s, w, i);
            assert(w.tracks[i].id != w.tracks[x].id || i == x);
        }
        if is_dropped(f, w, w.tracks.len(), id) {
            let i = choose|i: int|
                0 <= i < w.tracks.len() && (#[trigger] w.tracks[i]).id == id
                    && w.tracks[i].confirmed && !track::is_alive(f, w, i);
            assert(w.tracks[i].id != w.tracks[x].id || i == x);
        }
        assert(seq![confirmed].push(track::TrackEvent::Lost(id)) =~= seq![
            confirmed,
            track::TrackEvent::Lost(id),
        ]);
        assert(Seq::<track::TrackEvent>::empty().push(track::TrackEvent::Lost(id)) =~= seq![
            track::TrackEvent::Lost(id),
        ]);
    } else {
        lemma_not_seen(s, f, id);
        if w.events.contains(confirmed) {
            let e = choose|e: int| 0 <= e < w.events.len() && w.events[e] == confirmed;
            assert(track_laws::has_confirmed(s, w, w.events[e]->Confirmed_0));
        }
    }
}

/// A signal is followed after a frame exactly if it was seen recently enough,
/// by the patience for confirmed signals or that for candidates.
pub proof fn law_signal_stays_while_held(s: track::TrackerView, f: track::Frame, x: int)
    requires
        track_laws::is_ready(s, f),
        0 <= x < track::sweep(s, f).tracks.len(),
    ensures
        ({
            let w = track::sweep(s, f);
            let u = track::updated(s, f);
            let id = w.tracks[x].id;
            &&& track_laws::is_followed(u, id) <==> track::is_alive(f, w, x)
            &&& is_confirmed(u, id) <==> track::is_alive(f, w, x) && w.tracks[x].confirmed
        }),
{
    let n = f.detections.len();
    let w = track::sweep(s, f);
    let u = track::updated(s, f);
    let id = w.tracks[x].id;
    let r = track::kept(f, w, w.tracks.len());
    track_laws::lemma_swept(s, f, n);
    track_laws::lemma_sweep_ids_differ(s, w);
    track::lemma_kept(f, w, w.tracks.len());
    if track::is_alive(f, w, x) {
        track_laws::lemma_alive_is_kept(f, w, w.tracks.len(), x);
        let j = choose|j: int| 0 <= j < r.len() && #[trigger] r[j] == w.tracks[x];
        assert(u.tracks[j].id == id);
    }
    assert forall|j: int| 0 <= j < u.tracks.len() && (#[trigger] u.tracks[j]).id == id implies {
        &&& track::is_alive(f, w, x)
        &&& u.tracks[j] == w.tracks[x]
    } by {
        assert(track::is_among(f, w, w.tracks.len(), r[j]));
        let y = choose|y: int|
            0 <= y < w.tracks.len() && track::is_alive(f, w, y) && #[trigger] w.tracks[y]
                == u.tracks[j];
        assert(w.tracks[y].id != w.tracks[x].id || x == y);
    }
}

/// What track `x` of the sweep was before the frame.
proof fn lemma_confirmed_at(s: track::TrackerView, f: track::Frame, x: int)
    requires
        track_laws::is_ready(s, f),
        0 <= x < track::sweep(s, f).tracks.len(),
    ensures
        ({
            let id = track::sweep(s, f).tracks[x].id;
            &&& is_confirmed(s, id) <==> x < s.tracks.len() && s.tracks[x].confirmed
            &&& track_laws::is_followed(s, id) <==> x < s.tracks.len()
        }),
{
    let w = track::sweep(s, f);
    let id = w.tracks[x].id;
    track_laws::lemma_swept(s, f, f.detections.len());
    track_laws::lemma_sweep_ids_differ(s, w);
    if x < s.tracks.len() {
        assert(track_laws::keeps_track(s, w, x));
        assert(s.tracks[x].id == id);
    }
    assert forall|i: int| 0 <= i < s.tracks.len() && (#[trigger] s.tracks[i]).id == id implies i
        == x by {
        assert(track_laws::keeps_track(s, w, i));
        assert(w.tracks[i].id != w.tracks[x].id || i == x);
    }
}

/// What no track of the sweep is, was not and will not be followed.
proof fn lemma_not_seen(s: track::TrackerView, f: track::Frame, id: u64)
    requires
        track_laws::is_ready(s, f),
        forall|x: int|
            0 <= x < track::sweep(s, f).tracks.len() ==> (#[trigger] track::sweep(
                s,
                f,
            ).tracks[x]).id != id,
    ensures
        !track_laws::is_followed(s, id),
        !track_laws::is_followed(track::updated(s, f), id),
        !is_confirmed(s, id),
        !is_confirmed(track::updated(s, f), id),
{
    let w = track::sweep(s, f);
    let u = track::updated(s, f);
    track_laws::lemma_swept(s, f, f.detections.len());
    track_laws::lemma_sweep_ids_differ(s, w);
    track::lemma_kept(f, w, w.tracks.len());
    assert forall|i: int| 0 <= i < s.tracks.len() implies (#[trigger] s.tracks[i]).id != id by {
        assert(track_laws::keeps_track(s, w, i));
        assert(w.tracks[i].id != id);
    }
    assert forall|j: int| 0 <= j < u.tracks.len() implies (#[trigger] u.tracks[j]).id != id by {
        assert(track::is_among(f, w, w.tracks.len(), track::kept(f, w, w.tracks.len())[j]));
    }
}

/// What the events of all frames say of a signal, and what became of it.
pub open spec fn is_life(s: track::TrackerView, h: Seq<track::TrackEvent>, id: u64) -> bool {
    let confirmed = track::TrackEvent::Confirmed(id);
    let lost = track::TrackEvent::Lost(id);
    ||| h == Seq::<track::TrackEvent>::empty() && !is_confirmed(s, id)
    ||| h == seq![confirmed] && is_confirmed(s, id)
    ||| h == seq![confirmed, lost] && !track_laws::is_followed(s, id) && id < s.next_id
}

/// Over all frames a signal is confirmed at most once and, only after that,
/// lost at most once. It is confirmed in the tracker exactly between the two,
/// and what was lost never comes back.
pub proof fn law_signal_has_one_life(s: track::TrackerView, frames: Seq<track::Frame>, id: u64)
    requires
        s.tracks.len() == 0,
        can_run(s, frames),
    ensures
        is_life(run(s, frames), about(all_events(s, frames), id), id),
    decreases frames.len(),
{
    if frames.len() > 0 {
        let front = frames.drop_last();
        let f = frames.last();
        let before = run(s, front);
        let u = run(s, frames);
        let h = about(all_events(s, front), id);
        let g = about(track::frame_events(before, f), id);
        law_signal_has_one_life(s, front, id);
        lemma_about_both(all_events(s, front), track::frame_events(before, f), id);
        lemma_frame_history(before, f, id);
        track_laws::lemma_swept(before, f, f.detections.len());
        let confirmed = track::TrackEvent::Confirmed(id);
        let lost = track::TrackEvent::Lost(id);
        if !track_laws::is_followed(before, id) && id < before.next_id {
            assert(!is_confirmed(before, id));
            if track_laws::is_followed(u, id) {
                track_laws::law_numbers_are_not_reused(before, f, id);
            }
        }
        if g.len() == 0 {
            assert(h + g =~= h);
        }
        assert(Seq::<track::TrackEvent>::empty() + g =~= g);
        assert(seq![confirmed] + seq![lost] =~= seq![confirmed, lost]);
    }
}

} // verus!

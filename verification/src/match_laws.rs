//! Which detection belongs to which signal, and what a signal shows of it.

use crate::order;
use crate::track;
use crate::track_laws;
use vstd::prelude::*;

verus! {

/// Track `i` was hit by detection `d` and looks like `t` after it: frequency
/// and bandwidth are those that were averaged for this pair, level and time are
/// those of the detection. A hit right after the frame before lengthens the
/// streak, any other begins a burst. Everything else stays.
pub open spec fn is_hit(
    s: track::TrackerView,
    f: track::Frame,
    i: int,
    d: int,
    t: track::TrackView,
) -> bool {
    let before = s.tracks[i];
    &&& 0 <= i < s.tracks.len()
    &&& f.near[d][i] matches Some(near) && {
        &&& t.offset_hz == near.offset_hz
        &&& t.bandwidth_hz == near.bandwidth_hz
    }
    &&& t.peak_db == f.detections[d].peak_db
    &&& t.snr_db == f.detections[d].snr_db
    &&& t.last_seen == f.time
    &&& t.hits == before.hits + 1
    &&& f.ages[i].continuous ==> t.streak == before.streak + 1 && t.bursts == before.bursts
    &&& !f.ages[i].continuous ==> t.streak == 1 && t.bursts == before.bursts + 1
    &&& t.confirmed <==> before.confirmed || t.streak >= s.confirm_streak || t.bursts
        >= s.confirm_bursts
    &&& t.id == before.id
    &&& t.first_seen == before.first_seen
    &&& t.votes == before.votes
    &&& t.classified == before.classified
    &&& t.last_classified == before.last_classified
}

/// The track `t` was begun by detection `d`: it has its frequency, bandwidth and
/// level, a new number, one hit and no vote.
pub open spec fn is_begun(
    s: track::TrackerView,
    f: track::Frame,
    d: int,
    t: track::TrackView,
) -> bool {
    &&& t.id >= s.next_id
    &&& t.offset_hz == f.detections[d].offset_hz
    &&& t.bandwidth_hz == f.detections[d].bandwidth_hz
    &&& t.peak_db == f.detections[d].peak_db
    &&& t.snr_db == f.detections[d].snr_db
    &&& t.first_seen == f.time
    &&& t.last_seen == f.time
    &&& t.hits == 1
    &&& t.streak == 1
    &&& t.bursts == 1
    &&& !t.confirmed
    &&& t.votes.len() == s.classes
    &&& forall|c: int| 0 <= c < t.votes.len() ==> #[trigger] t.votes[c] == 0
    &&& t.classified == 0
    &&& t.last_classified == order::NEG_INFINITY
}

/// `t` is what detection `d` made of an old track, or the track that it began.
pub open spec fn is_of(s: track::TrackerView, f: track::Frame, d: int, t: track::TrackView) -> bool {
    (exists|i: int| #[trigger] is_hit(s, f, i, d, t)) || is_begun(s, f, d, t)
}

/// Track `x` of the sweep has the number of detection `d` and is what the
/// detection made of it.
spec fn is_fate(s: track::TrackerView, f: track::Frame, w: track::Sweep, x: int, d: int) -> bool {
    &&& track_laws::owns(w, x, w.ids[d])
    &&& if x < s.tracks.len() {
        is_hit(s, f, x, d, w.tracks[x])
    } else {
        is_begun(s, f, d, w.tracks[x])
    }
}

spec fn has_fate(s: track::TrackerView, f: track::Frame, w: track::Sweep, d: int) -> bool {
    exists|x: int| is_fate(s, f, w, x, d)
}

proof fn lemma_assigned_fate(
    s: track::TrackerView,
    f: track::Frame,
    w: track::Sweep,
    k: nat,
    d: int,
    x: int,
)
    requires
        track_laws::is_ready(s, f),
        k < f.detections.len(),
        0 <= d < f.detections.len(),
        track::is_sound(s, w, k, f.detections.len()),
        x == match track::nearest(f.near[d], w.taken) {
            Some(t) => t,
            None => w.tracks.len() as int,
        },
    ensures
        is_fate(s, f, track::assigned(s, f, w, d), x, d),
{
    track::lemma_assigned(s, f, w, k, d);
}

proof fn lemma_fates(s: track::TrackerView, f: track::Frame, k: nat)
    requires
        track_laws::is_ready(s, f),
        k <= f.detections.len(),
    ensures
        forall|j: int|
            0 <= j < k ==> has_fate(
                s,
                f,
                track::swept(s, f, k),
                #[trigger] track::choosing_order(f)[j],
            ),
    decreases k,
{
    if k > 0 {
        let n = f.detections.len();
        let o = track::choosing_order(f);
        let before = track::swept(s, f, (k - 1) as nat);
        let after = track::swept(s, f, k);
        let d = o[k - 1];
        lemma_fates(s, f, (k - 1) as nat);
        track_laws::lemma_swept(s, f, (k - 1) as nat);
        order::law_descending(f.detections.map_values(|d: track::Detection| d.peak_db), n);
        assert(0 <= o[k - 1] < n);
        track::lemma_assigned(s, f, before, (k - 1) as nat, d);
        let x = match track::nearest(f.near[d], before.taken) {
            Some(t) => t,
            None => before.tracks.len() as int,
        };
        lemma_assigned_fate(s, f, before, (k - 1) as nat, d, x);
        assert(is_fate(s, f, after, x, d));
        assert forall|j: int| 0 <= j < k implies has_fate(s, f, after, #[trigger] o[j]) by {
            if j < k - 1 {
                assert(0 <= o[j] < n);
                assert(o[j] != o[k - 1]);
                assert(has_fate(s, f, before, o[j]));
                let y = choose|y: int| is_fate(s, f, before, y, o[j]);
                assert(y != x);
                assert(is_fate(s, f, after, y, o[j]));
            }
        }
    }
}

/// A track shows what its detection measured: whichever track has the number of
/// a detection after a frame is the old one with the averaged frequency and
/// bandwidth of this pair, or a new one with those of the detection. There is
/// such a track, as long as what is seen now is not already too old.
pub proof fn law_track_takes_measurements(s: track::TrackerView, f: track::Frame, d: int)
    requires
        track_laws::is_ready(s, f),
        0 <= d < f.detections.len(),
    ensures
        track::sweep(s, f).ids.len() == f.detections.len(),
        forall|j: int|
            0 <= j < track::updated(s, f).tracks.len() && (
            #[trigger] track::updated(s, f).tracks[j]).id == track::sweep(s, f).ids[d] ==> is_of(
                s,
                f,
                d,
                track::updated(s, f).tracks[j],
            ),
        f.now.held && f.now.candidate_held ==> exists|j: int|
            0 <= j < track::updated(s, f).tracks.len() && (
            #[trigger] track::updated(s, f).tracks[j]).id == track::sweep(s, f).ids[d],
{
    let o = track::choosing_order(f);
    let n = f.detections.len();
    let w = track::sweep(s, f);
    let u = track::updated(s, f);
    order::law_descending(f.detections.map_values(|d: track::Detection| d.peak_db), n);
    track_laws::lemma_swept(s, f, n);
    track_laws::lemma_sweep_ids_differ(s, w);
    lemma_fates(s, f, n);
    assert(o.contains(d));
    let k = choose|k: int| 0 <= k < o.len() && o[k] == d;
    assert(has_fate(s, f, w, o[k]));
    let x = choose|x: int| is_fate(s, f, w, x, d);
    assert(is_of(s, f, d, w.tracks[x]));
    track::lemma_kept(f, w, w.tracks.len());
    assert forall|j: int| 0 <= j < u.tracks.len() && (#[trigger] u.tracks[j]).id == w.ids[d] implies
        is_of(s, f, d, u.tracks[j]) by {
        assert(track::is_among(f, w, w.tracks.len(), track::kept(f, w, w.tracks.len())[j]));
        let y = choose|y: int|
            0 <= y < w.tracks.len() && track::is_alive(f, w, y) && #[trigger] w.tracks[y]
                == u.tracks[j];
        assert(w.tracks[y].id != w.tracks[x].id || y == x);
    }
    if f.now.held && f.now.candidate_held {
        track_laws::law_detected_signal_is_followed(s, f, d);
    }
}

/// Turn `j` among the first `k` took track `i`.
spec fn is_taker(
    s: track::TrackerView,
    f: track::Frame,
    w: track::Sweep,
    k: nat,
    i: int,
    j: int,
) -> bool {
    let o = track::choosing_order(f);
    &&& 0 <= j < k
    &&& w.ids[o[j]] == s.tracks[i].id
    &&& f.near[o[j]][i] is Some
}

proof fn lemma_takers(s: track::TrackerView, f: track::Frame, k: nat)
    requires
        track_laws::is_ready(s, f),
        k <= f.detections.len(),
    ensures
        forall|i: int|
            0 <= i < s.tracks.len() && #[trigger] track::swept(s, f, k).taken[i] ==> exists|j: int|
                is_taker(s, f, track::swept(s, f, k), k, i, j),
    decreases k,
{
    if k > 0 {
        let n = f.detections.len();
        let o = track::choosing_order(f);
        let before = track::swept(s, f, (k - 1) as nat);
        let after = track::swept(s, f, k);
        let d = o[k - 1];
        lemma_takers(s, f, (k - 1) as nat);
        track_laws::lemma_swept(s, f, (k - 1) as nat);
        order::law_descending(f.detections.map_values(|d: track::Detection| d.peak_db), n);
        assert(0 <= o[k - 1] < n);
        track::lemma_assigned(s, f, before, (k - 1) as nat, d);
        assert forall|i: int| 0 <= i < s.tracks.len() && #[trigger] after.taken[i] implies exists|
            j: int,
        | is_taker(s, f, after, k, i, j) by {
            if before.taken[i] {
                let m = (k - 1) as nat;
                let j = choose|j: int| is_taker(s, f, before, m, i, j);
                assert(0 <= o[j] < n);
                assert(o[j] != o[k - 1]);
                assert(is_taker(s, f, after, k, i, j));
            } else {
                assert(is_taker(s, f, after, k, i, k - 1));
            }
        }
    }
}

/// A number that a detection has it keeps to the end of the frame.
proof fn lemma_numbers_stay(s: track::TrackerView, f: track::Frame, k: nat, m: nat, j: int)
    requires
        track_laws::is_ready(s, f),
        0 <= j < k <= m <= f.detections.len(),
    ensures
        track::swept(s, f, m).ids[track::choosing_order(f)[j]] == track::swept(
            s,
            f,
            k,
        ).ids[track::choosing_order(f)[j]],
    decreases m,
{
    if k < m {
        let n = f.detections.len();
        let o = track::choosing_order(f);
        lemma_numbers_stay(s, f, k, (m - 1) as nat, j);
        track_laws::lemma_swept(s, f, (m - 1) as nat);
        order::law_descending(f.detections.map_values(|d: track::Detection| d.peak_db), n);
        assert(0 <= o[j] < n && 0 <= o[m - 1] < n);
        assert(o[j] != o[m - 1]);
    }
}

/// Strong detections choose first, and each takes the nearest track: where
/// detection `d` is close to track `i` and got a new number, or that of a track
/// that is not as near as `i`, there a stronger detection has track `i`. Of
/// equally strong ones the first chooses first, and of equally near ones the
/// first is taken.
pub proof fn law_stronger_detection_has_nearer_track(
    s: track::TrackerView,
    f: track::Frame,
    d: int,
    i: int,
)
    requires
        track_laws::is_ready(s, f),
        0 <= d < f.detections.len(),
        0 <= i < s.tracks.len(),
        f.near[d][i] is Some,
        s.tracks[i].id != track::sweep(s, f).ids[d],
        forall|t: int|
            0 <= t < s.tracks.len() && (#[trigger] s.tracks[t]).id == track::sweep(s, f).ids[d] ==> (
            f.near[d][t] matches Some(near) ==> {
                ||| f.near[d][i]->Some_0.distance < near.distance
                ||| f.near[d][i]->Some_0.distance == near.distance && i < t
            }),
    ensures
        exists|e: int|
            0 <= e < f.detections.len() && track::sweep(s, f).ids[e] == s.tracks[i].id && (
            #[trigger] f.near[e])[i] is Some && {
                ||| f.detections[e].peak_db > f.detections[d].peak_db
                ||| f.detections[e].peak_db == f.detections[d].peak_db && e < d
            },
{
    let o = track::choosing_order(f);
    let n = f.detections.len();
    let peaks = f.detections.map_values(|d: track::Detection| d.peak_db);
    let end = track::sweep(s, f);
    order::law_descending(peaks, n);
    assert(o.contains(d));
    let k = choose|k: int| 0 <= k < o.len() && o[k] == d;
    let w = track::swept(s, f, k as nat);
    let next = track::swept(s, f, (k + 1) as nat);
    track_laws::lemma_swept(s, f, k as nat);
    track::lemma_assigned(s, f, w, k as nat, d);
    lemma_numbers_stay(s, f, (k + 1) as nat, n, k);
    assert(next == track::assigned(s, f, w, d));
    if !w.taken[i] {
        assert(track::is_open(f.near[d], w.taken, i));
        track_laws::law_open_track_is_taken(f.near[d], w.taken, i);
        let t = track::nearest(f.near[d], w.taken).unwrap();
        assert(s.tracks[t].id == end.ids[d]);
        assert(track::is_nearest(f.near[d], w.taken, t));
        assert(false);
    }
    lemma_takers(s, f, k as nat);
    let turn = k as nat;
    let j = choose|j: int| is_taker(s, f, w, turn, i, j);
    let e = o[j];
    assert(0 <= o[j] < n);
    lemma_numbers_stay(s, f, k as nat, n, j);
    assert(peaks[e] == f.detections[e].peak_db && peaks[d] == f.detections[d].peak_db);
    assert(f.near[e][i] is Some);
}

/// A detection begins a new signal only if no track is left for it: every track
/// that is close to it has gone to a stronger one.
pub proof fn law_new_signal_had_no_track(s: track::TrackerView, f: track::Frame, d: int, i: int)
    requires
        track_laws::is_ready(s, f),
        0 <= d < f.detections.len(),
        0 <= i < s.tracks.len(),
        f.near[d][i] is Some,
        !track_laws::is_followed(s, track::sweep(s, f).ids[d]),
    ensures
        exists|e: int|
            0 <= e < f.detections.len() && track::sweep(s, f).ids[e] == s.tracks[i].id && (
            #[trigger] f.near[e])[i] is Some && {
                ||| f.detections[e].peak_db > f.detections[d].peak_db
                ||| f.detections[e].peak_db == f.detections[d].peak_db && e < d
            },
{
    assert(s.tracks[i].id != track::sweep(s, f).ids[d]);
    law_stronger_detection_has_nearer_track(s, f, d, i);
}

/// A track that no detection belongs to stays exactly as it is for as long as
/// it may stay away: a confirmed one by its own patience, a candidate by that
/// for candidates. After that it is gone, and if it was confirmed, its loss is
/// reported.
pub proof fn law_silent_track_waits(s: track::TrackerView, f: track::Frame, i: int)
    requires
        track_laws::is_ready(s, f),
        0 <= i < s.tracks.len(),
        forall|d: int|
            0 <= d < f.detections.len() ==> #[trigger] track::sweep(s, f).ids[d] != s.tracks[i].id,
    ensures
        ({
            let stays = if s.tracks[i].confirmed {
                f.ages[i].held
            } else {
                f.ages[i].candidate_held
            };
            let lost = track::TrackEvent::Lost(s.tracks[i].id);
            &&& stays ==> track::updated(s, f).tracks.contains(s.tracks[i])
            &&& !stays ==> !track_laws::is_followed(track::updated(s, f), s.tracks[i].id)
            &&& track::frame_events(s, f).contains(lost) <==> !stays && s.tracks[i].confirmed
        }),
{
    let n = f.detections.len();
    let o = track::choosing_order(f);
    let w = track::sweep(s, f);
    let u = track::updated(s, f);
    let id = s.tracks[i].id;
    let lost = track::TrackEvent::Lost(id);
    track_laws::lemma_swept(s, f, n);
    track_laws::lemma_sweep_ids_differ(s, w);
    assert(track_laws::keeps_track(s, w, i));
    order::law_descending(f.detections.map_values(|d: track::Detection| d.peak_db), n);
    lemma_takers(s, f, n);
    if w.taken[i] {
        let j = choose|j: int| is_taker(s, f, w, n, i, j);
        assert(0 <= o[j] < n);
        assert(w.ids[o[j]] != id);
    }
    assert(w.tracks[i] == s.tracks[i]);
    track::lemma_kept(f, w, w.tracks.len());
    let events = track::frame_events(s, f);
    if track::is_alive(f, w, i) {
        track_laws::lemma_alive_is_kept(f, w, w.tracks.len(), i);
        let r = track::kept(f, w, w.tracks.len());
        let j = choose|j: int| 0 <= j < r.len() && #[trigger] r[j] == w.tracks[i];
        assert(u.tracks[j] == s.tracks[i]);
        if events.contains(lost) {
            track_laws::law_lost_signal_is_gone(s, f, id);
            assert(track_laws::is_followed(u, id)) by {
                assert(u.tracks[j].id == id);
            }
        }
    } else {
        if track_laws::is_followed(u, id) {
            let j = choose|j: int| 0 <= j < u.tracks.len() && #[trigger] u.tracks[j].id == id;
            assert(track::is_among(f, w, w.tracks.len(), track::kept(f, w, w.tracks.len())[j]));
            let x = choose|x: int|
                0 <= x < w.tracks.len() && track::is_alive(f, w, x) && #[trigger] w.tracks[x]
                    == u.tracks[j];
            assert(w.tracks[x].id != w.tracks[i].id || x == i);
        }
        if s.tracks[i].confirmed {
            track_laws::law_loss_is_reported(s, f, i);
        }
        if events.contains(lost) {
            let e = choose|e: int| 0 <= e < events.len() && events[e] == lost;
            track_laws::law_events_are_true(s, f, e);
            let x = choose|x: int|
                0 <= x < w.tracks.len() && #[trigger] w.tracks[x].id == id && w.tracks[x].confirmed
                    && !track::is_alive(f, w, x);
            assert(w.tracks[x].id != w.tracks[i].id || x == i);
        }
    }
}

/// What the contracts say of a track they say of its own fields.
pub proof fn law_track_view(t: track::Track)
    ensures
        t@.id == t.id,
        t@.offset_hz == t.offset_hz,
        t@.bandwidth_hz == t.bandwidth_hz,
        t@.peak_db == t.peak_db,
        t@.snr_db == t.snr_db,
        t@.first_seen == t.first_seen,
        t@.last_seen == t.last_seen,
        t@.hits == t.hits,
        t@.streak == t.streak,
        t@.bursts == t.bursts,
        t@.confirmed == t.confirmed,
        t@.votes == t.votes@,
        t@.classified == t.classified,
        t@.last_classified == t.last_classified,
{
}

/// What the contracts say of the measurements of a frame they say of the
/// arguments.
pub proof fn law_frame_view(
    time: i64,
    detections: Seq<track::Detection>,
    near: Seq<Vec<Option<track::Near>>>,
    ages: Seq<track::Age>,
    now: track::Age,
    d: int,
)
    requires
        0 <= d < near.len(),
    ensures
        ({
            let f = track::frame(time, detections, near, ages, now);
            &&& f.time == time
            &&& f.detections == detections
            &&& f.near.len() == near.len()
            &&& f.near[d] == near[d]@
            &&& f.ages == ages
            &&& f.now == now
        }),
{
}

} // verus!

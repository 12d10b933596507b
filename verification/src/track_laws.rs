//! What holds of the tracker for every frame.

use crate::order;
use crate::track;
use vstd::prelude::*;

verus! {

/// What every law needs of a tracker and a frame.
pub open spec fn is_ready(s: track::TrackerView, f: track::Frame) -> bool {
    &&& track::is_valid(s)
    &&& track::can_count(s)
    &&& track::fits(s, f)
    &&& s.next_id + f.detections.len() <= u64::MAX
}

/// A detection that is close to an open track does not begin a new one.
pub proof fn law_open_track_is_taken(row: Seq<Option<track::Near>>, taken: Seq<bool>, t: int)
    requires
        track::is_open(row, taken, t),
    ensures
        track::nearest(row, taken) is Some,
        track::is_nearest(row, taken, track::nearest(row, taken).unwrap()),
{
    lemma_some_nearest(row, taken, t, row.len());
    let u = choose|u: int| is_nearest_below(row, taken, row.len(), u);
    assert(track::is_nearest(row, taken, u));
}

spec fn is_nearest_below(
    row: Seq<Option<track::Near>>,
    taken: Seq<bool>,
    n: nat,
    t: int,
) -> bool {
    &&& track::is_open(row, taken, t)
    &&& t < n
    &&& forall|u: int| #[trigger]
        track::is_open(row, taken, u) && u < n ==> {
            ||| row[t].unwrap().distance < row[u].unwrap().distance
            ||| row[t].unwrap().distance == row[u].unwrap().distance && t <= u
        }
}

proof fn lemma_some_nearest(row: Seq<Option<track::Near>>, taken: Seq<bool>, t: int, n: nat)
    requires
        track::is_open(row, taken, t),
        t < n <= row.len(),
    ensures
        exists|u: int| is_nearest_below(row, taken, n, u),
    decreases n,
{
    let m = (n - 1) as nat;
    if exists|x: int| track::is_open(row, taken, x) && x < m {
        let x = choose|x: int| track::is_open(row, taken, x) && x < m;
        lemma_some_nearest(row, taken, x, m);
        let u = choose|u: int| is_nearest_below(row, taken, m, u);
        if track::is_open(row, taken, m as int) && row[m as int].unwrap().distance
            < row[u].unwrap().distance {
            assert(is_nearest_below(row, taken, n, m as int));
        } else {
            assert(is_nearest_below(row, taken, n, u));
        }
    } else {
        assert(t == m);
        assert(is_nearest_below(row, taken, n, t));
    }
}

/// Track `x` has its detection of this frame and the number `id`.
pub open spec fn owns(w: track::Sweep, x: int, id: u64) -> bool {
    0 <= x < w.tracks.len() && w.taken[x] && w.tracks[x].id == id
}

/// Some track does.
pub open spec fn has_owner(w: track::Sweep, id: u64) -> bool {
    exists|x: int| owns(w, x, id)
}

/// What a sweep does to a track that was there.
pub open spec fn keeps_track(s: track::TrackerView, w: track::Sweep, i: int) -> bool {
    &&& w.tracks[i].id == s.tracks[i].id
    &&& s.tracks[i].confirmed ==> w.tracks[i].confirmed
    &&& w.tracks[i].confirmed && !s.tracks[i].confirmed ==> track::has_earned(s, w.tracks[i])
    &&& w.taken[i] && !w.tracks[i].confirmed ==> !track::has_earned(s, w.tracks[i])
}

/// What it does to a new one.
pub open spec fn adds_track(s: track::TrackerView, w: track::Sweep, i: int) -> bool {
    &&& w.tracks[i].id >= s.next_id
    &&& !w.tracks[i].confirmed
    &&& w.tracks[i].hits == 1
    &&& w.tracks[i].streak == 1
    &&& w.tracks[i].bursts == 1
}

/// What a sweep does to the tracks.
pub open spec fn keeps_identity(s: track::TrackerView, w: track::Sweep) -> bool {
    &&& forall|i: int| 0 <= i < s.tracks.len() ==> #[trigger] keeps_track(s, w, i)
    &&& forall|i: int| s.tracks.len() <= i < w.tracks.len() ==> #[trigger] adds_track(s, w, i)
}

/// Confirmations of a sweep.
pub open spec fn has_true_events(s: track::TrackerView, w: track::Sweep) -> bool {
    &&& forall|e: int|
        0 <= e < w.events.len() ==> {
            &&& #[trigger] w.events[e] is Confirmed
            &&& has_confirmed(s, w, w.events[e]->Confirmed_0)
        }
    &&& forall|e: int, g: int|
        0 <= e < g < w.events.len() ==> #[trigger] w.events[e] != #[trigger] w.events[g]
}

/// A signal with this number became confirmed.
pub open spec fn has_confirmed(s: track::TrackerView, w: track::Sweep, id: u64) -> bool {
    exists|i: int|
        0 <= i < s.tracks.len() && #[trigger] w.tracks[i].id == id && becomes_confirmed(s, w, i)
}

/// Track `i` was a candidate and earned its confirmation in this frame.
pub open spec fn becomes_confirmed(s: track::TrackerView, w: track::Sweep, i: int) -> bool {
    &&& !s.tracks[i].confirmed
    &&& w.tracks[i].confirmed
    &&& w.taken[i]
    &&& track::has_earned(s, w.tracks[i])
}

pub proof fn lemma_swept(s: track::TrackerView, f: track::Frame, k: nat)
    requires
        is_ready(s, f),
        k <= f.detections.len(),
    ensures
        track::is_sound(s, track::swept(s, f, k), k, f.detections.len()),
        keeps_identity(s, track::swept(s, f, k)),
        has_true_events(s, track::swept(s, f, k)),
        forall|j: int|
            0 <= j < k ==> has_owner(
                track::swept(s, f, k),
                track::swept(s, f, k).ids[#[trigger] track::choosing_order(f)[j]],
            ),
        forall|i: int, j: int|
            0 <= i < j < k ==> track::swept(s, f, k).ids[#[trigger] track::choosing_order(f)[i]]
                != track::swept(s, f, k).ids[#[trigger] track::choosing_order(f)[j]],
    decreases k,
{
    let n = f.detections.len();
    if k == 0 {
        track::lemma_sweep_start(s, n);
    } else {
        let o = track::choosing_order(f);
        let peaks = f.detections.map_values(|d: track::Detection| d.peak_db);
        let before = track::swept(s, f, (k - 1) as nat);
        let after = track::swept(s, f, k);
        let d = o[k - 1];
        lemma_swept(s, f, (k - 1) as nat);
        order::law_descending(peaks, n);
        assert(0 <= o[k - 1] < n);
        track::lemma_assigned(s, f, before, (k - 1) as nat, d);
        let x = match track::nearest(f.near[d], before.taken) {
            Some(t) => t,
            None => before.tracks.len() as int,
        };
        assert(owns(after, x, after.ids[d]));
        assert(has_owner(after, after.ids[d]));
        assert forall|j: int| 0 <= j < k - 1 implies {
            &&& o[j] != d
            &&& after.ids[#[trigger] o[j]] == before.ids[o[j]]
            &&& has_owner(after, after.ids[o[j]])
            &&& after.ids[o[j]] != after.ids[d]
        } by {
            assert(0 <= o[j] < n);
            assert(o[j] != o[k - 1]);
            assert(has_owner(before, before.ids[o[j]]));
            let y = choose|y: int| owns(before, y, before.ids[o[j]]);
            assert(y != x);
            assert(owns(after, y, before.ids[o[j]]));
            let v = track::TrackerView { tracks: after.tracks, next_id: after.next_id, ..s };
            assert(track::is_valid(v));
            assert(v.tracks[x].id != v.tracks[y].id);
        }
        lemma_identity(s, f, before, (k - 1) as nat, d);
        lemma_true_events(s, f, before, (k - 1) as nat, d);
    }
}

proof fn lemma_identity(s: track::TrackerView, f: track::Frame, w: track::Sweep, k: nat, d: int)
    requires
        is_ready(s, f),
        k < f.detections.len(),
        0 <= d < f.detections.len(),
        track::is_sound(s, w, k, f.detections.len()),
        keeps_identity(s, w),
    ensures
        keeps_identity(s, track::assigned(s, f, w, d)),
{
    let a = track::assigned(s, f, w, d);
    track::lemma_assigned(s, f, w, k, d);
    assert forall|i: int| 0 <= i < s.tracks.len() implies #[trigger] keeps_track(s, a, i) by {
        assert(keeps_track(s, w, i));
    }
    assert forall|i: int| s.tracks.len() <= i < a.tracks.len() implies #[trigger] adds_track(
        s,
        a,
        i,
    ) by {
        if i < w.tracks.len() {
            assert(adds_track(s, w, i));
            assert(w.taken[i]);
        }
    }
}

proof fn lemma_true_events(
    s: track::TrackerView,
    f: track::Frame,
    w: track::Sweep,
    k: nat,
    d: int,
)
    requires
        is_ready(s, f),
        k < f.detections.len(),
        0 <= d < f.detections.len(),
        track::is_sound(s, w, k, f.detections.len()),
        keeps_identity(s, w),
        has_true_events(s, w),
    ensures
        has_true_events(s, track::assigned(s, f, w, d)),
{
    let a = track::assigned(s, f, w, d);
    track::lemma_assigned(s, f, w, k, d);
    match track::nearest(f.near[d], w.taken) {
        Some(t) => {
            assert forall|e: int| 0 <= e < w.events.len() implies has_confirmed(
                s,
                a,
                (#[trigger] w.events[e])->Confirmed_0,
            ) && w.events[e]->Confirmed_0 != w.tracks[t].id by {
                let id = w.events[e]->Confirmed_0;
                assert(has_confirmed(s, w, id));
                let i = choose|i: int|
                    0 <= i < s.tracks.len() && #[trigger] w.tracks[i].id == id
                        && becomes_confirmed(s, w, i);
                assert(i != t);
                assert(a.tracks[i].id == id);
                let v = track::TrackerView { tracks: w.tracks, next_id: w.next_id, ..s };
                assert(track::is_valid(v));
                assert(v.tracks[i].id != v.tracks[t].id);
            }
            if a.events.len() > w.events.len() {
                assert(a.tracks[t].id == w.tracks[t].id);
                assert(becomes_confirmed(s, a, t));
            }
        },
        None => {
            assert forall|e: int| 0 <= e < a.events.len() implies has_confirmed(
                s,
                a,
                (#[trigger] a.events[e])->Confirmed_0,
            ) by {
                let id = w.events[e]->Confirmed_0;
                assert(has_confirmed(s, w, id));
                let i = choose|i: int|
                    0 <= i < s.tracks.len() && #[trigger] w.tracks[i].id == id
                        && becomes_confirmed(s, w, i);
                assert(a.tracks[i].id == id);
            }
        },
    }
}

/// No two detections of a frame belong to the same signal.
pub proof fn law_detections_are_different_signals(
    s: track::TrackerView,
    f: track::Frame,
    a: int,
    b: int,
)
    requires
        is_ready(s, f),
        0 <= a < b < f.detections.len(),
    ensures
        track::sweep(s, f).ids[a] != track::sweep(s, f).ids[b],
{
    let o = track::choosing_order(f);
    let n = f.detections.len();
    order::law_descending(f.detections.map_values(|d: track::Detection| d.peak_db), n);
    lemma_swept(s, f, n);
    assert(o.contains(a) && o.contains(b));
    let i = choose|i: int| 0 <= i < o.len() && o[i] == a;
    let j = choose|j: int| 0 <= j < o.len() && o[j] == b;
    if i < j {
        assert(track::swept(s, f, n).ids[o[i]] != track::swept(s, f, n).ids[o[j]]);
    } else {
        assert(track::swept(s, f, n).ids[o[j]] != track::swept(s, f, n).ids[o[i]]);
    }
}

/// A signal with this number is followed.
pub open spec fn is_followed(s: track::TrackerView, id: u64) -> bool {
    exists|i: int| 0 <= i < s.tracks.len() && #[trigger] s.tracks[i].id == id
}

pub proof fn lemma_alive_is_kept(f: track::Frame, w: track::Sweep, k: nat, i: int)
    requires
        0 <= i < k <= w.tracks.len(),
        track::is_alive(f, w, i),
    ensures
        exists|j: int|
            0 <= j < track::kept(f, w, k).len() && #[trigger] track::kept(f, w, k)[j]
                == w.tracks[i],
    decreases k,
{
    let r = track::kept(f, w, k);
    if i == k - 1 {
        assert(r[r.len() - 1] == w.tracks[i]);
    } else {
        let before = track::kept(f, w, (k - 1) as nat);
        lemma_alive_is_kept(f, w, (k - 1) as nat, i);
        let j = choose|j: int| 0 <= j < before.len() && #[trigger] before[j] == w.tracks[i];
        assert(r[j] == w.tracks[i]);
    }
}

/// The signal of a detection is followed after the frame, as long as what is
/// seen now is not already too old.
pub proof fn law_detected_signal_is_followed(s: track::TrackerView, f: track::Frame, d: int)
    requires
        is_ready(s, f),
        0 <= d < f.detections.len(),
        f.now.held,
        f.now.candidate_held,
    ensures
        is_followed(track::updated(s, f), track::sweep(s, f).ids[d]),
{
    let o = track::choosing_order(f);
    let n = f.detections.len();
    let w = track::sweep(s, f);
    order::law_descending(f.detections.map_values(|d: track::Detection| d.peak_db), n);
    lemma_swept(s, f, n);
    assert(o.contains(d));
    let i = choose|i: int| 0 <= i < o.len() && o[i] == d;
    assert(has_owner(w, w.ids[o[i]]));
    let x = choose|x: int| owns(w, x, w.ids[d]);
    lemma_alive_is_kept(f, w, w.tracks.len(), x);
    let r = track::kept(f, w, w.tracks.len());
    let j = choose|j: int| 0 <= j < r.len() && #[trigger] r[j] == w.tracks[x];
    assert(track::updated(s, f).tracks[j].id == w.ids[d]);
}

/// A track shows detection `d`: it was seen in this frame, with that level.
pub open spec fn shows(f: track::Frame, t: track::TrackView, d: int) -> bool {
    &&& t.last_seen == f.time
    &&& t.peak_db == f.detections[d].peak_db
    &&& t.snr_db == f.detections[d].snr_db
}

/// Track `x` of the sweep shows detection `d` and carries its number.
spec fn shows_in(f: track::Frame, w: track::Sweep, x: int, d: int) -> bool {
    owns(w, x, w.ids[d]) && shows(f, w.tracks[x], d)
}

spec fn is_shown(f: track::Frame, w: track::Sweep, d: int) -> bool {
    exists|x: int| shows_in(f, w, x, d)
}

proof fn lemma_swept_shows(s: track::TrackerView, f: track::Frame, k: nat)
    requires
        is_ready(s, f),
        k <= f.detections.len(),
    ensures
        forall|j: int|
            0 <= j < k ==> is_shown(
                f,
                track::swept(s, f, k),
                #[trigger] track::choosing_order(f)[j],
            ),
    decreases k,
{
    if k > 0 {
        let n = f.detections.len();
        let o = track::choosing_order(f);
        let before = track::swept(s, f, (k - 1) as nat);
        let after = track::swept(s, f, k);
        let d = o[k - 1];
        lemma_swept_shows(s, f, (k - 1) as nat);
        lemma_swept(s, f, (k - 1) as nat);
        order::law_descending(f.detections.map_values(|d: track::Detection| d.peak_db), n);
        assert(0 <= o[k - 1] < n);
        track::lemma_assigned(s, f, before, (k - 1) as nat, d);
        let x = match track::nearest(f.near[d], before.taken) {
            Some(t) => t,
            None => before.tracks.len() as int,
        };
        assert(shows_in(f, after, x, d));
        assert forall|j: int| 0 <= j < k implies is_shown(f, after, #[trigger] o[j]) by {
            if j < k - 1 {
                assert(0 <= o[j] < n);
                assert(o[j] != o[k - 1]);
                assert(is_shown(f, before, o[j]));
                let y = choose|y: int| shows_in(f, before, y, o[j]);
                assert(y != x);
                assert(shows_in(f, after, y, o[j]));
            }
        }
    }
}

/// Behind the number of every detection stands a track that was seen in this
/// frame with the level of that detection. A signal that was not followed
/// before has a number that was never given out.
pub proof fn law_track_shows_detection(s: track::TrackerView, f: track::Frame, d: int)
    requires
        is_ready(s, f),
        0 <= d < f.detections.len(),
        f.now.held,
        f.now.candidate_held,
    ensures
        track::sweep(s, f).ids.len() == f.detections.len(),
        exists|j: int|
            0 <= j < track::updated(s, f).tracks.len() && (
            #[trigger] track::updated(s, f).tracks[j]).id == track::sweep(s, f).ids[d] && shows(
                f,
                track::updated(s, f).tracks[j],
                d,
            ),
        is_followed(s, track::sweep(s, f).ids[d]) || s.next_id <= track::sweep(s, f).ids[d],
{
    let o = track::choosing_order(f);
    let n = f.detections.len();
    let w = track::sweep(s, f);
    order::law_descending(f.detections.map_values(|d: track::Detection| d.peak_db), n);
    lemma_swept(s, f, n);
    lemma_swept_shows(s, f, n);
    assert(o.contains(d));
    let i = choose|i: int| 0 <= i < o.len() && o[i] == d;
    assert(is_shown(f, w, o[i]));
    let x = choose|x: int| shows_in(f, w, x, d);
    lemma_alive_is_kept(f, w, w.tracks.len(), x);
    let r = track::kept(f, w, w.tracks.len());
    let j = choose|j: int| 0 <= j < r.len() && #[trigger] r[j] == w.tracks[x];
    assert(track::updated(s, f).tracks[j].id == w.ids[d]);
    law_numbers_are_not_reused(s, f, w.ids[d]);
}

/// Numbers only grow: a signal that is followed after a frame was followed
/// before, or its number was never given out.
pub proof fn law_numbers_are_not_reused(s: track::TrackerView, f: track::Frame, id: u64)
    requires
        is_ready(s, f),
        is_followed(track::updated(s, f), id),
    ensures
        is_followed(s, id) || s.next_id <= id < track::updated(s, f).next_id,
        s.next_id <= track::updated(s, f).next_id,
{
    let w = track::sweep(s, f);
    let u = track::updated(s, f);
    lemma_swept(s, f, f.detections.len());
    lemma_sweep_ids_differ(s, w);
    track::lemma_kept(f, w, w.tracks.len());
    let i = choose|i: int| 0 <= i < u.tracks.len() && #[trigger] u.tracks[i].id == id;
    assert(track::is_among(f, w, w.tracks.len(), track::kept(f, w, w.tracks.len())[i]));
    let j = choose|j: int|
        0 <= j < w.tracks.len() && track::is_alive(f, w, j) && #[trigger] w.tracks[j]
            == u.tracks[i];
    let v = track::TrackerView { tracks: w.tracks, next_id: w.next_id, ..s };
    assert(track::is_valid_track(v.tracks[j], v.next_id));
    if j < s.tracks.len() {
        assert(keeps_track(s, w, j));
        assert(s.tracks[j].id == id);
    } else {
        assert(adds_track(s, w, j));
    }
}

pub proof fn lemma_sweep_ids_differ(s: track::TrackerView, w: track::Sweep)
    requires
        track::is_valid(track::TrackerView { tracks: w.tracks, next_id: w.next_id, ..s }),
    ensures
        forall|i: int, j: int|
            0 <= i < j < w.tracks.len() ==> (#[trigger] w.tracks[i]).id != (
            #[trigger] w.tracks[j]).id,
{
    let v = track::TrackerView { tracks: w.tracks, next_id: w.next_id, ..s };
    assert forall|i: int, j: int| 0 <= i < j < w.tracks.len() implies (#[trigger] w.tracks[i]).id
        != (#[trigger] w.tracks[j]).id by {
        assert(v.tracks[i].id != v.tracks[j].id);
    }
}

proof fn lemma_reported(s: track::TrackerView, f: track::Frame, w: track::Sweep, k: nat)
    requires
        k <= w.tracks.len(),
        has_true_events(s, w),
    ensures
        forall|e: int|
            0 <= e < track::reported(f, w, k).len() ==> match #[trigger] track::reported(
                f,
                w,
                k,
            )[e] {
                track::TrackEvent::Confirmed(id) => has_confirmed(s, w, id),
                track::TrackEvent::Lost(id) => has_lost(f, w, id),
            },
    decreases k,
{
    if k > 0 {
        lemma_reported(s, f, w, (k - 1) as nat);
        let r = track::reported(f, w, k);
        let before = track::reported(f, w, (k - 1) as nat);
        assert forall|e: int| 0 <= e < r.len() implies match #[trigger] r[e] {
            track::TrackEvent::Confirmed(id) => has_confirmed(s, w, id),
            track::TrackEvent::Lost(id) => has_lost(f, w, id),
        } by {
            if e < before.len() {
                assert(r[e] == before[e]);
            } else {
                assert(w.tracks[k - 1].id == r[e]->Lost_0);
            }
        }
    }
}

/// A confirmed signal with this number has stayed away for too long.
pub open spec fn has_lost(f: track::Frame, w: track::Sweep, id: u64) -> bool {
    exists|i: int|
        0 <= i < w.tracks.len() && #[trigger] w.tracks[i].id == id && w.tracks[i].confirmed
            && !track::is_alive(f, w, i)
}

/// An event tells the truth: a confirmation is earned in this frame by a signal
/// that was not confirmed before, and a loss is that of a confirmed signal.
pub proof fn law_events_are_true(s: track::TrackerView, f: track::Frame, e: int)
    requires
        is_ready(s, f),
        0 <= e < track::frame_events(s, f).len(),
    ensures
        match track::frame_events(s, f)[e] {
            track::TrackEvent::Confirmed(id) => has_confirmed(s, track::sweep(s, f), id),
            track::TrackEvent::Lost(id) => has_lost(f, track::sweep(s, f), id),
        },
{
    let w = track::sweep(s, f);
    lemma_swept(s, f, f.detections.len());
    lemma_reported(s, f, w, w.tracks.len());
}

proof fn lemma_loss_is_reported(f: track::Frame, w: track::Sweep, k: nat, i: int)
    requires
        0 <= i < k <= w.tracks.len(),
        w.tracks[i].confirmed,
        !track::is_alive(f, w, i),
    ensures
        track::reported(f, w, k).contains(track::TrackEvent::Lost(w.tracks[i].id)),
    decreases k,
{
    let r = track::reported(f, w, k);
    if i == k - 1 {
        assert(r[r.len() - 1] == track::TrackEvent::Lost(w.tracks[i].id));
    } else {
        lemma_loss_is_reported(f, w, (k - 1) as nat, i);
        let before = track::reported(f, w, (k - 1) as nat);
        let j = choose|j: int|
            0 <= j < before.len() && before[j] == track::TrackEvent::Lost(w.tracks[i].id);
        assert(r[j] == before[j]);
    }
}

/// A confirmed signal does not disappear without a report.
pub proof fn law_loss_is_reported(s: track::TrackerView, f: track::Frame, i: int)
    requires
        is_ready(s, f),
        0 <= i < s.tracks.len(),
        s.tracks[i].confirmed,
    ensures
        is_followed(track::updated(s, f), s.tracks[i].id) || track::frame_events(s, f).contains(
            track::TrackEvent::Lost(s.tracks[i].id),
        ),
{
    let w = track::sweep(s, f);
    lemma_swept(s, f, f.detections.len());
    assert(keeps_track(s, w, i));
    if track::is_alive(f, w, i) {
        lemma_alive_is_kept(f, w, w.tracks.len(), i);
        let r = track::kept(f, w, w.tracks.len());
        let j = choose|j: int| 0 <= j < r.len() && #[trigger] r[j] == w.tracks[i];
        assert(track::updated(s, f).tracks[j].id == s.tracks[i].id);
    } else {
        lemma_loss_is_reported(f, w, w.tracks.len(), i);
    }
}

/// A signal that was reported lost is not followed any more.
pub proof fn law_lost_signal_is_gone(s: track::TrackerView, f: track::Frame, id: u64)
    requires
        is_ready(s, f),
        track::frame_events(s, f).contains(track::TrackEvent::Lost(id)),
    ensures
        !is_followed(track::updated(s, f), id),
{
    let w = track::sweep(s, f);
    let u = track::updated(s, f);
    let events = track::frame_events(s, f);
    let e = choose|e: int| 0 <= e < events.len() && events[e] == track::TrackEvent::Lost(id);
    lemma_swept(s, f, f.detections.len());
    law_events_are_true(s, f, e);
    lemma_sweep_ids_differ(s, w);
    track::lemma_kept(f, w, w.tracks.len());
    let x = choose|i: int|
        0 <= i < w.tracks.len() && #[trigger] w.tracks[i].id == id && w.tracks[i].confirmed
            && !track::is_alive(f, w, i);
    if is_followed(u, id) {
        let i = choose|i: int| 0 <= i < u.tracks.len() && #[trigger] u.tracks[i].id == id;
        assert(track::is_among(f, w, w.tracks.len(), track::kept(f, w, w.tracks.len())[i]));
        let j = choose|j: int|
            0 <= j < w.tracks.len() && track::is_alive(f, w, j) && #[trigger] w.tracks[j]
                == u.tracks[i];
        assert(w.tracks[j].id != w.tracks[x].id || j == x);
    }
}

/// No candidate has what it needs to be confirmed.
pub open spec fn candidates_have_not_earned(s: track::TrackerView) -> bool {
    forall|i: int|
        0 <= i < s.tracks.len() && !(#[trigger] s.tracks[i]).confirmed ==> !track::has_earned(
            s,
            s.tracks[i],
        )
}

/// Only a signal that was there for long enough in a row, or in enough separate
/// bursts, is confirmed, and it is confirmed at once: what stays a candidate
/// falls short of both.
pub proof fn law_candidates_fall_short(s: track::TrackerView, f: track::Frame)
    requires
        is_ready(s, f),
        s.confirm_streak >= 2,
        s.confirm_bursts >= 2,
        candidates_have_not_earned(s),
    ensures
        candidates_have_not_earned(track::updated(s, f)),
{
    let w = track::sweep(s, f);
    let u = track::updated(s, f);
    lemma_swept(s, f, f.detections.len());
    lemma_sweep_ids_differ(s, w);
    track::lemma_kept(f, w, w.tracks.len());
    assert forall|i: int| 0 <= i < u.tracks.len() && !(#[trigger] u.tracks[i]).confirmed implies
        !track::has_earned(u, u.tracks[i]) by {
        assert(track::is_among(f, w, w.tracks.len(), track::kept(f, w, w.tracks.len())[i]));
        let j = choose|j: int|
            0 <= j < w.tracks.len() && track::is_alive(f, w, j) && #[trigger] w.tracks[j]
                == u.tracks[i];
        if j < s.tracks.len() {
            assert(keeps_track(s, w, j));
        } else {
            assert(adds_track(s, w, j));
        }
    }
}

/// A confirmed signal stays confirmed for as long as it is followed.
pub proof fn law_confirmation_lasts(s: track::TrackerView, f: track::Frame, i: int, j: int)
    requires
        is_ready(s, f),
        0 <= i < s.tracks.len(),
        s.tracks[i].confirmed,
        0 <= j < track::updated(s, f).tracks.len(),
        track::updated(s, f).tracks[j].id == s.tracks[i].id,
    ensures
        track::updated(s, f).tracks[j].confirmed,
{
    let w = track::sweep(s, f);
    let u = track::updated(s, f);
    lemma_swept(s, f, f.detections.len());
    lemma_sweep_ids_differ(s, w);
    track::lemma_kept(f, w, w.tracks.len());
    assert(track::is_among(f, w, w.tracks.len(), track::kept(f, w, w.tracks.len())[j]));
    let x = choose|x: int|
        0 <= x < w.tracks.len() && track::is_alive(f, w, x) && #[trigger] w.tracks[x]
            == u.tracks[j];
    assert(keeps_track(s, w, i));
    assert(w.tracks[i].id != w.tracks[x].id || i == x);
}

} // verus!

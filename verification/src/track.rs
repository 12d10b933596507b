//! Following signals over time.
//!
//! The [`Tracker`] assigns the detections of successive frames to signals. A
//! signal counts as confirmed once it is there for several frames in a row (a
//! steady sender) or comes back in several separate bursts on exactly the same
//! frequency (such as AIS). A frequency hopper does neither: it stays for
//! fractions of a second and meets an old frequency only by chance.
//!
//! Frequencies, levels and times are order keys, see [`crate::order`]. What
//! needs arithmetic on them comes with the call: which tracks a detection is
//! close to, and how long ago each track was seen.

use crate::order;
use vstd::prelude::*;

verus! {

/// A contiguous occupied range in one spectrum.
#[derive(Clone, Copy, Debug, PartialEq, Eq, Structural)]
pub struct Detection {
    /// Centre of power, relative to the middle of the band.
    pub offset_hz: i64,
    pub bandwidth_hz: i64,
    pub peak_db: i64,
    /// Peak above the noise estimate at the strongest bin.
    pub snr_db: i64,
    pub first_bin: usize,
    pub last_bin: usize,
}

/// A detection lies within the tolerance of a track.
#[derive(Clone, Copy, Debug, PartialEq, Eq, Structural)]
pub struct Near {
    /// How far apart they are.
    pub distance: i64,
    /// Frequency of the track with the detection averaged in.
    pub offset_hz: i64,
    /// Bandwidth of the track with the detection averaged in.
    pub bandwidth_hz: i64,
}

/// How long ago a track was seen.
#[derive(Clone, Copy, Debug, PartialEq, Eq, Structural)]
pub struct Age {
    /// In the frame before, so that a hit continues the streak.
    pub continuous: bool,
    /// Within the time for which a confirmed signal may stay away.
    pub held: bool,
    /// Within the time for which a candidate may stay away.
    pub candidate_held: bool,
}

/// A signal followed over several frames.
#[derive(Clone, Debug, PartialEq, Eq)]
pub struct Track {
    pub id: u64,
    pub offset_hz: i64,
    pub bandwidth_hz: i64,
    pub peak_db: i64,
    pub snr_db: i64,
    pub first_seen: i64,
    pub last_seen: i64,
    pub hits: u32,
    /// Hits in successive frames until now.
    pub streak: u32,
    /// Separate appearances: every gap between hits begins a new one.
    pub bursts: u32,
    pub confirmed: bool,
    /// Class probabilities, summed over all classifications.
    pub votes: Vec<i64>,
    pub classified: u32,
    pub last_classified: i64,
}

/// What a [`Track`] holds.
#[verifier::ext_equal]
pub struct TrackView {
    pub id: u64,
    pub offset_hz: i64,
    pub bandwidth_hz: i64,
    pub peak_db: i64,
    pub snr_db: i64,
    pub first_seen: i64,
    pub last_seen: i64,
    pub hits: u32,
    pub streak: u32,
    pub bursts: u32,
    pub confirmed: bool,
    pub votes: Seq<i64>,
    pub classified: u32,
    pub last_classified: i64,
}

impl View for Track {
    type V = TrackView;

    open spec fn view(&self) -> TrackView {
        TrackView {
            id: self.id,
            offset_hz: self.offset_hz,
            bandwidth_hz: self.bandwidth_hz,
            peak_db: self.peak_db,
            snr_db: self.snr_db,
            first_seen: self.first_seen,
            last_seen: self.last_seen,
            hits: self.hits,
            streak: self.streak,
            bursts: self.bursts,
            confirmed: self.confirmed,
            votes: self.votes@,
            classified: self.classified,
            last_classified: self.last_classified,
        }
    }
}

/// The sum of votes is a number above zero.
pub open spec fn is_positive_sum(total: i64) -> bool {
    order::ZERO < total <= order::INFINITY_32
}

impl Track {
    /// The most probable class, the last one of several. `total` is the sum of
    /// all votes; without votes there is no class.
    pub fn class(&self, total: i64) -> (r: Option<usize>)
        ensures
            r is Some <==> self.votes@.len() > 0 && is_positive_sum(total),
            r matches Some(i) ==> order::is_last_max(
                self.votes@,
                0,
                self.votes@.len() as int,
                i as int,
            ),
    {
        if self.votes.len() == 0 || !(0 < total && total <= order::INFINITY_32) {
            return None;
        }
        Some(order::last_max(&self.votes, 0, self.votes.len()))
    }
}

/// What the tracker reports of a signal.
#[derive(Clone, Copy, Debug, PartialEq, Eq, Structural)]
pub enum TrackEvent {
    Confirmed(u64),
    Lost(u64),
}

/// Assigns detections to signals over time.
pub struct Tracker {
    tracks: Vec<Track>,
    next_id: u64,
    classes: usize,
    confirm_streak: u32,
    confirm_bursts: u32,
}

/// What a [`Tracker`] holds.
#[verifier::ext_equal]
pub struct TrackerView {
    pub tracks: Seq<TrackView>,
    pub next_id: u64,
    /// Number of classes that a track collects votes for.
    pub classes: nat,
    /// Confirmed after that many frames in a row
    pub confirm_streak: u32,
    /// or after that many separate bursts.
    pub confirm_bursts: u32,
}

/// The views of tracks.
pub open spec fn views(tracks: Seq<Track>) -> Seq<TrackView> {
    tracks.map_values(|t: Track| t@)
}

impl View for Tracker {
    type V = TrackerView;

    closed spec fn view(&self) -> TrackerView {
        TrackerView {
            tracks: views(self.tracks@),
            next_id: self.next_id,
            classes: self.classes as nat,
            confirm_streak: self.confirm_streak,
            confirm_bursts: self.confirm_bursts,
        }
    }
}

/// Counters of a track stay behind its hits, and its number was given out.
pub open spec fn is_valid_track(t: TrackView, next_id: u64) -> bool {
    &&& 1 <= t.id < next_id
    &&& t.streak <= t.hits
    &&& t.bursts <= t.hits
}

/// Every signal has its own number.
pub open spec fn is_valid(s: TrackerView) -> bool {
    &&& s.next_id >= 1
    &&& forall|i: int| 0 <= i < s.tracks.len() ==> is_valid_track(#[trigger] s.tracks[i], s.next_id)
    &&& forall|i: int, j: int|
        0 <= i < j < s.tracks.len() ==> (#[trigger] s.tracks[i]).id != (#[trigger] s.tracks[j]).id
}

/// No hit counter is at its end.
pub open spec fn can_count(s: TrackerView) -> bool {
    forall|i: int| 0 <= i < s.tracks.len() ==> (#[trigger] s.tracks[i]).hits < u32::MAX
}

/// Measurements of one frame that belong to the state of the tracker.
pub struct Frame {
    pub detections: Seq<Detection>,
    /// For every detection and every track, whether and how close they are.
    pub near: Seq<Seq<Option<Near>>>,
    /// How long ago each track was seen.
    pub ages: Seq<Age>,
    /// The age of what is seen in this frame.
    pub now: Age,
    pub time: i64,
}

/// The measurements have the right number.
pub open spec fn fits(s: TrackerView, f: Frame) -> bool {
    &&& f.near.len() == f.detections.len()
    &&& forall|d: int| 0 <= d < f.near.len() ==> (#[trigger] f.near[d]).len() == s.tracks.len()
    &&& f.ages.len() == s.tracks.len()
}

/// Track `t` is close to the detection and no other detection has it yet.
pub open spec fn is_open(row: Seq<Option<Near>>, taken: Seq<bool>, t: int) -> bool {
    &&& 0 <= t < row.len()
    &&& row[t] is Some
    &&& !taken[t]
}

/// Of the open tracks `t` is the closest, the first one of several.
pub open spec fn is_nearest(row: Seq<Option<Near>>, taken: Seq<bool>, t: int) -> bool {
    &&& is_open(row, taken, t)
    &&& forall|u: int| #[trigger]
        is_open(row, taken, u) ==> {
            ||| row[t].unwrap().distance < row[u].unwrap().distance
            ||| row[t].unwrap().distance == row[u].unwrap().distance && t <= u
        }
}

/// The track that a detection goes to.
pub open spec fn nearest(row: Seq<Option<Near>>, taken: Seq<bool>) -> Option<int> {
    if exists|t: int| is_nearest(row, taken, t) {
        Some(choose|t: int| is_nearest(row, taken, t))
    } else {
        None
    }
}

/// A track that was hit, before its confirmation.
pub open spec fn hit(t: TrackView, d: Detection, near: Near, age: Age, time: i64) -> TrackView {
    TrackView {
        offset_hz: near.offset_hz,
        bandwidth_hz: near.bandwidth_hz,
        peak_db: d.peak_db,
        snr_db: d.snr_db,
        streak: if age.continuous {
            (t.streak + 1) as u32
        } else {
            1
        },
        bursts: if age.continuous {
            t.bursts
        } else {
            (t.bursts + 1) as u32
        },
        last_seen: time,
        hits: (t.hits + 1) as u32,
        ..t
    }
}

/// The counters of a track suffice to confirm it.
pub open spec fn has_earned(s: TrackerView, t: TrackView) -> bool {
    t.streak >= s.confirm_streak || t.bursts >= s.confirm_bursts
}

/// A track for a detection that no track was close to.
pub open spec fn fresh(id: u64, d: Detection, time: i64, classes: nat) -> TrackView {
    TrackView {
        id,
        offset_hz: d.offset_hz,
        bandwidth_hz: d.bandwidth_hz,
        peak_db: d.peak_db,
        snr_db: d.snr_db,
        first_seen: time,
        last_seen: time,
        hits: 1,
        streak: 1,
        bursts: 1,
        confirmed: false,
        votes: Seq::new(classes, |i: int| order::ZERO),
        classified: 0,
        last_classified: order::NEG_INFINITY,
    }
}

/// State while the detections of a frame are assigned.
#[verifier::ext_equal]
pub struct Sweep {
    pub tracks: Seq<TrackView>,
    /// Tracks that have their detection of this frame.
    pub taken: Seq<bool>,
    pub next_id: u64,
    /// Number of the signal of each detection, zero while it has none.
    pub ids: Seq<u64>,
    pub events: Seq<TrackEvent>,
}

/// Before the first detection.
pub open spec fn sweep_start(s: TrackerView, n: nat) -> Sweep {
    Sweep {
        tracks: s.tracks,
        taken: Seq::new(s.tracks.len(), |i: int| false),
        next_id: s.next_id,
        ids: Seq::new(n, |i: int| 0u64),
        events: Seq::empty(),
    }
}

/// Detection `d` goes to the nearest open track, or begins a new one.
pub open spec fn assigned(s: TrackerView, f: Frame, w: Sweep, d: int) -> Sweep {
    match nearest(f.near[d], w.taken) {
        Some(t) => {
            let after = hit(
                w.tracks[t],
                f.detections[d],
                f.near[d][t].unwrap(),
                f.ages[t],
                f.time,
            );
            let confirm = !after.confirmed && has_earned(s, after);
            Sweep {
                tracks: w.tracks.update(
                    t,
                    TrackView { confirmed: after.confirmed || confirm, ..after },
                ),
                taken: w.taken.update(t, true),
                next_id: w.next_id,
                ids: w.ids.update(d, after.id),
                events: if confirm {
                    w.events.push(TrackEvent::Confirmed(after.id))
                } else {
                    w.events
                },
            }
        },
        None => Sweep {
            tracks: w.tracks.push(fresh(w.next_id, f.detections[d], f.time, s.classes)),
            taken: w.taken.push(true),
            next_id: (w.next_id + 1) as u64,
            ids: w.ids.update(d, w.next_id),
            events: w.events,
        },
    }
}

/// The detections in the order in which they choose: strong ones first.
pub open spec fn choosing_order(f: Frame) -> Seq<int> {
    order::descending(f.detections.map_values(|d: Detection| d.peak_db), f.detections.len())
}

/// The first `k` detections in that order are assigned.
pub open spec fn swept(s: TrackerView, f: Frame, k: nat) -> Sweep
    decreases k,
{
    if k == 0 {
        sweep_start(s, f.detections.len())
    } else {
        assigned(s, f, swept(s, f, (k - 1) as nat), choosing_order(f)[k - 1])
    }
}

/// Track `i` of the sweep may stay.
pub open spec fn is_alive(f: Frame, w: Sweep, i: int) -> bool {
    let age = if w.taken[i] {
        f.now
    } else {
        f.ages[i]
    };
    if w.tracks[i].confirmed {
        age.held
    } else {
        age.candidate_held
    }
}

/// Those of the first `k` tracks that stay.
pub open spec fn kept(f: Frame, w: Sweep, k: nat) -> Seq<TrackView>
    decreases k,
{
    if k == 0 {
        Seq::empty()
    } else if is_alive(f, w, k - 1) {
        kept(f, w, (k - 1) as nat).push(w.tracks[k - 1])
    } else {
        kept(f, w, (k - 1) as nat)
    }
}

/// The events of the sweep, and one for every confirmed signal among the first
/// `k` tracks that does not stay.
pub open spec fn reported(f: Frame, w: Sweep, k: nat) -> Seq<TrackEvent>
    decreases k,
{
    if k == 0 {
        w.events
    } else if !is_alive(f, w, k - 1) && w.tracks[k - 1].confirmed {
        reported(f, w, (k - 1) as nat).push(TrackEvent::Lost(w.tracks[k - 1].id))
    } else {
        reported(f, w, (k - 1) as nat)
    }
}

/// All detections of a frame are assigned.
pub open spec fn sweep(s: TrackerView, f: Frame) -> Sweep {
    swept(s, f, f.detections.len())
}

/// The tracker after a frame.
pub open spec fn updated(s: TrackerView, f: Frame) -> TrackerView {
    let w = sweep(s, f);
    TrackerView { tracks: kept(f, w, w.tracks.len()), next_id: w.next_id, ..s }
}

/// The events of a frame.
pub open spec fn frame_events(s: TrackerView, f: Frame) -> Seq<TrackEvent> {
    let w = sweep(s, f);
    reported(f, w, w.tracks.len())
}

/// The measurements of a frame as the contracts see them.
pub open spec fn frame(
    time: i64,
    detections: Seq<Detection>,
    near: Seq<Vec<Option<Near>>>,
    ages: Seq<Age>,
    now: Age,
) -> Frame {
    Frame {
        detections,
        near: near.map_values(|r: Vec<Option<Near>>| r@),
        ages,
        now,
        time,
    }
}

pub proof fn lemma_nearest_is_unique(row: Seq<Option<Near>>, taken: Seq<bool>, t: int)
    requires
        is_nearest(row, taken, t),
    ensures
        nearest(row, taken) == Some(t),
{
    let u = choose|u: int| is_nearest(row, taken, u);
    assert(is_nearest(row, taken, u));
    assert(is_open(row, taken, u) && is_open(row, taken, t));
}

/// What holds of a sweep after `k` of `n` detections.
pub open spec fn is_sound(s: TrackerView, w: Sweep, k: nat, n: nat) -> bool {
    &&& w.taken.len() == w.tracks.len() >= s.tracks.len()
    &&& w.ids.len() == n
    &&& s.next_id <= w.next_id <= s.next_id + k
    &&& is_valid(TrackerView { tracks: w.tracks, next_id: w.next_id, ..s })
    &&& forall|i: int|
        0 <= i < w.tracks.len() && !(#[trigger] w.taken[i]) ==> i < s.tracks.len()
            && w.tracks[i] == s.tracks[i]
}

pub proof fn lemma_sweep_start(s: TrackerView, n: nat)
    requires
        is_valid(s),
    ensures
        is_sound(s, sweep_start(s, n), 0, n),
{
    assert(TrackerView { tracks: s.tracks, next_id: s.next_id, ..s } == s);
}

pub proof fn lemma_assigned(s: TrackerView, f: Frame, w: Sweep, k: nat, d: int)
    requires
        can_count(s),
        fits(s, f),
        is_sound(s, w, k, f.detections.len()),
        k < f.detections.len(),
        0 <= d < f.detections.len(),
        s.next_id + f.detections.len() <= u64::MAX,
    ensures
        is_sound(s, assigned(s, f, w, d), k + 1, f.detections.len()),
        nearest(f.near[d], w.taken) matches Some(t) ==> {
            &&& is_open(f.near[d], w.taken, t)
            &&& 0 <= t < s.tracks.len()
            &&& w.tracks[t] == s.tracks[t]
            &&& w.tracks[t].streak <= w.tracks[t].hits < u32::MAX
            &&& w.tracks[t].bursts <= w.tracks[t].hits
        },
        w.next_id < u64::MAX,
{
    let v = TrackerView { tracks: w.tracks, next_id: w.next_id, ..s };
    let a = assigned(s, f, w, d);
    assert(is_valid(v));
    match nearest(f.near[d], w.taken) {
        Some(t) => {
            let u = choose|u: int| is_nearest(f.near[d], w.taken, u);
            assert(is_open(f.near[d], w.taken, t));
            assert(!w.taken[t]);
            assert(is_valid_track(v.tracks[t], w.next_id));
            assert(s.tracks[t].hits < u32::MAX);
            assert forall|i: int| 0 <= i < a.tracks.len() implies is_valid_track(
                #[trigger] a.tracks[i],
                a.next_id,
            ) by {
                assert(is_valid_track(v.tracks[i], w.next_id));
            }
            assert forall|i: int, j: int| 0 <= i < j < a.tracks.len() implies (
            #[trigger] a.tracks[i]).id != (#[trigger] a.tracks[j]).id by {
                assert(v.tracks[i].id != v.tracks[j].id);
            }
        },
        None => {
            assert forall|i: int| 0 <= i < a.tracks.len() implies is_valid_track(
                #[trigger] a.tracks[i],
                a.next_id,
            ) by {
                if i < w.tracks.len() {
                    assert(is_valid_track(v.tracks[i], w.next_id));
                }
            }
            assert forall|i: int, j: int| 0 <= i < j < a.tracks.len() implies (
            #[trigger] a.tracks[i]).id != (#[trigger] a.tracks[j]).id by {
                if j < w.tracks.len() {
                    assert(v.tracks[i].id != v.tracks[j].id);
                } else {
                    assert(is_valid_track(v.tracks[i], w.next_id));
                }
            }
        },
    }
}

/// `t` is one of the first `k` tracks, and alive.
pub open spec fn is_among(f: Frame, w: Sweep, k: nat, t: TrackView) -> bool {
    exists|j: int| 0 <= j < k && is_alive(f, w, j) && #[trigger] w.tracks[j] == t
}

/// What stays was there, and two that stay were two.
pub proof fn lemma_kept(f: Frame, w: Sweep, k: nat)
    requires
        k <= w.tracks.len(),
        forall|i: int, j: int|
            0 <= i < j < w.tracks.len() ==> (#[trigger] w.tracks[i]).id != (
            #[trigger] w.tracks[j]).id,
    ensures
        forall|i: int| 0 <= i < kept(f, w, k).len() ==> is_among(f, w, k, #[trigger] kept(f, w, k)[i]),
        forall|i: int, j: int|
            0 <= i < j < kept(f, w, k).len() ==> (#[trigger] kept(f, w, k)[i]).id != (
            #[trigger] kept(f, w, k)[j]).id,
    decreases k,
{
    if k > 0 {
        let before = kept(f, w, (k - 1) as nat);
        let r = kept(f, w, k);
        lemma_kept(f, w, (k - 1) as nat);
        assert forall|i: int| 0 <= i < r.len() implies is_among(f, w, k, #[trigger] r[i]) by {
            if i < before.len() {
                assert(is_among(f, w, (k - 1) as nat, before[i]));
            } else {
                assert(w.tracks[k - 1] == r[i]);
            }
        }
        assert forall|i: int, j: int| 0 <= i < j < r.len() implies (#[trigger] r[i]).id != (
        #[trigger] r[j]).id by {
            if j < before.len() {
                assert(before[i].id != before[j].id);
            } else {
                assert(is_among(f, w, (k - 1) as nat, before[i]));
                let m = choose|m: int|
                    0 <= m < k - 1 && is_alive(f, w, m) && #[trigger] w.tracks[m] == before[i];
                assert(w.tracks[m].id != w.tracks[k - 1].id);
            }
        }
    }
}

proof fn lemma_kept_is_valid(s: TrackerView, f: Frame, w: Sweep)
    requires
        is_valid(TrackerView { tracks: w.tracks, next_id: w.next_id, ..s }),
    ensures
        is_valid(
            (TrackerView { tracks: kept(f, w, w.tracks.len()), next_id: w.next_id, ..s }),
        ),
{
    let v = TrackerView { tracks: w.tracks, next_id: w.next_id, ..s };
    let r = kept(f, w, w.tracks.len());
    assert(v.tracks == w.tracks);
    assert forall|i: int, j: int| 0 <= i < j < w.tracks.len() implies (#[trigger] w.tracks[i]).id
        != (#[trigger] w.tracks[j]).id by {
        assert(v.tracks[i].id != v.tracks[j].id);
    }
    lemma_kept(f, w, w.tracks.len());
    assert forall|i: int| 0 <= i < r.len() implies is_valid_track(#[trigger] r[i], w.next_id) by {
        assert(is_among(f, w, w.tracks.len(), r[i]));
        let j = choose|j: int|
            0 <= j < w.tracks.len() && is_alive(f, w, j) && #[trigger] w.tracks[j] == r[i];
        assert(is_valid_track(v.tracks[j], v.next_id));
    }
}

/// The closest open track, the first one of several.
fn find_nearest(row: &[Option<Near>], taken: &[bool]) -> (r: Option<usize>)
    requires
        row@.len() <= taken@.len(),
    ensures
        match r {
            Some(t) => nearest(row@, taken@) == Some(t as int) && is_open(row@, taken@, t as int),
            None => nearest(row@, taken@) is None,
        },
{
    let mut best: Option<usize> = None;
    let mut i: usize = 0;
    while i < row.len()
        invariant
            i <= row@.len() <= taken@.len(),
            match best {
                Some(t) => {
                    &&& t < i
                    &&& is_open(row@, taken@, t as int)
                    &&& forall|u: int| #[trigger]
                        is_open(row@, taken@, u) && u < i ==> {
                            ||| row@[t as int].unwrap().distance < row@[u].unwrap().distance
                            ||| row@[t as int].unwrap().distance == row@[u].unwrap().distance && t
                                <= u
                        }
                },
                None => forall|u: int| u < i ==> !#[trigger] is_open(row@, taken@, u),
            },
        decreases row@.len() - i,
    {
        if !taken[i] {
            if let Some(near) = row[i] {
                assert(is_open(row@, taken@, i as int));
                match best {
                    None => {
                        best = Some(i);
                    },
                    Some(t) => {
                        if let Some(other) = row[t] {
                            if near.distance < other.distance {
                                best = Some(i);
                            }
                        }
                    },
                }
            }
        }
        i += 1;
    }
    proof {
        match best {
            Some(t) => {
                assert(is_nearest(row@, taken@, t as int));
                lemma_nearest_is_unique(row@, taken@, t as int);
            },
            None => {},
        }
    }
    best
}

impl Tracker {
    /// Confirms after six frames in a row (a hop of 50 ms touches at most three
    /// frames of 40 ms) or after five separate bursts.
    pub fn new(classes: usize) -> (r: Self)
        ensures
            is_valid(r@),
            can_count(r@),
            r@ == (TrackerView {
                tracks: Seq::empty(),
                next_id: 1,
                classes: classes as nat,
                confirm_streak: 6,
                confirm_bursts: 5,
            }),
    {
        let r = Tracker {
            tracks: Vec::new(),
            next_id: 1,
            classes,
            confirm_streak: 6,
            confirm_bursts: 5,
        };
        assert(r@.tracks =~= Seq::<TrackView>::empty());
        r
    }

    /// The signals that are followed.
    pub fn tracks(&self) -> (r: &[Track])
        ensures
            views(r@) == self@.tracks,
    {
        self.tracks.as_slice()
    }

    /// Changes when a signal counts as confirmed.
    pub fn set_confirmation(&mut self, streak: u32, bursts: u32)
        ensures
            final(self)@ == (TrackerView {
                confirm_streak: streak,
                confirm_bursts: bursts,
                ..old(self)@
            }),
    {
        self.confirm_streak = streak;
        self.confirm_bursts = bursts;
    }

    /// The signal with number `id`, to change it.
    pub fn get_mut(&mut self, id: u64) -> (r: Option<&mut Track>)
        ensures
            match r {
                Some(t) => exists|i: int|
                    0 <= i < old(self)@.tracks.len() && {
                        &&& #[trigger] old(self)@.tracks[i] == (*t)@
                        &&& (*t).id == id
                        &&& forall|j: int| 0 <= j < i ==> #[trigger] old(self)@.tracks[j].id != id
                        &&& final(self)@ == (TrackerView {
                            tracks: old(self)@.tracks.update(i, (*final(t))@),
                            ..old(self)@
                        })
                    },
                None => {
                    &&& final(self)@ == old(self)@
                    &&& forall|i: int|
                        0 <= i < old(self)@.tracks.len() ==> #[trigger] old(self)@.tracks[i].id
                            != id
                },
            },
    {
        let ghost before = self@;
        let mut i: usize = 0;
        while i < self.tracks.len() && self.tracks[i].id != id
            invariant
                i <= self.tracks@.len(),
                self@ == before,
                forall|j: int| 0 <= j < i ==> #[trigger] before.tracks[j].id != id,
            decreases self.tracks@.len() - i,
        {
            assert(before.tracks[i as int] == self.tracks@[i as int]@);
            i += 1;
        }
        if i == self.tracks.len() {
            return None;
        }
        assert(before.tracks[i as int] == self.tracks@[i as int]@);
        let t: &mut Track = &mut self.tracks[i];
        Some(t)
    }

    /// Takes the detections of the frame at `time`. Returns the number of the
    /// signal of every detection, and what happened.
    pub fn update(
        &mut self,
        time: i64,
        detections: &[Detection],
        near: &[Vec<Option<Near>>],
        ages: &[Age],
        now: Age,
    ) -> (r: (Vec<u64>, Vec<TrackEvent>))
        requires
            is_valid(old(self)@),
            can_count(old(self)@),
            fits(old(self)@, frame(time, detections@, near@, ages@, now)),
            old(self)@.next_id + detections@.len() <= u64::MAX,
        ensures
            is_valid(final(self)@),
            ({
                let f = frame(time, detections@, near@, ages@, now);
                &&& final(self)@ == updated(old(self)@, f)
                &&& r.0@ == sweep(old(self)@, f).ids
                &&& r.1@ == frame_events(old(self)@, f)
            }),
    {
        let ghost s = self@;
        let ghost f = frame(time, detections@, near@, ages@, now);
        let ghost n = detections@.len();
        let mut events: Vec<TrackEvent> = Vec::new();
        let mut ids: Vec<u64> = vec![0; detections.len()];
        let mut taken: Vec<bool> = vec![false; self.tracks.len()];
        let mut peaks: Vec<i64> = Vec::new();
        let mut i: usize = 0;
        while i < detections.len()
            invariant
                i <= detections@.len(),
                peaks@ =~= detections@.take(i as int).map_values(|d: Detection| d.peak_db),
            decreases detections@.len() - i,
        {
            peaks.push(detections[i].peak_db);
            i += 1;
        }
        assert(detections@.take(i as int) =~= detections@);
        let turns: Vec<usize> = order::descending_order(&peaks);
        let ghost turn = choosing_order(f);
        proof {
            assert(self@.tracks =~= sweep_start(s, n).tracks);
            assert(taken@ =~= sweep_start(s, n).taken);
            assert(ids@ =~= sweep_start(s, n).ids);
            assert(events@ =~= sweep_start(s, n).events);
            lemma_sweep_start(s, n);
        }
        let mut k: usize = 0;
        while k < turns.len()
            invariant
                k <= turns@.len(),
                turns@.len() == detections@.len() == n,
                turns@.map_values(|i: usize| i as int) == turn,
                turn == choosing_order(f),
                forall|j: int| 0 <= j < turns@.len() ==> (#[trigger] turns@[j]) < n,
                f == frame(time, detections@, near@, ages@, now),
                fits(s, f),
                can_count(s),
                s.next_id + n <= u64::MAX,
                self.classes == s.classes,
                self.confirm_streak == s.confirm_streak,
                self.confirm_bursts == s.confirm_bursts,
                views(self.tracks@) == swept(s, f, k as nat).tracks,
                self.next_id == swept(s, f, k as nat).next_id,
                taken@ == swept(s, f, k as nat).taken,
                ids@ == swept(s, f, k as nat).ids,
                events@ == swept(s, f, k as nat).events,
                is_sound(s, swept(s, f, k as nat), k as nat, n),
            decreases turns@.len() - k,
        {
            let di: usize = turns[k];
            let ghost w = swept(s, f, k as nat);
            assert(turn[k as int] == di);
            assert(near@[di as int]@ == f.near[di as int]);
            proof {
                lemma_assigned(s, f, w, k as nat, di as int);
            }
            let d: Detection = detections[di];
            match find_nearest(&near[di], &taken) {
                Some(ti) => {
                    let fit: Near = match near[di][ti] {
                        Some(x) => x,
                        None => Near { distance: 0, offset_hz: 0, bandwidth_hz: 0 },
                    };
                    taken.set(ti, true);
                    let ghost before = self.tracks@;
                    assert(before[ti as int]@ == w.tracks[ti as int]);
                    let tr: &mut Track = &mut self.tracks[ti];
                    tr.offset_hz = fit.offset_hz;
                    tr.bandwidth_hz = fit.bandwidth_hz;
                    tr.peak_db = d.peak_db;
                    tr.snr_db = d.snr_db;
                    if ages[ti].continuous {
                        tr.streak = tr.streak + 1;
                    } else {
                        tr.streak = 1;
                        tr.bursts = tr.bursts + 1;
                    }
                    tr.last_seen = time;
                    tr.hits = tr.hits + 1;
                    let id: u64 = tr.id;
                    if !tr.confirmed && (tr.streak >= self.confirm_streak || tr.bursts
                        >= self.confirm_bursts) {
                        tr.confirmed = true;
                        events.push(TrackEvent::Confirmed(id));
                    }
                    ids.set(di, id);
                    assert(views(self.tracks@) =~= assigned(s, f, w, di as int).tracks);
                },
                None => {
                    let id: u64 = self.next_id;
                    self.next_id = id + 1;
                    let votes: Vec<i64> = vec![0; self.classes];
                    let ghost before = self.tracks@;
                    self.tracks.push(
                        Track {
                            id,
                            offset_hz: d.offset_hz,
                            bandwidth_hz: d.bandwidth_hz,
                            peak_db: d.peak_db,
                            snr_db: d.snr_db,
                            first_seen: time,
                            last_seen: time,
                            hits: 1,
                            streak: 1,
                            bursts: 1,
                            confirmed: false,
                            votes,
                            classified: 0,
                            last_classified: order::NEG_INFINITY,
                        },
                    );
                    taken.push(true);
                    ids.set(di, id);
                    assert(votes@ =~= Seq::new(s.classes, |i: int| order::ZERO));
                    assert(views(self.tracks@) =~= views(before).push(
                        fresh(id, d, time, s.classes),
                    ));
                },
            }
            k += 1;
        }
        let ghost w = sweep(s, f);
        self.drop_silent(ages, now, &taken, &mut events, Ghost(f), Ghost(w));
        proof {
            lemma_kept_is_valid(s, f, w);
        }
        (ids, events)
    }

    /// Drops the tracks that have stayed away for too long and reports the
    /// confirmed ones among them.
    fn drop_silent(
        &mut self,
        ages: &[Age],
        now: Age,
        taken: &[bool],
        events: &mut Vec<TrackEvent>,
        Ghost(f): Ghost<Frame>,
        Ghost(w): Ghost<Sweep>,
    )
        requires
            views(old(self).tracks@) == w.tracks,
            taken@ == w.taken,
            ages@ == f.ages,
            now == f.now,
            old(events)@ == w.events,
            w.taken.len() == w.tracks.len() >= f.ages.len(),
            forall|i: int| f.ages.len() <= i < w.taken.len() ==> #[trigger] w.taken[i],
        ensures
            final(self)@ == (TrackerView {
                tracks: kept(f, w, w.tracks.len()),
                ..old(self)@
            }),
            final(events)@ == reported(f, w, w.tracks.len()),
    {
        let ghost s = self@;
        let ghost all = self.tracks@;
        let mut rest: Vec<Track> = Vec::new();
        while self.tracks.len() > 0
            invariant
                rest@.len() + self.tracks@.len() == all.len(),
                self.tracks@ == all.take(self.tracks@.len() as int),
                forall|i: int|
                    0 <= i < rest@.len() ==> #[trigger] rest@[i] == all[all.len() - 1 - i],
                s == (TrackerView { tracks: views(all), ..self@ }),
            decreases self.tracks@.len(),
        {
            if let Some(tr) = self.tracks.pop() {
                rest.push(tr);
            }
        }
        let mut i: usize = 0;
        while rest.len() > 0
            invariant
                i + rest@.len() == all.len(),
                forall|j: int|
                    0 <= j < rest@.len() ==> #[trigger] rest@[j] == all[all.len() - 1 - j],
                views(all) == w.tracks,
                taken@ == w.taken,
                ages@ == f.ages,
                now == f.now,
                w.taken.len() == w.tracks.len() >= f.ages.len(),
                forall|j: int| f.ages.len() <= j < w.taken.len() ==> #[trigger] w.taken[j],
                views(self.tracks@) == kept(f, w, i as nat),
                events@ == reported(f, w, i as nat),
                s == (TrackerView { tracks: views(all), ..self@ }),
            decreases rest@.len(),
        {
            if let Some(tr) = rest.pop() {
                assert(tr@ == w.tracks[i as int]);
                let age: Age = if taken[i] {
                    now
                } else {
                    ages[i]
                };
                let alive: bool = if tr.confirmed {
                    age.held
                } else {
                    age.candidate_held
                };
                assert(alive == is_alive(f, w, i as int));
                if alive {
                    let ghost before = self.tracks@;
                    self.tracks.push(tr);
                    assert(views(self.tracks@) =~= views(before).push(tr@));
                } else if tr.confirmed {
                    events.push(TrackEvent::Lost(tr.id));
                }
                i += 1;
            }
        }
    }
}

} // verus!

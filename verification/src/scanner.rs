//! Signal surveillance: follows the senders in the spectrum, collects votes on
//! their modulation, and reports when one appears, changes its class or
//! disappears.

use crate::classify;
use crate::order;
use crate::track;
use std::collections::HashMap;
use vstd::prelude::*;
use vstd::std_specs::hash::*;

verus! {

/// New signals are classified at every hit until that many votes are together;
/// after that only once in a while.
pub const EARLY_VOTES: u32 = 5;

/// A signal is reported once its class rests on that many votes.
pub const MIN_VOTES: u32 = 5;

/// A reported signal.
#[derive(Clone, Copy, Debug, PartialEq, Eq, Structural)]
pub struct Signal {
    pub id: u64,
    pub center_hz: i64,
    pub bandwidth_hz: i64,
    pub peak_dbfs: i64,
    pub snr_db: i64,
    pub class: classify::Class,
    /// Share of the class in all votes.
    pub confidence: i64,
    pub first_seen_ms: i64,
    pub last_seen_ms: i64,
}

#[derive(Clone, Copy, Debug, PartialEq, Eq, Structural)]
pub enum SignalEventKind {
    Appeared,
    Reclassified,
    Lost,
}

#[derive(Clone, Copy, Debug, PartialEq, Eq, Structural)]
pub struct SignalEvent {
    pub ts_ms: i64,
    pub kind: SignalEventKind,
    pub signal: Signal,
}

/// What a frame puts out.
pub struct Output {
    pub events: Vec<SignalEvent>,
    /// All reported signals by frequency, if an overview is due.
    pub snapshot: Option<Vec<Signal>>,
}

impl Default for Output {
    fn default() -> (o: Self)
        ensures
            o.events@ == Seq::<SignalEvent>::empty(),
            o.snapshot is None,
    {
        Output { events: Vec::new(), snapshot: None }
    }
}

/// What is measured of a track for its report.
#[derive(Clone, Copy, Debug, PartialEq, Eq, Structural)]
pub struct Reading {
    pub center_hz: i64,
    /// Sum of all votes.
    pub total: i64,
    /// Share of the strongest class in them.
    pub confidence: i64,
    pub first_seen_ms: i64,
    pub last_seen_ms: i64,
}

/// Follows signals and keeps what was reported of them.
pub struct Scanner {
    tracker: track::Tracker,
    /// Reported signals as they were reported last.
    announced: HashMap<u64, Signal>,
}

/// What a [`Scanner`] holds.
#[verifier::ext_equal]
pub struct ScannerView {
    pub tracker: track::TrackerView,
    pub announced: Map<u64, Signal>,
}

impl View for Scanner {
    type V = ScannerView;

    closed spec fn view(&self) -> ScannerView {
        ScannerView { tracker: self.tracker@, announced: self.announced@ }
    }
}

/// Every track collects one vote per class.
pub open spec fn has_ballots(s: track::TrackerView) -> bool {
    &&& s.classes == classify::CLASSES
    &&& forall|i: int|
        0 <= i < s.tracks.len() ==> (#[trigger] s.tracks[i]).votes.len() == classify::CLASSES
}

/// The tracker is valid and its tracks collect votes on all classes.
pub open spec fn is_valid(s: ScannerView) -> bool {
    track::is_valid(s.tracker) && has_ballots(s.tracker)
}

/// A hit of this track is to be classified: not the first one (most single hits
/// are hoppers or noise), and only while votes are missing or a new one is due.
pub open spec fn is_due(t: track::TrackView, revote: bool) -> bool {
    t.hits >= 2 && (t.classified < EARLY_VOTES || revote)
}

/// A track with a vote counted.
pub open spec fn voted(t: track::TrackView, votes: Seq<i64>, time: i64) -> track::TrackView {
    track::TrackView {
        votes,
        classified: (t.classified + 1) as u32,
        last_classified: time,
        ..t
    }
}

/// The tracks after what the network said of a window of one signal: a vote,
/// unless it took the window for noise.
pub open spec fn counted(
    s: track::TrackerView,
    id: u64,
    probs: Seq<i64>,
    votes: Seq<i64>,
    time: i64,
) -> track::TrackerView {
    track::TrackerView {
        tracks: Seq::new(
            s.tracks.len(),
            |i: int|
                if s.tracks[i].id == id && !classify::says_noise(probs) {
                    voted(s.tracks[i], votes, time)
                } else {
                    s.tracks[i]
                },
        ),
        ..s
    }
}

/// Place of the class with the most votes, the last one of several.
pub open spec fn favourite(votes: Seq<i64>) -> int {
    choose|i: int| order::is_last_max(votes, 0, votes.len() as int, i)
}

/// A signal is reported if it is confirmed and its class rests on enough votes.
pub open spec fn is_reportable(t: track::TrackView, r: Reading) -> bool {
    &&& t.confirmed
    &&& t.classified >= MIN_VOTES
    &&& track::is_positive_sum(r.total)
}

/// What is reported of a track.
pub open spec fn signal_of(t: track::TrackView, r: Reading) -> Signal {
    Signal {
        id: t.id,
        center_hz: r.center_hz,
        bandwidth_hz: t.bandwidth_hz,
        peak_dbfs: t.peak_db,
        snr_db: t.snr_db,
        class: classify::all_classes()[favourite(t.votes)],
        confidence: r.confidence,
        first_seen_ms: r.first_seen_ms,
        last_seen_ms: r.last_seen_ms,
    }
}

/// The reportable signals among the first `k` tracks.
pub open spec fn current(tracks: Seq<track::TrackView>, readings: Seq<Reading>, k: nat) -> Seq<
    Signal,
>
    decreases k,
{
    if k == 0 {
        Seq::empty()
    } else {
        let before = current(tracks, readings, (k - 1) as nat);
        if is_reportable(tracks[k - 1], readings[k - 1]) {
            before.push(signal_of(tracks[k - 1], readings[k - 1]))
        } else {
            before
        }
    }
}

/// The reported signals while a report is written, and the events so far.
#[verifier::ext_equal]
pub struct Board {
    pub announced: Map<u64, Signal>,
    pub events: Seq<SignalEvent>,
}

/// A lost signal leaves the board; if it was reported, that is an event.
pub open spec fn crossed_off(b: Board, e: track::TrackEvent, now_ms: i64) -> Board {
    match e {
        track::TrackEvent::Lost(id) => if b.announced.contains_key(id) {
            Board {
                announced: b.announced.remove(id),
                events: b.events.push(
                    SignalEvent {
                        ts_ms: now_ms,
                        kind: SignalEventKind::Lost,
                        signal: b.announced[id],
                    },
                ),
            }
        } else {
            b
        },
        track::TrackEvent::Confirmed(_) => b,
    }
}

/// The first `k` tracker events are done.
pub open spec fn crossed_off_all(
    b: Board,
    events: Seq<track::TrackEvent>,
    k: nat,
    now_ms: i64,
) -> Board
    decreases k,
{
    if k == 0 {
        b
    } else {
        crossed_off(crossed_off_all(b, events, (k - 1) as nat, now_ms), events[k - 1], now_ms)
    }
}

/// What becomes of a signal: it appears if it is new and more than noise, it is
/// reclassified if it was reported with another class, and otherwise a reported
/// one is only brought up to date.
pub open spec fn news(b: Board, s: Signal) -> Option<SignalEventKind> {
    if !b.announced.contains_key(s.id) {
        if s.class != classify::Class::Noise {
            Some(SignalEventKind::Appeared)
        } else {
            None
        }
    } else if b.announced[s.id].class != s.class {
        Some(SignalEventKind::Reclassified)
    } else {
        None
    }
}

/// A signal is put on the board.
pub open spec fn posted(b: Board, s: Signal, now_ms: i64) -> Board {
    match news(b, s) {
        Some(kind) => Board {
            announced: b.announced.insert(s.id, s),
            events: b.events.push(SignalEvent { ts_ms: now_ms, kind, signal: s }),
        },
        None => if b.announced.contains_key(s.id) {
            Board { announced: b.announced.insert(s.id, s), events: b.events }
        } else {
            b
        },
    }
}

/// The first `k` signals are posted.
pub open spec fn posted_all(b: Board, signals: Seq<Signal>, k: nat, now_ms: i64) -> Board
    decreases k,
{
    if k == 0 {
        b
    } else {
        posted(posted_all(b, signals, (k - 1) as nat, now_ms), signals[k - 1], now_ms)
    }
}

/// The board after a report.
pub open spec fn reported(
    s: ScannerView,
    events: Seq<track::TrackEvent>,
    readings: Seq<Reading>,
    now_ms: i64,
) -> Board {
    let start = Board { announced: s.announced, events: Seq::empty() };
    let signals = current(s.tracker.tracks, readings, s.tracker.tracks.len());
    posted_all(
        crossed_off_all(start, events, events.len(), now_ms),
        signals,
        signals.len(),
        now_ms,
    )
}

/// Those of the first `k` signals that are on the board.
pub open spec fn on_board(signals: Seq<Signal>, announced: Map<u64, Signal>, k: nat) -> Seq<Signal>
    decreases k,
{
    if k == 0 {
        Seq::empty()
    } else {
        let before = on_board(signals, announced, (k - 1) as nat);
        if announced.contains_key(signals[k - 1].id) {
            before.push(signals[k - 1])
        } else {
            before
        }
    }
}

/// Signals by frequency; equal ones stay in their order.
pub open spec fn by_frequency(signals: Seq<Signal>) -> Seq<Signal> {
    let o = order::ascending(signals.map_values(|s: Signal| s.center_hz));
    Seq::new(signals.len(), |i: int| signals[o[i]])
}

/// The overview after a report.
pub open spec fn overview(
    s: ScannerView,
    events: Seq<track::TrackEvent>,
    readings: Seq<Reading>,
    now_ms: i64,
) -> Seq<Signal> {
    let signals = current(s.tracker.tracks, readings, s.tracker.tracks.len());
    by_frequency(on_board(signals, reported(s, events, readings, now_ms).announced, signals.len()))
}

proof fn lemma_update_keeps_ballots(s: track::TrackerView, f: track::Frame)
    requires
        has_ballots(s),
        track::is_valid(s),
        track::can_count(s),
        track::fits(s, f),
        s.next_id + f.detections.len() <= u64::MAX,
    ensures
        has_ballots(track::updated(s, f)),
{
    let w = track::sweep(s, f);
    lemma_sweep_keeps_ballots(s, f, f.detections.len());
    let v = track::TrackerView { tracks: w.tracks, next_id: w.next_id, ..s };
    assert forall|i: int, j: int| 0 <= i < j < w.tracks.len() implies (#[trigger] w.tracks[i]).id
        != (#[trigger] w.tracks[j]).id by {
        assert(v.tracks[i].id != v.tracks[j].id);
    }
    track::lemma_kept(f, w, w.tracks.len());
    let r = track::kept(f, w, w.tracks.len());
    assert forall|i: int| 0 <= i < r.len() implies (#[trigger] r[i]).votes.len()
        == classify::CLASSES by {
        assert(track::is_among(f, w, w.tracks.len(), r[i]));
    }
}

proof fn lemma_sweep_keeps_ballots(s: track::TrackerView, f: track::Frame, k: nat)
    requires
        has_ballots(s),
        track::is_valid(s),
        track::can_count(s),
        track::fits(s, f),
        s.next_id + f.detections.len() <= u64::MAX,
        k <= f.detections.len(),
    ensures
        track::is_sound(s, track::swept(s, f, k), k, f.detections.len()),
        forall|i: int|
            0 <= i < track::swept(s, f, k).tracks.len() ==> (#[trigger] track::swept(
                s,
                f,
                k,
            ).tracks[i]).votes.len() == classify::CLASSES,
    decreases k,
{
    let n = f.detections.len();
    if k == 0 {
        track::lemma_sweep_start(s, n);
    } else {
        let o = track::choosing_order(f);
        let w = track::swept(s, f, (k - 1) as nat);
        lemma_sweep_keeps_ballots(s, f, (k - 1) as nat);
        order::law_descending(f.detections.map_values(|d: track::Detection| d.peak_db), n);
        assert(0 <= o[k - 1] < n);
        track::lemma_assigned(s, f, w, (k - 1) as nat, o[k - 1]);
    }
}

impl Scanner {
    /// Knows no signal.
    pub fn new() -> (r: Self)
        ensures
            is_valid(r@),
            r@.tracker == (track::TrackerView {
                tracks: Seq::empty(),
                next_id: 1,
                classes: classify::CLASSES as nat,
                confirm_streak: 6,
                confirm_bursts: 5,
            }),
            r@.announced == Map::<u64, Signal>::empty(),
    {
        broadcast use group_hash_axioms;

        Scanner { tracker: track::Tracker::new(classify::CLASSES), announced: HashMap::new() }
    }

    /// The signals that are followed.
    pub fn tracks(&self) -> (r: &[track::Track])
        ensures
            track::views(r@) == self@.tracker.tracks,
    {
        self.tracker.tracks()
    }

    /// Takes the detections of a frame, see [`track::Tracker::update`].
    pub fn observe(
        &mut self,
        time: i64,
        detections: &[track::Detection],
        near: &[Vec<Option<track::Near>>],
        ages: &[track::Age],
        now: track::Age,
    ) -> (r: (Vec<u64>, Vec<track::TrackEvent>))
        requires
            is_valid(old(self)@),
            track::can_count(old(self)@.tracker),
            track::fits(old(self)@.tracker, track::frame(time, detections@, near@, ages@, now)),
            old(self)@.tracker.next_id + detections@.len() <= u64::MAX,
        ensures
            is_valid(final(self)@),
            ({
                let f = track::frame(time, detections@, near@, ages@, now);
                let s = old(self)@.tracker;
                &&& final(self)@ == (ScannerView {
                    tracker: track::updated(s, f),
                    announced: old(self)@.announced,
                })
                &&& r.0@ == track::sweep(s, f).ids
                &&& r.1@ == track::frame_events(s, f)
            }),
    {
        proof {
            lemma_update_keeps_ballots(
                self.tracker@,
                track::frame(time, detections@, near@, ages@, now),
            );
        }
        self.tracker.update(time, detections, near, ages, now)
    }

    /// Whether the signal with number `id` is to be classified. `revote` says
    /// that its last vote was long enough ago.
    pub fn due(&self, id: u64, revote: bool) -> (r: bool)
        requires
            is_valid(self@),
        ensures
            r <==> exists|i: int|
                0 <= i < self@.tracker.tracks.len() && (#[trigger] self@.tracker.tracks[i]).id == id
                    && is_due(self@.tracker.tracks[i], revote),
    {
        let tracks: &[track::Track] = self.tracker.tracks();
        let ghost v = self@.tracker.tracks;
        let mut i: usize = 0;
        while i < tracks.len()
            invariant
                i <= tracks@.len(),
                track::views(tracks@) == v,
                v == self@.tracker.tracks,
                is_valid(self@),
                forall|j: int| 0 <= j < i ==> (#[trigger] v[j]).id != id,
            decreases tracks@.len() - i,
        {
            assert(v[i as int] == tracks@[i as int]@);
            if tracks[i].id == id {
                let due: bool = tracks[i].hits >= 2 && (tracks[i].classified < EARLY_VOTES
                    || revote);
                assert(due == is_due(v[i as int], revote));
                assert forall|j: int| 0 <= j < v.len() && (#[trigger] v[j]).id == id implies j
                    == i by {
                    assert(v[j].id != v[i as int].id || j == i);
                }
                return due;
            }
            i += 1;
        }
        false
    }

    /// Counts what the network says of a window of the signal with number `id`.
    /// `votes` are its votes with `probs` added. If the network takes the
    /// window for noise, it says nothing about the modulation, as when only the
    /// end of a burst is in the frame: that is an abstention.
    pub fn vote(&mut self, id: u64, probs: &[i64], votes: Vec<i64>, time: i64)
        requires
            is_valid(old(self)@),
            probs@.len() == classify::CLASSES,
            votes@.len() == classify::CLASSES,
            forall|i: int|
                0 <= i < old(self)@.tracker.tracks.len() && (
                #[trigger] old(self)@.tracker.tracks[i]).id == id
                    ==> old(self)@.tracker.tracks[i].classified < u32::MAX,
        ensures
            is_valid(final(self)@),
            final(self)@ == (ScannerView {
                tracker: counted(old(self)@.tracker, id, probs@, votes@, time),
                announced: old(self)@.announced,
            }),
    {
        let ghost before = self.tracker@;
        let ghost after = counted(before, id, probs@, votes@, time);
        if classify::is_noise(probs) {
            assert(after.tracks =~= before.tracks);
            return ;
        }
        match self.tracker.get_mut(id) {
            None => {},
            Some(t) => {
                let ghost old_t = (*t)@;
                t.votes = votes;
                t.classified = t.classified + 1;
                t.last_classified = time;
                assert((*t)@ =~= voted(old_t, votes@, time));
            },
        }
        proof {
            assert forall|i: int, j: int| 0 <= i < j < before.tracks.len() implies (
            #[trigger] before.tracks[i]).id != (#[trigger] before.tracks[j]).id by {}
            assert(self.tracker@.tracks =~= after.tracks);
        }
    }

    /// Writes the report of a frame: what was lost, what is new, what changed
    /// its class, and an overview if it is due. `readings` holds one entry per
    /// track.
    pub fn report(
        &mut self,
        events: &[track::TrackEvent],
        readings: &[Reading],
        now_ms: i64,
        overview_due: bool,
    ) -> (out: Output)
        requires
            is_valid(old(self)@),
            readings@.len() == old(self)@.tracker.tracks.len(),
        ensures
            is_valid(final(self)@),
            final(self)@.tracker == old(self)@.tracker,
            final(self)@.announced == reported(
                old(self)@,
                events@,
                readings@,
                now_ms,
            ).announced,
            out.events@ == reported(old(self)@, events@, readings@, now_ms).events,
            match out.snapshot {
                Some(v) => overview_due && v@ == overview(
                    old(self)@,
                    events@,
                    readings@,
                    now_ms,
                ),
                None => !overview_due,
            },
    {
        broadcast use group_hash_axioms;

        let ghost s = self@;
        let mut out: Output = Output::default();
        let ghost start = Board { announced: s.announced, events: Seq::empty() };
        let mut i: usize = 0;
        while i < events.len()
            invariant
                i <= events@.len(),
                self.tracker@ == s.tracker,
                out.snapshot is None,
                (Board { announced: self.announced@, events: out.events@ }) == crossed_off_all(
                    start,
                    events@,
                    i as nat,
                    now_ms,
                ),
            decreases events@.len() - i,
        {
            if let track::TrackEvent::Lost(id) = events[i] {
                if let Some(signal) = self.announced.remove(&id) {
                    out.events.push(
                        SignalEvent { ts_ms: now_ms, kind: SignalEventKind::Lost, signal },
                    );
                }
            }
            i += 1;
            assert((Board { announced: self.announced@, events: out.events@ })
                =~= crossed_off_all(start, events@, i as nat, now_ms));
        }
        let ghost cleared = crossed_off_all(start, events@, events@.len(), now_ms);
        let signals: Vec<Signal> = self.signals(readings);
        let mut k: usize = 0;
        while k < signals.len()
            invariant
                k <= signals@.len(),
                self.tracker@ == s.tracker,
                out.snapshot is None,
                (Board { announced: self.announced@, events: out.events@ }) == posted_all(
                    cleared,
                    signals@,
                    k as nat,
                    now_ms,
                ),
            decreases signals@.len() - k,
        {
            let signal: Signal = signals[k];
            let kind: Option<SignalEventKind> = match self.announced.get(&signal.id) {
                None => if signal.class != classify::Class::Noise {
                    Some(SignalEventKind::Appeared)
                } else {
                    None
                },
                Some(prev) => if prev.class != signal.class {
                    Some(SignalEventKind::Reclassified)
                } else {
                    None
                },
            };
            match kind {
                Some(kind) => {
                    self.announced.insert(signal.id, signal);
                    out.events.push(SignalEvent { ts_ms: now_ms, kind, signal });
                },
                None => {
                    if self.announced.contains_key(&signal.id) {
                        self.announced.insert(signal.id, signal);
                    }
                },
            }
            k += 1;
            assert((Board { announced: self.announced@, events: out.events@ }) =~= posted_all(
                cleared,
                signals@,
                k as nat,
                now_ms,
            ));
        }
        if overview_due {
            out.snapshot = Some(self.sorted(&signals));
        }
        out
    }

    /// The reportable signals.
    fn signals(&self, readings: &[Reading]) -> (r: Vec<Signal>)
        requires
            has_ballots(self.tracker@),
            readings@.len() == self.tracker@.tracks.len(),
        ensures
            r@ == current(self.tracker@.tracks, readings@, self.tracker@.tracks.len()),
    {
        let tracks: &[track::Track] = self.tracker.tracks();
        let ghost v = self.tracker@.tracks;
        let mut r: Vec<Signal> = Vec::new();
        let mut i: usize = 0;
        while i < tracks.len()
            invariant
                i <= tracks@.len() == readings@.len(),
                track::views(tracks@) == v,
                forall|j: int| 0 <= j < v.len() ==> (#[trigger] v[j]).votes.len() == classify::CLASSES,
                r@ == current(v, readings@, i as nat),
            decreases tracks@.len() - i,
        {
            let t: &track::Track = &tracks[i];
            let m: Reading = readings[i];
            assert(v[i as int] == t@);
            if t.confirmed && t.classified >= MIN_VOTES {
                if let Some(top) = t.class(m.total) {
                    proof {
                        let f = favourite(t.votes@);
                        assert(order::is_last_max(t.votes@, 0, t.votes@.len() as int, f));
                        order::lemma_last_max_is_unique(
                            t.votes@,
                            0,
                            t.votes@.len() as int,
                            f,
                            top as int,
                        );
                    }
                    if let Some(class) = classify::Class::from_index(top) {
                        r.push(
                            Signal {
                                id: t.id,
                                center_hz: m.center_hz,
                                bandwidth_hz: t.bandwidth_hz,
                                peak_dbfs: t.peak_db,
                                snr_db: t.snr_db,
                                class,
                                confidence: m.confidence,
                                first_seen_ms: m.first_seen_ms,
                                last_seen_ms: m.last_seen_ms,
                            },
                        );
                    }
                }
            }
            i += 1;
        }
        r
    }

    /// The reported ones among the signals, by frequency.
    fn sorted(&self, signals: &[Signal]) -> (r: Vec<Signal>)
        ensures
            r@ == by_frequency(on_board(signals@, self.announced@, signals@.len())),
    {
        broadcast use group_hash_axioms;

        let mut shown: Vec<Signal> = Vec::new();
        let mut keys: Vec<i64> = Vec::new();
        let mut i: usize = 0;
        while i < signals.len()
            invariant
                i <= signals@.len(),
                shown@ == on_board(signals@, self.announced@, i as nat),
                keys@ =~= shown@.map_values(|s: Signal| s.center_hz),
            decreases signals@.len() - i,
        {
            if self.announced.contains_key(&signals[i].id) {
                shown.push(signals[i]);
                keys.push(signals[i].center_hz);
            }
            i += 1;
        }
        let turns: Vec<usize> = order::ascending_order(&keys);
        let ghost o = order::ascending(keys@);
        let mut r: Vec<Signal> = Vec::new();
        let mut k: usize = 0;
        while k < turns.len()
            invariant
                k <= turns@.len() == shown@.len(),
                turns@.map_values(|i: usize| i as int) == o,
                forall|j: int| 0 <= j < turns@.len() ==> (#[trigger] turns@[j]) < shown@.len(),
                r@.len() == k,
                forall|j: int| 0 <= j < k ==> #[trigger] r@[j] == shown@[o[j]],
            decreases turns@.len() - k,
        {
            assert(o[k as int] == turns@[k as int]);
            r.push(shown[turns[k]]);
            k += 1;
        }
        assert(r@ =~= by_frequency(shown@));
        r
    }
}

} // verus!

//! What a report must hold of every signal, and what it shows of it.

use crate::classify;
use crate::order;
use crate::scanner;
use crate::scanner_laws;
use crate::track;
use vstd::prelude::*;

verus! {

/// Place of a class among the outputs of the network.
pub open spec fn place(c: classify::Class) -> int {
    match c {
        classify::Class::Noise => 0,
        classify::Class::Carrier => 1,
        classify::Class::Am => 2,
        classify::Class::Fm => 3,
        classify::Class::Gmsk => 4,
        classify::Class::Qpsk => 5,
    }
}

/// The class has the most votes; of several with as many it is the last one.
pub open spec fn is_elected(votes: Seq<i64>, c: classify::Class) -> bool {
    &&& forall|j: int| 0 <= j < votes.len() ==> #[trigger] votes[j] <= votes[place(c)]
    &&& forall|j: int| place(c) < j < votes.len() ==> #[trigger] votes[j] < votes[place(c)]
}

/// A signal is due for a report: confirmed, with five votes or more, whose sum
/// is a number above zero.
pub open spec fn is_settled(t: track::TrackView, r: scanner::Reading) -> bool {
    t.confirmed && t.classified >= 5 && 0 < r.total <= 0x7F80_0000
}

/// `g` is what there is to report of a track.
pub open spec fn describes(t: track::TrackView, r: scanner::Reading, g: scanner::Signal) -> bool {
    &&& g.id == t.id
    &&& g.center_hz == r.center_hz
    &&& g.bandwidth_hz == t.bandwidth_hz
    &&& g.peak_dbfs == t.peak_db
    &&& g.snr_db == t.snr_db
    &&& is_elected(t.votes, g.class)
    &&& g.confidence == r.confidence
    &&& g.first_seen_ms == r.first_seen_ms
    &&& g.last_seen_ms == r.last_seen_ms
}

proof fn lemma_some_last_max(keys: Seq<i64>, to: int)
    requires
        0 < to <= keys.len(),
    ensures
        exists|i: int| order::is_last_max(keys, 0, to, i),
    decreases to,
{
    if to == 1 {
        assert(order::is_last_max(keys, 0, 1, 0));
    } else {
        lemma_some_last_max(keys, to - 1);
        let below = to - 1;
        let i = choose|i: int| order::is_last_max(keys, 0, below, i);
        if keys[to - 1] >= keys[i] {
            assert(order::is_last_max(keys, 0, to, to - 1));
        } else {
            assert(order::is_last_max(keys, 0, to, i));
        }
    }
}

/// There is exactly one thing to report of a track.
proof fn lemma_description(t: track::TrackView, r: scanner::Reading)
    requires
        t.votes.len() == 6,
    ensures
        describes(t, r, scanner::signal_of(t, r)),
        forall|g: scanner::Signal| #[trigger]
            describes(t, r, g) ==> g == scanner::signal_of(t, r),
{
    let n = t.votes.len() as int;
    lemma_some_last_max(t.votes, n);
    let f = scanner::favourite(t.votes);
    assert(order::is_last_max(t.votes, 0, n, f));
    assert(place(classify::all_classes()[f]) == f);
    assert forall|g: scanner::Signal| #[trigger] describes(t, r, g) implies g == scanner::signal_of(
        t,
        r,
    ) by {
        assert(order::is_last_max(t.votes, 0, n, place(g.class)));
        order::lemma_last_max_is_unique(t.votes, 0, n, f, place(g.class));
        assert(classify::all_classes()[place(g.class)] == g.class);
    }
}

/// Every settled track is among the signals of a report, and no two of them are
/// of the same number.
proof fn lemma_current_is_complete(
    tracks: Seq<track::TrackView>,
    readings: Seq<scanner::Reading>,
    k: nat,
)
    requires
        k <= tracks.len(),
        forall|i: int, j: int|
            0 <= i < j < tracks.len() ==> (#[trigger] tracks[i]).id != (#[trigger] tracks[j]).id,
    ensures
        ({
            let r = scanner::current(tracks, readings, k);
            &&& forall|i: int|
                0 <= i < k && is_settled(#[trigger] tracks[i], readings[i]) ==> r.contains(
                    scanner::signal_of(tracks[i], readings[i]),
                )
            &&& forall|a: int, b: int|
                0 <= a < b < r.len() ==> (#[trigger] r[a]).id != (#[trigger] r[b]).id
        }),
    decreases k,
{
    if k > 0 {
        let before = scanner::current(tracks, readings, (k - 1) as nat);
        let r = scanner::current(tracks, readings, k);
        lemma_current_is_complete(tracks, readings, (k - 1) as nat);
        scanner_laws::lemma_current(tracks, readings, (k - 1) as nat);
        assert forall|i: int| 0 <= i < k && is_settled(#[trigger] tracks[i], readings[i]) implies
            r.contains(scanner::signal_of(tracks[i], readings[i])) by {
            let g = scanner::signal_of(tracks[i], readings[i]);
            if i < k - 1 {
                assert(before.contains(g));
                let a = choose|a: int| 0 <= a < before.len() && before[a] == g;
                assert(r[a] == g);
            } else {
                assert(r[r.len() - 1] == g);
            }
        }
        assert forall|a: int, b: int| 0 <= a < b < r.len() implies (#[trigger] r[a]).id != (
        #[trigger] r[b]).id by {
            if b < before.len() {
                assert(before[a].id != before[b].id);
            } else {
                assert(r[a] == before[a]);
                assert(scanner_laws::is_reported(tracks, readings, (k - 1) as nat, before[a]));
                let i = choose|i: int|
                    0 <= i < k - 1 && scanner::is_reportable(tracks[i], readings[i]) && before[a]
                        == #[trigger] scanner::signal_of(tracks[i], readings[i]);
                assert(tracks[i].id != tracks[k - 1].id);
            }
        }
    }
}

/// All signals with a number on the board are kept, each once.
proof fn lemma_on_board_is_complete(
    signals: Seq<scanner::Signal>,
    announced: Map<u64, scanner::Signal>,
    k: nat,
)
    requires
        k <= signals.len(),
        forall|a: int, b: int|
            0 <= a < b < signals.len() ==> (#[trigger] signals[a]).id != (#[trigger] signals[b]).id,
    ensures
        ({
            let r = scanner::on_board(signals, announced, k);
            &&& forall|a: int|
                0 <= a < k && announced.contains_key((#[trigger] signals[a]).id) ==> r.contains(
                    signals[a],
                )
            &&& forall|a: int|
                0 <= a < r.len() ==> exists|b: int|
                    0 <= b < k && #[trigger] signals[b] == #[trigger] r[a]
            &&& forall|a: int, b: int|
                0 <= a < b < r.len() ==> (#[trigger] r[a]).id != (#[trigger] r[b]).id
        }),
    decreases k,
{
    if k > 0 {
        let before = scanner::on_board(signals, announced, (k - 1) as nat);
        let r = scanner::on_board(signals, announced, k);
        lemma_on_board_is_complete(signals, announced, (k - 1) as nat);
        assert forall|a: int|
            0 <= a < k && announced.contains_key((#[trigger] signals[a]).id) implies r.contains(
            signals[a],
        ) by {
            if a < k - 1 {
                assert(before.contains(signals[a]));
                let m = choose|m: int| 0 <= m < before.len() && before[m] == signals[a];
                assert(r[m] == signals[a]);
            } else {
                assert(r[r.len() - 1] == signals[a]);
            }
        }
        assert forall|a: int| 0 <= a < r.len() implies exists|b: int|
            0 <= b < k && #[trigger] signals[b] == #[trigger] r[a] by {
            if a < before.len() {
                assert(r[a] == before[a]);
                let b = choose|b: int| 0 <= b < k - 1 && #[trigger] signals[b] == before[a];
                assert(signals[b] == r[a]);
            } else {
                assert(signals[k - 1] == r[a]);
            }
        }
        assert forall|a: int, b: int| 0 <= a < b < r.len() implies (#[trigger] r[a]).id != (
        #[trigger] r[b]).id by {
            assert(r[a] == before[a]);
            if b < before.len() {
                assert(before[a].id != before[b].id);
            } else {
                let m = choose|m: int| 0 <= m < k - 1 && #[trigger] signals[m] == before[a];
                assert(signals[m].id != signals[k - 1].id);
            }
        }
    }
}

/// The overview is complete: every settled track whose number is on the board is
/// listed exactly once, with what there is to report of it.
pub proof fn law_overview_is_complete(
    s: scanner::ScannerView,
    events: Seq<track::TrackEvent>,
    readings: Seq<scanner::Reading>,
    now_ms: i64,
    i: int,
)
    requires
        scanner::is_valid(s),
        0 <= i < s.tracker.tracks.len(),
        is_settled(s.tracker.tracks[i], readings[i]),
        scanner::reported(s, events, readings, now_ms).announced.contains_key(
            s.tracker.tracks[i].id,
        ),
    ensures
        ({
            let v = scanner::overview(s, events, readings, now_ms);
            let id = s.tracker.tracks[i].id;
            &&& exists|j: int|
                0 <= j < v.len() && describes(s.tracker.tracks[i], readings[i], #[trigger] v[j])
            &&& forall|j: int, k: int|
                0 <= j < v.len() && 0 <= k < v.len() && (#[trigger] v[j]).id == id && (
                #[trigger] v[k]).id == id ==> j == k
        }),
{
    let tracks = s.tracker.tracks;
    let board = scanner::reported(s, events, readings, now_ms).announced;
    let signals = scanner::current(tracks, readings, tracks.len());
    let shown = scanner::on_board(signals, board, signals.len());
    let keys = shown.map_values(|s: scanner::Signal| s.center_hz);
    let o = order::ascending(keys);
    let v = scanner::overview(s, events, readings, now_ms);
    let g = scanner::signal_of(tracks[i], readings[i]);
    lemma_description(tracks[i], readings[i]);
    lemma_current_is_complete(tracks, readings, tracks.len());
    lemma_on_board_is_complete(signals, board, signals.len());
    order::law_ascending(keys);
    assert(signals.contains(g));
    let a = choose|a: int| 0 <= a < signals.len() && signals[a] == g;
    assert(shown.contains(signals[a]));
    let m = choose|m: int| 0 <= m < shown.len() && shown[m] == g;
    assert(o.contains(m));
    let j = choose|j: int| 0 <= j < o.len() && o[j] == m;
    assert(v[j] == g);
    assert forall|j: int, k: int|
        0 <= j < v.len() && 0 <= k < v.len() && (#[trigger] v[j]).id == g.id && (
        #[trigger] v[k]).id == g.id implies j == k by {
        assert(v[j] == shown[o[j]] && v[k] == shown[o[k]]);
        assert(0 <= o[j] < shown.len() && 0 <= o[k] < shown.len());
        if o[j] < o[k] {
            assert(shown[o[j]].id != shown[o[k]].id);
        } else if o[k] < o[j] {
            assert(shown[o[k]].id != shown[o[j]].id);
        }
    }
}

/// The overview holds nothing else: what is listed is on the board and describes
/// a settled track. It is listed by ascending frequency.
pub proof fn law_overview_is_true(
    s: scanner::ScannerView,
    events: Seq<track::TrackEvent>,
    readings: Seq<scanner::Reading>,
    now_ms: i64,
    j: int,
)
    requires
        scanner::is_valid(s),
        0 <= j < scanner::overview(s, events, readings, now_ms).len(),
    ensures
        ({
            let v = scanner::overview(s, events, readings, now_ms);
            let board = scanner::reported(s, events, readings, now_ms).announced;
            &&& board.contains_key(v[j].id)
            &&& exists|i: int|
                0 <= i < s.tracker.tracks.len() && is_settled(
                    #[trigger] s.tracker.tracks[i],
                    readings[i],
                ) && describes(s.tracker.tracks[i], readings[i], v[j])
            &&& forall|k: int|
                j < k < v.len() ==> v[j].center_hz <= (#[trigger] v[k]).center_hz
        }),
{
    let tracks = s.tracker.tracks;
    let v = scanner::overview(s, events, readings, now_ms);
    scanner_laws::law_overview(s, events, readings, now_ms);
    assert(scanner_laws::is_reported(tracks, readings, tracks.len(), v[j]));
    let i = choose|i: int|
        0 <= i < tracks.len() && scanner::is_reportable(tracks[i], readings[i]) && v[j]
            == #[trigger] scanner::signal_of(tracks[i], readings[i]);
    lemma_description(tracks[i], readings[i]);
    assert(is_settled(tracks[i], readings[i]));
}

/// The event of this kind about this signal.
pub open spec fn event(
    now_ms: i64,
    kind: scanner::SignalEventKind,
    signal: scanner::Signal,
) -> scanner::SignalEvent {
    scanner::SignalEvent { ts_ms: now_ms, kind, signal }
}

proof fn lemma_push_keeps(
    events: Seq<scanner::SignalEvent>,
    more: scanner::SignalEvent,
    e: scanner::SignalEvent,
)
    ensures
        events.contains(e) ==> events.push(more).contains(e),
        events.push(more).contains(more),
        events.push(more).contains(e) ==> events.contains(e) || e == more,
{
    let all = events.push(more);
    assert(all[events.len() as int] == more);
    if events.contains(e) {
        let i = choose|i: int| 0 <= i < events.len() && events[i] == e;
        assert(all[i] == e);
    }
    if all.contains(e) {
        let i = choose|i: int| 0 <= i < all.len() && all[i] == e;
        if i < events.len() {
            assert(events[i] == e);
        }
    }
}

/// What was reported of a signal leaves the board with the loss of it.
proof fn lemma_crossed_off_once(
    b: scanner::Board,
    events: Seq<track::TrackEvent>,
    k: nat,
    now_ms: i64,
    id: u64,
)
    requires
        k <= events.len(),
        b.events.len() == 0,
    ensures
        ({
            let r = scanner::crossed_off_all(b, events, k, now_ms);
            let lost = events.take(k as int).contains(track::TrackEvent::Lost(id));
            &&& r.announced.contains_key(id) <==> b.announced.contains_key(id) && !lost
            &&& r.announced.contains_key(id) ==> r.announced[id] == b.announced[id]
            &&& b.announced.contains_key(id) && lost ==> r.events.contains(
                event(now_ms, scanner::SignalEventKind::Lost, b.announced[id]),
            )
            &&& forall|e: int|
                0 <= e < r.events.len() ==> (#[trigger] r.events[e]).kind
                    == scanner::SignalEventKind::Lost
        }),
    decreases k,
{
    if k > 0 {
        let before = scanner::crossed_off_all(b, events, (k - 1) as nat, now_ms);
        let head = events.take(k - 1);
        let all = events.take(k as int);
        lemma_crossed_off_once(b, events, (k - 1) as nat, now_ms, id);
        assert(all =~= head.push(events[k - 1]));
        let lost = track::TrackEvent::Lost(id);
        if head.contains(lost) {
            let j = choose|j: int| 0 <= j < head.len() && head[j] == lost;
            assert(all[j] == lost);
        }
        if events[k - 1] == lost {
            assert(all[k - 1] == lost);
        }
        if all.contains(lost) {
            let j = choose|j: int| 0 <= j < all.len() && all[j] == lost;
            if j < head.len() {
                assert(head[j] == lost);
            }
        }
        match events[k - 1] {
            track::TrackEvent::Lost(other) => if before.announced.contains_key(other) {
                lemma_push_keeps(
                    before.events,
                    event(now_ms, scanner::SignalEventKind::Lost, before.announced[other]),
                    event(now_ms, scanner::SignalEventKind::Lost, b.announced[id]),
                );
            },
            track::TrackEvent::Confirmed(_) => {},
        }
    }
}

/// Signals of other numbers change nothing for a signal.
proof fn lemma_posted_elsewhere(
    b: scanner::Board,
    signals: Seq<scanner::Signal>,
    from: nat,
    to: nat,
    now_ms: i64,
    id: u64,
    e: scanner::SignalEvent,
)
    requires
        from <= to <= signals.len(),
        forall|j: int| from <= j < to ==> (#[trigger] signals[j]).id != id,
    ensures
        ({
            let first = scanner::posted_all(b, signals, from, now_ms);
            let last = scanner::posted_all(b, signals, to, now_ms);
            &&& last.announced.contains_key(id) <==> first.announced.contains_key(id)
            &&& last.announced.contains_key(id) ==> last.announced[id] == first.announced[id]
            &&& first.events.contains(e) ==> last.events.contains(e)
            &&& e.signal.id == id && last.events.contains(e) ==> first.events.contains(e)
        }),
    decreases to,
{
    if from < to {
        let before = scanner::posted_all(b, signals, (to - 1) as nat, now_ms);
        let signal = signals[to - 1];
        lemma_posted_elsewhere(b, signals, from, (to - 1) as nat, now_ms, id, e);
        match scanner::news(before, signal) {
            Some(kind) => {
                lemma_push_keeps(before.events, event(now_ms, kind, signal), e);
            },
            None => {},
        }
    }
}

/// A report is complete. A settled signal that is not on the board, or was lost
/// in this frame, appears unless its class is noise; one that is on the board
/// with another class is reclassified; and one that is on the board is brought
/// up to date. Nothing else is told of it.
pub proof fn law_settled_signal_is_reported(
    s: scanner::ScannerView,
    events: Seq<track::TrackEvent>,
    readings: Seq<scanner::Reading>,
    now_ms: i64,
    i: int,
    g: scanner::Signal,
)
    requires
        scanner::is_valid(s),
        0 <= i < s.tracker.tracks.len(),
        is_settled(s.tracker.tracks[i], readings[i]),
        describes(s.tracker.tracks[i], readings[i], g),
    ensures
        ({
            let r = scanner::reported(s, events, readings, now_ms);
            let known = s.announced.contains_key(g.id) && !events.contains(
                track::TrackEvent::Lost(g.id),
            );
            let appears = !known && g.class != classify::Class::Noise;
            let changes = known && s.announced[g.id].class != g.class;
            &&& r.announced.contains_key(g.id) <==> known || appears
            &&& known || appears ==> r.announced[g.id] == g
            &&& appears <==> r.events.contains(
                event(now_ms, scanner::SignalEventKind::Appeared, g),
            )
            &&& changes <==> r.events.contains(
                event(now_ms, scanner::SignalEventKind::Reclassified, g),
            )
        }),
{
    let tracks = s.tracker.tracks;
    let n = events.len();
    let start = scanner::Board { announced: s.announced, events: Seq::empty() };
    let cleared = scanner::crossed_off_all(start, events, n, now_ms);
    let signals = scanner::current(tracks, readings, tracks.len());
    let appeared = event(now_ms, scanner::SignalEventKind::Appeared, g);
    let changed = event(now_ms, scanner::SignalEventKind::Reclassified, g);
    lemma_description(tracks[i], readings[i]);
    lemma_current_is_complete(tracks, readings, tracks.len());
    lemma_crossed_off_once(start, events, n, now_ms, g.id);
    assert(events.take(n as int) =~= events);
    assert(signals.contains(g));
    let k = choose|k: int| 0 <= k < signals.len() && signals[k] == g;
    assert forall|j: int| 0 <= j < signals.len() && j != k implies (#[trigger] signals[j]).id
        != g.id by {
        if j < k {
            assert(signals[j].id != signals[k].id);
        } else {
            assert(signals[k].id != signals[j].id);
        }
    }
    assert(!cleared.events.contains(appeared) && !cleared.events.contains(changed));
    let before = scanner::posted_all(cleared, signals, k as nat, now_ms);
    lemma_posted_elsewhere(cleared, signals, 0, k as nat, now_ms, g.id, appeared);
    lemma_posted_elsewhere(cleared, signals, 0, k as nat, now_ms, g.id, changed);
    match scanner::news(before, g) {
        Some(kind) => {
            lemma_push_keeps(before.events, event(now_ms, kind, g), appeared);
            lemma_push_keeps(before.events, event(now_ms, kind, g), changed);
        },
        None => {},
    }
    lemma_posted_elsewhere(
        cleared,
        signals,
        (k + 1) as nat,
        signals.len(),
        now_ms,
        g.id,
        appeared,
    );
    lemma_posted_elsewhere(cleared, signals, (k + 1) as nat, signals.len(), now_ms, g.id, changed);
}

/// A loss is reported: a signal on the board that the tracker has lost leaves it
/// with an event that shows it as it was reported last.
pub proof fn law_loss_shows_last_report(
    s: scanner::ScannerView,
    events: Seq<track::TrackEvent>,
    readings: Seq<scanner::Reading>,
    now_ms: i64,
    id: u64,
)
    requires
        s.announced.contains_key(id),
        events.contains(track::TrackEvent::Lost(id)),
    ensures
        scanner::reported(s, events, readings, now_ms).events.contains(
            event(now_ms, scanner::SignalEventKind::Lost, s.announced[id]),
        ),
{
    let tracks = s.tracker.tracks;
    let n = events.len();
    let start = scanner::Board { announced: s.announced, events: Seq::empty() };
    let cleared = scanner::crossed_off_all(start, events, n, now_ms);
    let signals = scanner::current(tracks, readings, tracks.len());
    lemma_crossed_off_once(start, events, n, now_ms, id);
    assert(events.take(n as int) =~= events);
    lemma_posted_keeps_events(
        cleared,
        signals,
        signals.len(),
        now_ms,
        event(now_ms, scanner::SignalEventKind::Lost, s.announced[id]),
    );
}

proof fn lemma_posted_keeps_events(
    b: scanner::Board,
    signals: Seq<scanner::Signal>,
    k: nat,
    now_ms: i64,
    e: scanner::SignalEvent,
)
    requires
        k <= signals.len(),
        b.events.contains(e),
    ensures
        scanner::posted_all(b, signals, k, now_ms).events.contains(e),
    decreases k,
{
    if k > 0 {
        let before = scanner::posted_all(b, signals, (k - 1) as nat, now_ms);
        lemma_posted_keeps_events(b, signals, (k - 1) as nat, now_ms, e);
        match scanner::news(before, signals[k - 1]) {
            Some(kind) => {
                lemma_push_keeps(before.events, event(now_ms, kind, signals[k - 1]), e);
            },
            None => {},
        }
    }
}

/// A signal of which no track is settled is left alone: it neither appears nor
/// changes, and if it is on the board and not lost, it stays as it is.
pub proof fn law_unsettled_signal_is_left_alone(
    s: scanner::ScannerView,
    events: Seq<track::TrackEvent>,
    readings: Seq<scanner::Reading>,
    now_ms: i64,
    id: u64,
)
    requires
        scanner::is_valid(s),
        forall|i: int|
            0 <= i < s.tracker.tracks.len() && (#[trigger] s.tracker.tracks[i]).id == id
                ==> !is_settled(s.tracker.tracks[i], readings[i]),
    ensures
        ({
            let r = scanner::reported(s, events, readings, now_ms);
            let known = s.announced.contains_key(id) && !events.contains(
                track::TrackEvent::Lost(id),
            );
            &&& r.announced.contains_key(id) <==> known
            &&& known ==> r.announced[id] == s.announced[id]
        }),
{
    let tracks = s.tracker.tracks;
    let n = events.len();
    let start = scanner::Board { announced: s.announced, events: Seq::empty() };
    let cleared = scanner::crossed_off_all(start, events, n, now_ms);
    let signals = scanner::current(tracks, readings, tracks.len());
    lemma_crossed_off_once(start, events, n, now_ms, id);
    assert(events.take(n as int) =~= events);
    scanner_laws::lemma_current(tracks, readings, tracks.len());
    assert forall|j: int| 0 <= j < signals.len() implies (#[trigger] signals[j]).id != id by {
        assert(scanner_laws::is_reported(tracks, readings, tracks.len(), signals[j]));
        let i = choose|i: int|
            0 <= i < tracks.len() && scanner::is_reportable(tracks[i], readings[i]) && signals[j]
                == #[trigger] scanner::signal_of(tracks[i], readings[i]);
        assert(tracks[i].id == signals[j].id);
        assert(is_settled(tracks[i], readings[i]));
    }
    lemma_posted_elsewhere(
        cleared,
        signals,
        0,
        signals.len(),
        now_ms,
        id,
        event(now_ms, scanner::SignalEventKind::Lost, s.announced[id]),
    );
}

/// A window counts as one vote for its signal and changes no other. If the
/// network gives noise a half or more, it counts for none.
pub proof fn law_window_is_one_vote(
    s: track::TrackerView,
    id: u64,
    probs: Seq<i64>,
    votes: Seq<i64>,
    time: i64,
    i: int,
)
    requires
        probs.len() == 6,
        0 <= i < s.tracks.len(),
        s.tracks[i].classified < u32::MAX,
    ensures
        ({
            let r = scanner::counted(s, id, probs, votes, time);
            let before = s.tracks[i];
            let after = r.tracks[i];
            let noise = 0x3F00_0000 <= probs[0] <= 0x7F80_0000;
            &&& r.tracks.len() == s.tracks.len()
            &&& before.id != id || noise ==> after == before
            &&& before.id == id && !noise ==> {
                &&& after.votes == votes
                &&& after.classified == before.classified + 1
                &&& after.last_classified == time
                &&& after == (track::TrackView {
                    votes: after.votes,
                    classified: after.classified,
                    last_classified: after.last_classified,
                    ..before
                })
            }
            &&& (r.next_id, r.classes, r.confirm_streak, r.confirm_bursts) == (
                s.next_id,
                s.classes,
                s.confirm_streak,
                s.confirm_bursts,
            )
        }),
{
}

/// A first hit is never classified; from the second on every hit is until five
/// votes are together, and after that only when a new vote is due.
pub proof fn law_classification_is_due(t: track::TrackView)
    ensures
        t.hits < 2 ==> !scanner::is_due(t, true) && !scanner::is_due(t, false),
        t.hits >= 2 && t.classified < 5 ==> scanner::is_due(t, true) && scanner::is_due(t, false),
        t.hits >= 2 && t.classified >= 5 ==> scanner::is_due(t, true) && !scanner::is_due(t, false),
{
}

} // verus!

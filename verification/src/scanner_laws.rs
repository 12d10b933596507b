//! What holds of every report.

use crate::classify;
use crate::order;
use crate::scanner;
use crate::track;
use vstd::prelude::*;

verus! {

/// A signal as it is reported of one of the first `k` tracks.
pub open spec fn is_reported(
    tracks: Seq<track::TrackView>,
    readings: Seq<scanner::Reading>,
    k: nat,
    s: scanner::Signal,
) -> bool {
    exists|i: int|
        0 <= i < k && scanner::is_reportable(tracks[i], readings[i]) && s
            == #[trigger] scanner::signal_of(tracks[i], readings[i])
}

pub proof fn lemma_current(tracks: Seq<track::TrackView>, readings: Seq<scanner::Reading>, k: nat)
    ensures
        forall|j: int|
            0 <= j < scanner::current(tracks, readings, k).len() ==> is_reported(
                tracks,
                readings,
                k,
                #[trigger] scanner::current(tracks, readings, k)[j],
            ),
    decreases k,
{
    if k > 0 {
        let before = scanner::current(tracks, readings, (k - 1) as nat);
        let r = scanner::current(tracks, readings, k);
        lemma_current(tracks, readings, (k - 1) as nat);
        assert forall|j: int| 0 <= j < r.len() implies is_reported(
            tracks,
            readings,
            k,
            #[trigger] r[j],
        ) by {
            if j < before.len() {
                assert(r[j] == before[j]);
                assert(is_reported(tracks, readings, (k - 1) as nat, before[j]));
                let i = choose|i: int|
                    0 <= i < k - 1 && scanner::is_reportable(tracks[i], readings[i]) && before[j]
                        == #[trigger] scanner::signal_of(tracks[i], readings[i]);
                assert(r[j] == scanner::signal_of(tracks[i], readings[i]));
            } else {
                assert(r[j] == scanner::signal_of(tracks[k - 1], readings[k - 1]));
            }
        }
    }
}

/// The event is the loss of a signal that was on the board.
pub open spec fn is_true_loss(
    announced: Map<u64, scanner::Signal>,
    e: scanner::SignalEvent,
) -> bool {
    e.kind == scanner::SignalEventKind::Lost && exists|id: u64| #[trigger]
        announced.contains_key(id) && announced[id] == e.signal
}

proof fn lemma_crossed_off(
    b: scanner::Board,
    events: Seq<track::TrackEvent>,
    k: nat,
    now_ms: i64,
)
    requires
        k <= events.len(),
        b.events.len() == 0,
    ensures
        ({
            let r = scanner::crossed_off_all(b, events, k, now_ms);
            &&& forall|id: u64| #[trigger]
                r.announced.contains_key(id) ==> b.announced.contains_key(id) && r.announced[id]
                    == b.announced[id]
            &&& forall|e: int|
                0 <= e < r.events.len() ==> is_true_loss(b.announced, #[trigger] r.events[e])
                    && r.events[e].ts_ms == now_ms
            &&& forall|j: int|
                0 <= j < k ==> match #[trigger] events[j] {
                    track::TrackEvent::Lost(id) => !r.announced.contains_key(id),
                    track::TrackEvent::Confirmed(_) => true,
                }
        }),
    decreases k,
{
    if k > 0 {
        lemma_crossed_off(b, events, (k - 1) as nat, now_ms);
    }
}

/// The event is the appearance or the new class of one of the signals.
pub open spec fn is_true_news(
    tracks: Seq<track::TrackView>,
    readings: Seq<scanner::Reading>,
    e: scanner::SignalEvent,
) -> bool {
    &&& e.kind != scanner::SignalEventKind::Lost
    &&& e.kind == scanner::SignalEventKind::Appeared ==> e.signal.class
        != classify::Class::Noise
    &&& is_reported(tracks, readings, tracks.len(), e.signal)
}

proof fn lemma_posted(
    b: scanner::Board,
    tracks: Seq<track::TrackView>,
    readings: Seq<scanner::Reading>,
    k: nat,
    now_ms: i64,
)
    requires
        k <= scanner::current(tracks, readings, tracks.len()).len(),
    ensures
        ({
            let signals = scanner::current(tracks, readings, tracks.len());
            let r = scanner::posted_all(b, signals, k, now_ms);
            &&& r.events.len() >= b.events.len()
            &&& forall|e: int|
                0 <= e < b.events.len() ==> #[trigger] r.events[e] == b.events[e]
            &&& forall|e: int|
                b.events.len() <= e < r.events.len() ==> is_true_news(
                    tracks,
                    readings,
                    #[trigger] r.events[e],
                ) && r.events[e].ts_ms == now_ms
            &&& forall|id: u64| #[trigger]
                r.announced.contains_key(id) ==> b.announced.contains_key(id) || exists|j: int|
                    0 <= j < k && #[trigger] signals[j].id == id
            &&& forall|id: u64| #[trigger]
                b.announced.contains_key(id) ==> r.announced.contains_key(id)
        }),
    decreases k,
{
    let signals = scanner::current(tracks, readings, tracks.len());
    if k > 0 {
        let before = scanner::posted_all(b, signals, (k - 1) as nat, now_ms);
        let r = scanner::posted_all(b, signals, k, now_ms);
        lemma_posted(b, tracks, readings, (k - 1) as nat, now_ms);
        lemma_current(tracks, readings, tracks.len());
        assert(is_reported(tracks, readings, tracks.len(), signals[k - 1]));
        assert forall|id: u64| #[trigger]
            r.announced.contains_key(id) implies b.announced.contains_key(id) || exists|j: int|
            0 <= j < k && #[trigger] signals[j].id == id by {
            if before.announced.contains_key(id) {
                if !b.announced.contains_key(id) {
                    let j = choose|j: int| 0 <= j < k - 1 && #[trigger] signals[j].id == id;
                    assert(signals[j].id == id);
                }
            } else {
                assert(signals[k - 1].id == id);
            }
        }
    }
}

/// Every event is true: a loss is that of a reported signal, and what appears
/// or changes its class is a confirmed signal whose class rests on enough
/// votes. Noise never appears.
pub proof fn law_reports_rest_on_votes(
    s: scanner::ScannerView,
    events: Seq<track::TrackEvent>,
    readings: Seq<scanner::Reading>,
    now_ms: i64,
    e: int,
)
    requires
        0 <= e < scanner::reported(s, events, readings, now_ms).events.len(),
    ensures
        ({
            let event = scanner::reported(s, events, readings, now_ms).events[e];
            &&& event.ts_ms == now_ms
            &&& is_true_loss(s.announced, event) || is_true_news(
                s.tracker.tracks,
                readings,
                event,
            )
        }),
{
    let start = scanner::Board { announced: s.announced, events: Seq::empty() };
    let cleared = scanner::crossed_off_all(start, events, events.len(), now_ms);
    let signals = scanner::current(s.tracker.tracks, readings, s.tracker.tracks.len());
    lemma_crossed_off(start, events, events.len(), now_ms);
    lemma_posted(cleared, s.tracker.tracks, readings, signals.len(), now_ms);
    if e < cleared.events.len() {
        assert(is_true_loss(start.announced, cleared.events[e]));
    }
}

/// A signal that was lost and is not followed any more is not on the board
/// after the report.
pub proof fn law_lost_signal_is_crossed_off(
    s: scanner::ScannerView,
    events: Seq<track::TrackEvent>,
    readings: Seq<scanner::Reading>,
    now_ms: i64,
    id: u64,
)
    requires
        events.contains(track::TrackEvent::Lost(id)),
        forall|i: int| 0 <= i < s.tracker.tracks.len() ==> (#[trigger] s.tracker.tracks[i]).id != id,
    ensures
        !scanner::reported(s, events, readings, now_ms).announced.contains_key(id),
{
    let tracks = s.tracker.tracks;
    let start = scanner::Board { announced: s.announced, events: Seq::empty() };
    let cleared = scanner::crossed_off_all(start, events, events.len(), now_ms);
    let signals = scanner::current(tracks, readings, tracks.len());
    lemma_crossed_off(start, events, events.len(), now_ms);
    lemma_posted(cleared, tracks, readings, signals.len(), now_ms);
    lemma_current(tracks, readings, tracks.len());
    let at = choose|at: int| 0 <= at < events.len() && events[at] == track::TrackEvent::Lost(id);
    assert(events[at] == track::TrackEvent::Lost(id));
    let r = scanner::reported(s, events, readings, now_ms);
    if r.announced.contains_key(id) {
        let j = choose|j: int| 0 <= j < signals.len() && #[trigger] signals[j].id == id;
        assert(is_reported(tracks, readings, tracks.len(), signals[j]));
        let i = choose|i: int|
            0 <= i < tracks.len() && scanner::is_reportable(tracks[i], readings[i]) && signals[j]
                == #[trigger] scanner::signal_of(tracks[i], readings[i]);
        assert(tracks[i].id == id);
    }
}

/// A signal stays on the board until the tracker has lost it.
pub proof fn law_board_keeps_signals(
    s: scanner::ScannerView,
    events: Seq<track::TrackEvent>,
    readings: Seq<scanner::Reading>,
    now_ms: i64,
    id: u64,
)
    requires
        s.announced.contains_key(id),
        !events.contains(track::TrackEvent::Lost(id)),
    ensures
        scanner::reported(s, events, readings, now_ms).announced.contains_key(id),
{
    let tracks = s.tracker.tracks;
    let start = scanner::Board { announced: s.announced, events: Seq::empty() };
    let cleared = scanner::crossed_off_all(start, events, events.len(), now_ms);
    let signals = scanner::current(tracks, readings, tracks.len());
    lemma_not_crossed_off(start, events, events.len(), now_ms, id);
    lemma_posted(cleared, tracks, readings, signals.len(), now_ms);
}

proof fn lemma_not_crossed_off(
    b: scanner::Board,
    events: Seq<track::TrackEvent>,
    k: nat,
    now_ms: i64,
    id: u64,
)
    requires
        k <= events.len(),
        b.announced.contains_key(id),
        !events.contains(track::TrackEvent::Lost(id)),
    ensures
        scanner::crossed_off_all(b, events, k, now_ms).announced.contains_key(id),
    decreases k,
{
    if k > 0 {
        lemma_not_crossed_off(b, events, (k - 1) as nat, now_ms, id);
        assert(events.contains(events[k - 1]));
    }
}

/// Every signal on the board stands there under its own number.
pub open spec fn is_labelled(announced: Map<u64, scanner::Signal>) -> bool {
    forall|id: u64| #[trigger] announced.contains_key(id) ==> announced[id].id == id
}

/// One of the events is of this kind and about this signal.
pub open spec fn tells(
    events: Seq<scanner::SignalEvent>,
    kind: scanner::SignalEventKind,
    id: u64,
) -> bool {
    exists|e: int|
        0 <= e < events.len() && (#[trigger] events[e]).kind == kind && events[e].signal.id == id
}

proof fn lemma_tells_more(
    events: Seq<scanner::SignalEvent>,
    event: scanner::SignalEvent,
    kind: scanner::SignalEventKind,
    id: u64,
)
    ensures
        tells(events.push(event), kind, id) <==> tells(events, kind, id) || (event.kind == kind
            && event.signal.id == id),
{
    let more = events.push(event);
    if tells(events, kind, id) {
        let e = choose|e: int|
            0 <= e < events.len() && (#[trigger] events[e]).kind == kind && events[e].signal.id
                == id;
        assert(more[e] == events[e]);
    }
    if event.kind == kind && event.signal.id == id {
        assert(more[events.len() as int] == event);
    }
    if tells(more, kind, id) {
        let e = choose|e: int|
            0 <= e < more.len() && (#[trigger] more[e]).kind == kind && more[e].signal.id == id;
        if e < events.len() {
            assert(events[e] == more[e]);
        }
    }
}

proof fn lemma_losses_are_told(
    b: scanner::Board,
    events: Seq<track::TrackEvent>,
    k: nat,
    now_ms: i64,
    id: u64,
)
    requires
        k <= events.len(),
        b.events.len() == 0,
        is_labelled(b.announced),
    ensures
        ({
            let r = scanner::crossed_off_all(b, events, k, now_ms);
            &&& is_labelled(r.announced)
            &&& r.announced.contains_key(id) <==> b.announced.contains_key(id) && !tells(
                r.events,
                scanner::SignalEventKind::Lost,
                id,
            )
            &&& r.announced.contains_key(id) ==> r.announced[id] == b.announced[id]
            &&& !tells(r.events, scanner::SignalEventKind::Appeared, id)
            &&& !tells(r.events, scanner::SignalEventKind::Reclassified, id)
        }),
    decreases k,
{
    if k > 0 {
        let before = scanner::crossed_off_all(b, events, (k - 1) as nat, now_ms);
        lemma_losses_are_told(b, events, (k - 1) as nat, now_ms, id);
        match events[k - 1] {
            track::TrackEvent::Lost(lost) => if before.announced.contains_key(lost) {
                let event = scanner::SignalEvent {
                    ts_ms: now_ms,
                    kind: scanner::SignalEventKind::Lost,
                    signal: before.announced[lost],
                };
                lemma_tells_more(before.events, event, scanner::SignalEventKind::Lost, id);
                lemma_tells_more(before.events, event, scanner::SignalEventKind::Appeared, id);
                lemma_tells_more(before.events, event, scanner::SignalEventKind::Reclassified, id);
            },
            track::TrackEvent::Confirmed(_) => {},
        }
    }
}

proof fn lemma_news_are_told(
    b: scanner::Board,
    signals: Seq<scanner::Signal>,
    k: nat,
    now_ms: i64,
    id: u64,
)
    requires
        k <= signals.len(),
        is_labelled(b.announced),
        !tells(b.events, scanner::SignalEventKind::Appeared, id),
        !tells(b.events, scanner::SignalEventKind::Reclassified, id),
    ensures
        ({
            let r = scanner::posted_all(b, signals, k, now_ms);
            let appeared = tells(r.events, scanner::SignalEventKind::Appeared, id);
            let changed = tells(r.events, scanner::SignalEventKind::Reclassified, id);
            &&& is_labelled(r.announced)
            &&& r.announced.contains_key(id) <==> b.announced.contains_key(id) || appeared
            &&& tells(r.events, scanner::SignalEventKind::Lost, id) <==> tells(
                b.events,
                scanner::SignalEventKind::Lost,
                id,
            )
            &&& r.announced.contains_key(id) && !appeared && !changed ==> r.announced[id].class
                == b.announced[id].class
        }),
    decreases k,
{
    if k > 0 {
        let before = scanner::posted_all(b, signals, (k - 1) as nat, now_ms);
        let signal = signals[k - 1];
        lemma_news_are_told(b, signals, (k - 1) as nat, now_ms, id);
        match scanner::news(before, signal) {
            Some(kind) => {
                let event = scanner::SignalEvent { ts_ms: now_ms, kind, signal };
                lemma_tells_more(before.events, event, scanner::SignalEventKind::Lost, id);
                lemma_tells_more(before.events, event, scanner::SignalEventKind::Appeared, id);
                lemma_tells_more(before.events, event, scanner::SignalEventKind::Reclassified, id);
            },
            None => {},
        }
    }
}

/// The events tell the whole story: a signal is on the board after a report
/// exactly if it appeared in it, or was there before and was not lost, and a
/// signal that no event is about keeps its class.
pub proof fn law_events_tell_the_board(
    s: scanner::ScannerView,
    events: Seq<track::TrackEvent>,
    readings: Seq<scanner::Reading>,
    now_ms: i64,
    id: u64,
)
    requires
        is_labelled(s.announced),
    ensures
        ({
            let r = scanner::reported(s, events, readings, now_ms);
            let appeared = tells(r.events, scanner::SignalEventKind::Appeared, id);
            let changed = tells(r.events, scanner::SignalEventKind::Reclassified, id);
            let lost = tells(r.events, scanner::SignalEventKind::Lost, id);
            &&& is_labelled(r.announced)
            &&& r.announced.contains_key(id) <==> appeared || (s.announced.contains_key(id)
                && !lost)
            &&& r.announced.contains_key(id) && !appeared && !changed ==> r.announced[id].class
                == s.announced[id].class
        }),
{
    let start = scanner::Board { announced: s.announced, events: Seq::empty() };
    let cleared = scanner::crossed_off_all(start, events, events.len(), now_ms);
    let signals = scanner::current(s.tracker.tracks, readings, s.tracker.tracks.len());
    lemma_losses_are_told(start, events, events.len(), now_ms, id);
    lemma_news_are_told(cleared, signals, signals.len(), now_ms, id);
}

proof fn lemma_on_board(
    signals: Seq<scanner::Signal>,
    announced: Map<u64, scanner::Signal>,
    k: nat,
)
    requires
        k <= signals.len(),
    ensures
        forall|j: int|
            0 <= j < scanner::on_board(signals, announced, k).len() ==> {
                &&& announced.contains_key(
                    (#[trigger] scanner::on_board(signals, announced, k)[j]).id,
                )
                &&& signals.contains(scanner::on_board(signals, announced, k)[j])
            },
    decreases k,
{
    if k > 0 {
        lemma_on_board(signals, announced, (k - 1) as nat);
        assert(signals.contains(signals[k - 1]));
    }
}

/// The overview lists signals by ascending frequency. Each of them is on the
/// board, and is confirmed with enough votes.
pub proof fn law_overview(
    s: scanner::ScannerView,
    events: Seq<track::TrackEvent>,
    readings: Seq<scanner::Reading>,
    now_ms: i64,
)
    ensures
        ({
            let v = scanner::overview(s, events, readings, now_ms);
            let board = scanner::reported(s, events, readings, now_ms).announced;
            &&& forall|j: int|
                0 <= j < v.len() ==> board.contains_key((#[trigger] v[j]).id) && is_reported(
                    s.tracker.tracks,
                    readings,
                    s.tracker.tracks.len(),
                    v[j],
                )
            &&& forall|j: int, k: int|
                0 <= j < k < v.len() ==> (#[trigger] v[j]).center_hz <= (#[trigger] v[k]).center_hz
        }),
{
    let tracks = s.tracker.tracks;
    let board = scanner::reported(s, events, readings, now_ms).announced;
    let signals = scanner::current(tracks, readings, tracks.len());
    let shown = scanner::on_board(signals, board, signals.len());
    let keys = shown.map_values(|s: scanner::Signal| s.center_hz);
    let o = order::ascending(keys);
    let v = scanner::overview(s, events, readings, now_ms);
    lemma_on_board(signals, board, signals.len());
    lemma_current(tracks, readings, tracks.len());
    order::law_ascending(keys);
    assert forall|j: int| 0 <= j < v.len() implies board.contains_key((#[trigger] v[j]).id)
        && is_reported(tracks, readings, tracks.len(), v[j]) by {
        assert(0 <= o[j] < keys.len());
        assert(v[j] == shown[o[j]]);
        assert(signals.contains(shown[o[j]]));
        let i = choose|i: int| 0 <= i < signals.len() && signals[i] == v[j];
        assert(is_reported(tracks, readings, tracks.len(), signals[i]));
    }
    assert forall|j: int, k: int| 0 <= j < k < v.len() implies (#[trigger] v[j]).center_hz <= (
    #[trigger] v[k]).center_hz by {
        assert(0 <= o[j] < keys.len() && 0 <= o[k] < keys.len());
        assert(keys[o[j]] == v[j].center_hz && keys[o[k]] == v[k].center_hz);
    }
}

/// A track without votes, as a false alarm is whose windows were all taken for
/// noise, is never reported.
pub proof fn law_abstentions_report_nothing(t: track::TrackView, r: scanner::Reading)
    requires
        t.classified < scanner::MIN_VOTES,
    ensures
        !scanner::is_reportable(t, r),
{
}

} // verus!

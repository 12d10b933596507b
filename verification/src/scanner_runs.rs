//! What holds of the reports over many frames.

use crate::classify;
use crate::scanner;
use crate::scanner_laws;
use crate::track;
use crate::track_laws;
use vstd::prelude::*;

verus! {

/// What the network said of a window of one signal.
pub struct Ballot {
    pub id: u64,
    pub probs: Seq<i64>,
    pub votes: Seq<i64>,
    pub time: i64,
}

/// What one frame brings: detections, votes, and what is measured for the
/// report.
pub struct Step {
    pub frame: track::Frame,
    pub ballots: Seq<Ballot>,
    pub readings: Seq<scanner::Reading>,
    pub now_ms: i64,
}

/// The tracks after several ballots.
pub open spec fn counted_all(s: track::TrackerView, ballots: Seq<Ballot>) -> track::TrackerView
    decreases ballots.len(),
{
    if ballots.len() == 0 {
        s
    } else {
        let b = ballots.last();
        scanner::counted(counted_all(s, ballots.drop_last()), b.id, b.probs, b.votes, b.time)
    }
}

/// The scanner before the report of a frame.
pub open spec fn observed(s: scanner::ScannerView, step: Step) -> scanner::ScannerView {
    scanner::ScannerView {
        tracker: counted_all(track::updated(s.tracker, step.frame), step.ballots),
        announced: s.announced,
    }
}

/// The report of a frame.
pub open spec fn step_report(s: scanner::ScannerView, step: Step) -> scanner::Board {
    scanner::reported(
        observed(s, step),
        track::frame_events(s.tracker, step.frame),
        step.readings,
        step.now_ms,
    )
}

/// The scanner after several frames.
pub open spec fn scan(s: scanner::ScannerView, steps: Seq<Step>) -> scanner::ScannerView
    decreases steps.len(),
{
    if steps.len() == 0 {
        s
    } else {
        let before = scan(s, steps.drop_last());
        scanner::ScannerView {
            tracker: observed(before, steps.last()).tracker,
            announced: step_report(before, steps.last()).announced,
        }
    }
}

/// Every frame belongs to the state that it finds.
pub open spec fn can_scan(s: scanner::ScannerView, steps: Seq<Step>) -> bool
    decreases steps.len(),
{
    if steps.len() == 0 {
        true
    } else {
        &&& can_scan(s, steps.drop_last())
        &&& track_laws::is_ready(scan(s, steps.drop_last()).tracker, steps.last().frame)
    }
}

/// The events of all reports.
pub open spec fn all_events(s: scanner::ScannerView, steps: Seq<Step>) -> Seq<scanner::SignalEvent>
    decreases steps.len(),
{
    if steps.len() == 0 {
        Seq::empty()
    } else {
        all_events(s, steps.drop_last()) + step_report(
            scan(s, steps.drop_last()),
            steps.last(),
        ).events
    }
}

/// The events about one signal, in their order.
pub open spec fn about(events: Seq<scanner::SignalEvent>, id: u64) -> Seq<scanner::SignalEvent>
    decreases events.len(),
{
    if events.len() == 0 {
        Seq::empty()
    } else if events.last().signal.id == id {
        about(events.drop_last(), id).push(events.last())
    } else {
        about(events.drop_last(), id)
    }
}

/// Event `k` is right where it stands: a signal appears first, and not as
/// noise; a new class is another one than before; a loss comes last, with the
/// class that was reported before.
pub open spec fn is_chapter(h: Seq<scanner::SignalEvent>, k: int) -> bool {
    match h[k].kind {
        scanner::SignalEventKind::Appeared => k == 0 && h[k].signal.class
            != classify::Class::Noise,
        scanner::SignalEventKind::Reclassified => k > 0 && h[k].signal.class != h[k
            - 1].signal.class,
        scanner::SignalEventKind::Lost => k > 0 && k == h.len() - 1 && h[k].signal.class == h[k
            - 1].signal.class,
    }
}

/// The events of one signal: it appears, is reclassified any number of times,
/// and is lost at most once, at the end.
pub open spec fn is_story(h: Seq<scanner::SignalEvent>) -> bool {
    forall|k: int| 0 <= k < h.len() ==> #[trigger] is_chapter(h, k)
}

/// The signal was lost.
pub open spec fn is_over(h: Seq<scanner::SignalEvent>) -> bool {
    h.len() > 0 && h.last().kind == scanner::SignalEventKind::Lost
}

/// The story and the board agree: the signal is there from its appearance to
/// its loss, with the class of the last event.
pub open spec fn agrees(
    h: Seq<scanner::SignalEvent>,
    announced: Map<u64, scanner::Signal>,
    id: u64,
) -> bool {
    &&& is_story(h)
    &&& announced.contains_key(id) <==> h.len() > 0 && !is_over(h)
    &&& announced.contains_key(id) ==> announced[id].class == h.last().signal.class
}

proof fn lemma_about_push(
    past: Seq<scanner::SignalEvent>,
    events: Seq<scanner::SignalEvent>,
    e: scanner::SignalEvent,
    id: u64,
)
    ensures
        about(past + events.push(e), id) == (if e.signal.id == id {
            about(past + events, id).push(e)
        } else {
            about(past + events, id)
        }),
{
    assert((past + events.push(e)).drop_last() =~= past + events);
}

/// A story that is not over goes on.
proof fn lemma_story_goes_on(h: Seq<scanner::SignalEvent>, e: scanner::SignalEvent)
    requires
        is_story(h),
        !is_over(h),
        is_chapter(h.push(e), h.len() as int),
    ensures
        is_story(h.push(e)),
{
    let more = h.push(e);
    assert forall|k: int| 0 <= k < more.len() implies #[trigger] is_chapter(more, k) by {
        if k < h.len() {
            assert(is_chapter(h, k));
        }
    }
}

proof fn lemma_losses_agree(
    past: Seq<scanner::SignalEvent>,
    b: scanner::Board,
    events: Seq<track::TrackEvent>,
    k: nat,
    now_ms: i64,
    id: u64,
)
    requires
        k <= events.len(),
        b.events.len() == 0,
        scanner_laws::is_labelled(b.announced),
        agrees(about(past, id), b.announced, id),
    ensures
        ({
            let r = scanner::crossed_off_all(b, events, k, now_ms);
            let h = about(past + r.events, id);
            &&& scanner_laws::is_labelled(r.announced)
            &&& agrees(h, r.announced, id)
            &&& is_over(h) ==> is_over(about(past, id)) || events.contains(
                track::TrackEvent::Lost(id),
            )
        }),
    decreases k,
{
    if k == 0 {
        assert(past + b.events =~= past);
    } else {
        let before = scanner::crossed_off_all(b, events, (k - 1) as nat, now_ms);
        let h = about(past + before.events, id);
        lemma_losses_agree(past, b, events, (k - 1) as nat, now_ms, id);
        match events[k - 1] {
            track::TrackEvent::Lost(lost) => if before.announced.contains_key(lost) {
                let e = scanner::SignalEvent {
                    ts_ms: now_ms,
                    kind: scanner::SignalEventKind::Lost,
                    signal: before.announced[lost],
                };
                lemma_about_push(past, before.events, e, id);
                if lost == id {
                    assert(events[k - 1] == track::TrackEvent::Lost(id));
                    lemma_story_goes_on(h, e);
                }
            },
            track::TrackEvent::Confirmed(_) => {},
        }
    }
}

proof fn lemma_news_agree(
    past: Seq<scanner::SignalEvent>,
    b: scanner::Board,
    signals: Seq<scanner::Signal>,
    k: nat,
    now_ms: i64,
    id: u64,
)
    requires
        k <= signals.len(),
        scanner_laws::is_labelled(b.announced),
        agrees(about(past + b.events, id), b.announced, id),
        is_over(about(past + b.events, id)) ==> forall|j: int|
            0 <= j < signals.len() ==> (#[trigger] signals[j]).id != id,
    ensures
        ({
            let r = scanner::posted_all(b, signals, k, now_ms);
            let h = about(past + r.events, id);
            &&& scanner_laws::is_labelled(r.announced)
            &&& agrees(h, r.announced, id)
            &&& is_over(h) <==> is_over(about(past + b.events, id))
        }),
    decreases k,
{
    if k > 0 {
        let before = scanner::posted_all(b, signals, (k - 1) as nat, now_ms);
        let signal = signals[k - 1];
        let h = about(past + before.events, id);
        lemma_news_agree(past, b, signals, (k - 1) as nat, now_ms, id);
        match scanner::news(before, signal) {
            Some(kind) => {
                let e = scanner::SignalEvent { ts_ms: now_ms, kind, signal };
                lemma_about_push(past, before.events, e, id);
                if signal.id == id {
                    lemma_story_goes_on(h, e);
                }
            },
            None => {},
        }
    }
}

/// Votes change neither the numbers of the tracks nor what is given out.
proof fn lemma_votes_keep_numbers(s: track::TrackerView, ballots: Seq<Ballot>)
    ensures
        counted_all(s, ballots).next_id == s.next_id,
        counted_all(s, ballots).tracks.len() == s.tracks.len(),
        forall|i: int|
            0 <= i < s.tracks.len() ==> (#[trigger] counted_all(s, ballots).tracks[i]).id
                == s.tracks[i].id,
    decreases ballots.len(),
{
    if ballots.len() > 0 {
        lemma_votes_keep_numbers(s, ballots.drop_last());
    }
}

/// A signal that is not followed is in no report.
proof fn lemma_unfollowed_is_silent(
    s: track::TrackerView,
    ballots: Seq<Ballot>,
    readings: Seq<scanner::Reading>,
    id: u64,
)
    requires
        !track_laws::is_followed(s, id),
    ensures
        !track_laws::is_followed(counted_all(s, ballots), id),
        ({
            let tracks = counted_all(s, ballots).tracks;
            let signals = scanner::current(tracks, readings, tracks.len());
            forall|j: int| 0 <= j < signals.len() ==> (#[trigger] signals[j]).id != id
        }),
{
    let tracks = counted_all(s, ballots).tracks;
    let signals = scanner::current(tracks, readings, tracks.len());
    lemma_votes_keep_numbers(s, ballots);
    assert forall|i: int| 0 <= i < tracks.len() implies (#[trigger] tracks[i]).id != id by {
        assert(s.tracks[i].id != id);
    }
    scanner_laws::lemma_current(tracks, readings, tracks.len());
    assert forall|j: int| 0 <= j < signals.len() implies (#[trigger] signals[j]).id != id by {
        assert(scanner_laws::is_reported(tracks, readings, tracks.len(), signals[j]));
        let i = choose|i: int|
            0 <= i < tracks.len() && scanner::is_reportable(tracks[i], readings[i]) && signals[j]
                == #[trigger] scanner::signal_of(tracks[i], readings[i]);
        assert(tracks[i].id != id);
    }
}

/// The number of a lost signal was given out.
proof fn lemma_lost_is_known(s: track::TrackerView, f: track::Frame, id: u64)
    requires
        track_laws::is_ready(s, f),
        track::frame_events(s, f).contains(track::TrackEvent::Lost(id)),
    ensures
        id < track::updated(s, f).next_id,
        !track_laws::is_followed(track::updated(s, f), id),
{
    let w = track::sweep(s, f);
    let events = track::frame_events(s, f);
    let e = choose|e: int| 0 <= e < events.len() && events[e] == track::TrackEvent::Lost(id);
    track_laws::law_events_are_true(s, f, e);
    track_laws::law_lost_signal_is_gone(s, f, id);
    track_laws::lemma_swept(s, f, f.detections.len());
    let i = choose|i: int|
        0 <= i < w.tracks.len() && #[trigger] w.tracks[i].id == id && w.tracks[i].confirmed
            && !track::is_alive(f, w, i);
    let v = track::TrackerView { tracks: w.tracks, next_id: w.next_id, ..s };
    assert(track::is_valid_track(v.tracks[i], v.next_id));
}

/// What holds of a signal between two frames.
spec fn is_told(s: scanner::ScannerView, h: Seq<scanner::SignalEvent>, id: u64) -> bool {
    &&& scanner_laws::is_labelled(s.announced)
    &&& agrees(h, s.announced, id)
    &&& is_over(h) ==> !track_laws::is_followed(s.tracker, id) && id < s.tracker.next_id
}

proof fn lemma_step(
    past: Seq<scanner::SignalEvent>,
    s: scanner::ScannerView,
    step: Step,
    id: u64,
)
    requires
        track_laws::is_ready(s.tracker, step.frame),
        is_told(s, about(past, id), id),
    ensures
        is_told(
            (scanner::ScannerView {
                tracker: observed(s, step).tracker,
                announced: step_report(s, step).announced,
            }),
            about(past + step_report(s, step).events, id),
            id,
        ),
{
    let f = step.frame;
    let u = track::updated(s.tracker, f);
    let events = track::frame_events(s.tracker, f);
    let tracks = observed(s, step).tracker.tracks;
    let start = scanner::Board { announced: s.announced, events: Seq::empty() };
    let cleared = scanner::crossed_off_all(start, events, events.len(), step.now_ms);
    let signals = scanner::current(tracks, step.readings, tracks.len());
    lemma_losses_agree(past, start, events, events.len(), step.now_ms, id);
    lemma_votes_keep_numbers(u, step.ballots);
    if is_over(about(past + cleared.events, id)) {
        if is_over(about(past, id)) {
            track_laws::lemma_swept(s.tracker, f, f.detections.len());
            if track_laws::is_followed(u, id) {
                track_laws::law_numbers_are_not_reused(s.tracker, f, id);
            }
        } else {
            lemma_lost_is_known(s.tracker, f, id);
        }
        lemma_unfollowed_is_silent(u, step.ballots, step.readings, id);
    }
    lemma_news_agree(past, cleared, signals, signals.len(), step.now_ms, id);
}

proof fn lemma_scan(s: scanner::ScannerView, steps: Seq<Step>, id: u64)
    requires
        can_scan(s, steps),
        s.announced == Map::<u64, scanner::Signal>::empty(),
    ensures
        is_told(scan(s, steps), about(all_events(s, steps), id), id),
    decreases steps.len(),
{
    if steps.len() > 0 {
        lemma_scan(s, steps.drop_last(), id);
        lemma_step(
            all_events(s, steps.drop_last()),
            scan(s, steps.drop_last()),
            steps.last(),
            id,
        );
    }
}

/// Over all frames the events of a signal are its story: it appears, not as
/// noise, is reclassified any number of times, each time to another class, and
/// is lost at most once, last, with the class that was reported. The board has
/// it exactly from its appearance to its loss.
pub proof fn law_signal_has_one_story(s: scanner::ScannerView, steps: Seq<Step>, id: u64)
    requires
        can_scan(s, steps),
        s.announced == Map::<u64, scanner::Signal>::empty(),
    ensures
        is_story(about(all_events(s, steps), id)),
        agrees(about(all_events(s, steps), id), scan(s, steps).announced, id),
{
    lemma_scan(s, steps, id);
}

} // verus!

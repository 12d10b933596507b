//! Lists that the interface keeps: ships by number, and logs with the newest
//! entry first.

use crate::scanner::SignalEvent;
use crate::store;
use crate::store::{MessageLog, Vessel};
use vstd::prelude::*;

verus! {

/// That many entries a log holds.
pub const LOG_LEN: usize = 100;

/// The views of ships.
pub open spec fn views(list: Seq<Vessel>) -> Seq<store::VesselView> {
    list.map_values(|v: Vessel| v@)
}

/// Ships by ascending number, each once.
pub open spec fn is_sorted(list: Seq<store::VesselView>) -> bool {
    forall|i: int, j: int|
        0 <= i < j < list.len() ==> (#[trigger] list[i]).mmsi < (#[trigger] list[j]).mmsi
}

/// The list with a ship: replaced where it is known and the new state is not
/// older, otherwise put in its place.
pub open spec fn with_vessel(list: Seq<store::VesselView>, v: store::VesselView) -> Seq<
    store::VesselView,
>
    decreases list.len(),
{
    if list.len() == 0 {
        seq![v]
    } else if list.last().mmsi > v.mmsi {
        with_vessel(list.drop_last(), v).push(list.last())
    } else if list.last().mmsi == v.mmsi {
        if list.last().last_seen_ms <= v.last_seen_ms {
            list.drop_last().push(v)
        } else {
            list
        }
    } else {
        list.push(v)
    }
}

/// Inserts a ship, or replaces it if the new state is not older.
pub fn upsert(list: &mut Vec<Vessel>, v: Vessel)
    requires
        is_sorted(views(old(list)@)),
    ensures
        is_sorted(views(final(list)@)),
        views(final(list)@) == with_vessel(views(old(list)@), v@),
{
    let ghost before = views(list@);
    let mut low: usize = 0;
    let mut high: usize = list.len();
    while low < high
        invariant
            low <= high <= list@.len(),
            before == views(list@),
            is_sorted(before),
            forall|i: int| 0 <= i < low ==> (#[trigger] before[i]).mmsi < v.mmsi,
            forall|i: int| high <= i < before.len() ==> (#[trigger] before[i]).mmsi >= v.mmsi,
        decreases high - low,
    {
        let mid: usize = low + (high - low) / 2;
        assert(before[mid as int] == list@[mid as int]@);
        if list[mid].mmsi < v.mmsi {
            low = mid + 1;
        } else {
            high = mid;
        }
    }
    proof {
        lemma_with_vessel(before, v@, low as int);
    }
    if low < list.len() {
        assert(before[low as int] == list@[low as int]@);
    }
    if low < list.len() && list[low].mmsi == v.mmsi {
        if list[low].last_seen_ms <= v.last_seen_ms {
            list.set(low, v);
            assert(views(list@) =~= before.update(low as int, v@));
        }
    } else {
        list.insert(low, v);
        assert(views(list@) =~= before.insert(low as int, v@));
    }
}

proof fn lemma_with_vessel(list: Seq<store::VesselView>, v: store::VesselView, at: int)
    requires
        is_sorted(list),
        0 <= at <= list.len(),
        forall|i: int| 0 <= i < at ==> (#[trigger] list[i]).mmsi < v.mmsi,
        forall|i: int| at <= i < list.len() ==> (#[trigger] list[i]).mmsi >= v.mmsi,
    ensures
        with_vessel(list, v) == (if at < list.len() && list[at].mmsi == v.mmsi {
            if list[at].last_seen_ms <= v.last_seen_ms {
                list.update(at, v)
            } else {
                list
            }
        } else {
            list.insert(at, v)
        }),
        is_sorted(with_vessel(list, v)),
    decreases list.len(),
{
    let r = with_vessel(list, v);
    if list.len() > 0 {
        let n = list.len() - 1;
        if list.last().mmsi > v.mmsi {
            assert(at <= n);
            let front = list.drop_last();
            assert forall|i: int| at <= i < front.len() implies (#[trigger] front[i]).mmsi
                >= v.mmsi by {
                assert(front[i] == list[i]);
            }
            lemma_with_vessel(front, v, at);
            if at < front.len() && front[at].mmsi == v.mmsi {
                assert(front.update(at, v).push(list.last()) =~= list.update(at, v));
                assert(front.push(list.last()) =~= list);
            } else {
                assert(front.insert(at, v).push(list.last()) =~= list.insert(at, v));
            }
        } else if list.last().mmsi == v.mmsi {
            assert(at == n) by {
                if at < n {
                    assert(list[at].mmsi < list[n].mmsi);
                }
            }
            assert(list.drop_last().push(v) =~= list.update(at, v));
        } else {
            assert(at == list.len());
            assert(list.push(v) =~= list.insert(at, v));
        }
    } else {
        assert(seq![v] =~= list.insert(at, v));
    }
    lemma_insert_sorted(list, v, at);
}

proof fn lemma_insert_sorted(list: Seq<store::VesselView>, v: store::VesselView, at: int)
    requires
        is_sorted(list),
        0 <= at <= list.len(),
        forall|i: int| 0 <= i < at ==> (#[trigger] list[i]).mmsi < v.mmsi,
        forall|i: int| at <= i < list.len() ==> (#[trigger] list[i]).mmsi >= v.mmsi,
    ensures
        at < list.len() && list[at].mmsi == v.mmsi ==> is_sorted(list.update(at, v)),
        !(at < list.len() && list[at].mmsi == v.mmsi) ==> is_sorted(list.insert(at, v)),
{
    if at < list.len() && list[at].mmsi == v.mmsi {
        let r = list.update(at, v);
        assert forall|i: int, j: int| 0 <= i < j < r.len() implies (#[trigger] r[i]).mmsi < (
        #[trigger] r[j]).mmsi by {
            assert(list[i].mmsi < list[j].mmsi);
        }
    } else {
        let r = list.insert(at, v);
        assert forall|i: int, j: int| 0 <= i < j < r.len() implies (#[trigger] r[i]).mmsi < (
        #[trigger] r[j]).mmsi by {
            let a = if i < at {
                i
            } else {
                i - 1
            };
            let b = if j < at {
                j
            } else {
                j - 1
            };
            if i != at && j != at {
                assert(list[a].mmsi < list[b].mmsi);
            } else if i == at {
                assert(list[b].mmsi >= v.mmsi);
                if b > at {
                    assert(list[at].mmsi < list[b].mmsi);
                }
            } else {
                assert(list[a].mmsi < v.mmsi);
            }
        }
    }
}

/// The list knows a ship in this state.
pub open spec fn knows(list: Seq<store::VesselView>, v: store::VesselView) -> bool {
    exists|i: int| 0 <= i < list.len() && #[trigger] list[i] == v
}

/// After a ship was put in, the list holds it in a state that is not older.
pub proof fn law_newest_state_wins(list: Seq<store::VesselView>, v: store::VesselView)
    requires
        is_sorted(list),
    ensures
        exists|i: int|
            0 <= i < with_vessel(list, v).len() && (#[trigger] with_vessel(list, v)[i]).mmsi
                == v.mmsi && with_vessel(list, v)[i].last_seen_ms >= v.last_seen_ms,
    decreases list.len(),
{
    let r = with_vessel(list, v);
    if list.len() == 0 {
        assert(r[0] == v);
    } else if list.last().mmsi > v.mmsi {
        let front = list.drop_last();
        law_newest_state_wins(front, v);
        let p = with_vessel(front, v);
        let i = choose|i: int|
            0 <= i < p.len() && (#[trigger] p[i]).mmsi == v.mmsi && p[i].last_seen_ms
                >= v.last_seen_ms;
        assert(r[i] == p[i]);
    } else {
        assert(r[r.len() - 1].mmsi == v.mmsi);
    }
}

/// Other ships stay as they are.
pub proof fn law_other_ships_stay(
    list: Seq<store::VesselView>,
    v: store::VesselView,
    other: store::VesselView,
)
    requires
        other.mmsi != v.mmsi,
    ensures
        knows(list, other) <==> knows(with_vessel(list, v), other),
    decreases list.len(),
{
    let r = with_vessel(list, v);
    if list.len() == 0 {
        if knows(r, other) {
            let i = choose|i: int| 0 <= i < r.len() && #[trigger] r[i] == other;
            assert(false);
        }
    } else {
        let front = list.drop_last();
        assert(knows(list, other) <==> knows(front, other) || list.last() == other) by {
            if knows(list, other) {
                let i = choose|i: int| 0 <= i < list.len() && #[trigger] list[i] == other;
                if i < front.len() {
                    assert(front[i] == other);
                }
            }
            if knows(front, other) {
                let i = choose|i: int| 0 <= i < front.len() && #[trigger] front[i] == other;
                assert(list[i] == other);
            }
            if list.last() == other {
                assert(list[list.len() - 1] == other);
            }
        }
        let (head, tail) = if list.last().mmsi > v.mmsi {
            law_other_ships_stay(front, v, other);
            (with_vessel(front, v), list.last())
        } else if list.last().mmsi == v.mmsi {
            if list.last().last_seen_ms <= v.last_seen_ms {
                (front, v)
            } else {
                (front, list.last())
            }
        } else {
            (list, v)
        };
        assert(r =~= head.push(tail));
        assert(knows(r, other) <==> knows(head, other) || tail == other) by {
            if knows(r, other) {
                let i = choose|i: int| 0 <= i < r.len() && #[trigger] r[i] == other;
                if i < head.len() {
                    assert(head[i] == other);
                }
            }
            if knows(head, other) {
                let i = choose|i: int| 0 <= i < head.len() && #[trigger] head[i] == other;
                assert(r[i] == other);
            }
            if tail == other {
                assert(r[r.len() - 1] == other);
            }
        }
    }
}

/// An entry of a log.
pub trait Stamped: Sized {
    /// When it happened.
    spec fn stamp(&self) -> i64;

    fn ts_ms(&self) -> (r: i64)
        ensures
            r == self.stamp(),
    ;
}

impl Stamped for MessageLog {
    open spec fn stamp(&self) -> i64 {
        self.ts_ms
    }

    fn ts_ms(&self) -> (r: i64) {
        self.ts_ms
    }
}

impl Stamped for SignalEvent {
    open spec fn stamp(&self) -> i64 {
        self.ts_ms
    }

    fn ts_ms(&self) -> (r: i64) {
        self.ts_ms
    }
}

/// The first [`LOG_LEN`] entries.
pub open spec fn cut<T>(log: Seq<T>) -> Seq<T> {
    if log.len() > LOG_LEN {
        log.take(LOG_LEN as int)
    } else {
        log
    }
}

/// Puts a new entry in front; the oldest ones beyond the length go.
pub fn log_new<T>(log: &mut Vec<T>, entry: T)
    ensures
        final(log)@ == cut(seq![entry] + old(log)@),
        final(log)@.len() <= LOG_LEN,
{
    let ghost before = log@;
    log.insert(0, entry);
    assert(log@ =~= seq![entry] + before);
    log.truncate(LOG_LEN);
    assert(log@ =~= cut(seq![entry] + before));
}

/// Those of the first `k` entries that are older than `oldest`.
pub open spec fn older<T: Stamped>(entries: Seq<T>, oldest: i64, k: nat) -> Seq<T>
    decreases k,
{
    if k == 0 {
        Seq::empty()
    } else {
        let before = older(entries, oldest, (k - 1) as nat);
        if entries[k - 1].stamp() < oldest {
            before.push(entries[k - 1])
        } else {
            before
        }
    }
}

/// Time of the oldest entry of a log.
pub open spec fn oldest_of<T: Stamped>(log: Seq<T>) -> i64 {
    if log.len() > 0 {
        log.last().stamp()
    } else {
        i64::MAX
    }
}

/// Appends what was fetched and is older than the log: what came live already
/// is newer.
pub fn log_fetched<T: Stamped>(log: &mut Vec<T>, fetched: Vec<T>)
    ensures
        final(log)@ == cut(
            old(log)@ + older(fetched@, oldest_of(old(log)@), fetched@.len()),
        ),
        final(log)@.len() <= LOG_LEN,
{
    let ghost before = log@;
    let oldest: i64 = if log.len() > 0 {
        log[log.len() - 1].ts_ms()
    } else {
        i64::MAX
    };
    let ghost all = fetched@;
    let total: usize = fetched.len();
    let mut rest: Vec<T> = fetched;
    let mut turned: Vec<T> = Vec::new();
    while rest.len() > 0
        invariant
            rest@.len() + turned@.len() == all.len(),
            rest@ == all.take(rest@.len() as int),
            forall|i: int|
                0 <= i < turned@.len() ==> #[trigger] turned@[i] == all[all.len() - 1 - i],
        decreases rest@.len(),
    {
        if let Some(e) = rest.pop() {
            turned.push(e);
        }
    }
    let mut k: usize = 0;
    assert(before + older(all, oldest, 0) =~= before);
    while turned.len() > 0
        invariant
            k + turned@.len() == total == all.len(),
            forall|i: int|
                0 <= i < turned@.len() ==> #[trigger] turned@[i] == all[all.len() - 1 - i],
            log@ == before + older(all, oldest, k as nat),
        decreases turned@.len(),
    {
        if let Some(e) = turned.pop() {
            assert(e == all[k as int]);
            let ghost so_far = log@;
            if e.ts_ms() < oldest {
                log.push(e);
            }
            k += 1;
            assert(log@ =~= before + older(all, oldest, k as nat));
        }
    }
    log.truncate(LOG_LEN);
    assert(log@ =~= cut(before + older(all, oldest, all.len())));
}

/// Newest first.
pub open spec fn is_descending<T: Stamped>(log: Seq<T>) -> bool {
    forall|i: int, j: int|
        0 <= i < j < log.len() ==> (#[trigger] log[i]).stamp() >= (#[trigger] log[j]).stamp()
}

proof fn lemma_older<T: Stamped>(entries: Seq<T>, oldest: i64, k: nat)
    requires
        k <= entries.len(),
        is_descending(entries),
    ensures
        forall|i: int|
            0 <= i < older(entries, oldest, k).len() ==> {
                &&& (#[trigger] older(entries, oldest, k)[i]).stamp() < oldest
                &&& k > 0 ==> older(entries, oldest, k)[i].stamp() >= entries[k - 1].stamp()
            },
        is_descending(older(entries, oldest, k)),
    decreases k,
{
    if k > 0 {
        lemma_older(entries, oldest, (k - 1) as nat);
        let before = older(entries, oldest, (k - 1) as nat);
        let r = older(entries, oldest, k);
        assert forall|i: int| 0 <= i < r.len() implies (#[trigger] r[i]).stamp() < oldest
            && r[i].stamp() >= entries[k - 1].stamp() by {
            if i < before.len() {
                assert(r[i] == before[i]);
                if k > 1 {
                    assert(entries[k - 2].stamp() >= entries[k - 1].stamp());
                }
            }
        }
        assert forall|i: int, j: int| 0 <= i < j < r.len() implies (#[trigger] r[i]).stamp() >= (
        #[trigger] r[j]).stamp() by {
            if j < before.len() {
                assert(before[i].stamp() >= before[j].stamp());
            }
        }
    }
}

/// A log with the newest entry first stays so when older entries are fetched.
pub proof fn law_fetching_keeps_order<T: Stamped>(log: Seq<T>, fetched: Seq<T>)
    requires
        is_descending(log),
        is_descending(fetched),
    ensures
        is_descending(cut(log + older(fetched, oldest_of(log), fetched.len()))),
{
    let oldest = oldest_of(log);
    let tail = older(fetched, oldest, fetched.len());
    lemma_older(fetched, oldest, fetched.len());
    let all = log + tail;
    assert forall|i: int, j: int| 0 <= i < j < all.len() implies (#[trigger] all[i]).stamp() >= (
    #[trigger] all[j]).stamp() by {
        if i < log.len() && j >= log.len() {
            assert(tail[j - log.len()].stamp() < oldest);
            if i < log.len() - 1 {
                assert(log[i].stamp() >= log[log.len() - 1].stamp());
            }
        } else if i >= log.len() {
            assert(tail[i - log.len()].stamp() >= tail[j - log.len()].stamp());
        } else {
            assert(log[i].stamp() >= log[j].stamp());
        }
    }
    let r = cut(all);
    assert forall|i: int, j: int| 0 <= i < j < r.len() implies (#[trigger] r[i]).stamp() >= (
    #[trigger] r[j]).stamp() by {
        assert(r[i] == all[i] && r[j] == all[j]);
    }
}

/// A new entry that is not older than the others keeps the newest first.
pub proof fn law_new_entry_keeps_order<T: Stamped>(log: Seq<T>, entry: T)
    requires
        is_descending(log),
        log.len() > 0 ==> entry.stamp() >= log[0].stamp(),
    ensures
        is_descending(cut(seq![entry] + log)),
{
    let all = seq![entry] + log;
    let r = cut(all);
    assert forall|i: int, j: int| 0 <= i < j < r.len() implies (#[trigger] r[i]).stamp() >= (
    #[trigger] r[j]).stamp() by {
        assert(r[i] == all[i] && r[j] == all[j]);
        if i > 0 {
            assert(log[i - 1].stamp() >= log[j - 1].stamp());
        } else if j > 1 {
            assert(log[0].stamp() >= log[j - 1].stamp());
        }
    }
}

/// The list has the newer state of a ship: what was put in, unless a newer one
/// was there, and then that one. The list stays in the order of the numbers.
pub proof fn law_list_has_newer_state(list: Seq<store::VesselView>, v: store::VesselView)
    requires
        is_sorted(list),
    ensures
        is_sorted(with_vessel(list, v)),
        forall|old: store::VesselView| #[trigger]
            knows(list, old) && old.mmsi == v.mmsi && old.last_seen_ms > v.last_seen_ms ==> knows(
                with_vessel(list, v),
                old,
            ),
        (forall|old: store::VesselView| #[trigger]
            knows(list, old) && old.mmsi == v.mmsi ==> old.last_seen_ms <= v.last_seen_ms)
            ==> knows(with_vessel(list, v), v),
        forall|x: store::VesselView| #[trigger]
            knows(with_vessel(list, v), x) ==> x == v || knows(list, x),
    decreases list.len(),
{
    let r = with_vessel(list, v);
    if list.len() == 0 {
        assert(r[0] == v);
    } else {
        let head = list.drop_last();
        let last = list.last();
        assert(list[list.len() - 1] == last);
        assert(knows(list, last));
        assert forall|x: store::VesselView| #[trigger] knows(head, x) implies knows(list, x) by {
            let i = choose|i: int| 0 <= i < head.len() && #[trigger] head[i] == x;
            assert(list[i] == x);
        }
        assert forall|x: store::VesselView| #[trigger] knows(list, x) implies knows(head, x) || x
            == last by {
            let i = choose|i: int| 0 <= i < list.len() && #[trigger] list[i] == x;
            if i < head.len() {
                assert(head[i] == x);
            }
        }
        assert forall|i: int, j: int| 0 <= i < j < head.len() implies (#[trigger] head[i]).mmsi < (
        #[trigger] head[j]).mmsi by {
            assert(list[i].mmsi < list[j].mmsi);
        }
        if last.mmsi > v.mmsi {
            let before = with_vessel(head, v);
            law_list_has_newer_state(head, v);
            assert forall|x: store::VesselView| #[trigger] knows(before, x) implies knows(r, x) by {
                let i = choose|i: int| 0 <= i < before.len() && #[trigger] before[i] == x;
                assert(r[i] == x);
            }
            assert(r[before.len() as int] == last);
            assert forall|x: store::VesselView| #[trigger] knows(r, x) implies x == v || knows(
                list,
                x,
            ) by {
                let i = choose|i: int| 0 <= i < r.len() && #[trigger] r[i] == x;
                if i < before.len() {
                    assert(before[i] == x);
                    assert(knows(before, x));
                }
            }
            assert forall|i: int, j: int| 0 <= i < j < r.len() implies (#[trigger] r[i]).mmsi < (
            #[trigger] r[j]).mmsi by {
                if j < before.len() {
                    assert(before[i].mmsi < before[j].mmsi);
                } else {
                    assert(knows(before, before[i]));
                    if before[i] != v {
                        let m = choose|m: int| 0 <= m < head.len() && #[trigger] head[m] == before[i];
                        assert(list[m].mmsi < list[list.len() - 1].mmsi);
                    }
                }
            }
        } else {
            assert(r[r.len() - 1] == v || r == list);
            assert forall|x: store::VesselView| #[trigger] knows(head, x) implies x.mmsi
                < last.mmsi by {
                let i = choose|i: int| 0 <= i < head.len() && #[trigger] head[i] == x;
                assert(list[i].mmsi < list[list.len() - 1].mmsi);
            }
            assert forall|x: store::VesselView| #[trigger] knows(r, x) implies x == v || knows(
                list,
                x,
            ) by {
                let i = choose|i: int| 0 <= i < r.len() && #[trigger] r[i] == x;
                if i < list.len() && r[i] == list[i] {
                    assert(list[i] == x);
                }
            }
            assert forall|i: int, j: int| 0 <= i < j < r.len() implies (#[trigger] r[i]).mmsi < (
            #[trigger] r[j]).mmsi by {
                assert(list[i].mmsi <= last.mmsi);
                if j < list.len() {
                    assert(list[i].mmsi < list[j].mmsi);
                }
            }
        }
    }
}

/// A log holds its first hundred entries.
pub proof fn law_log_holds_a_hundred<T>(log: Seq<T>, entry: T)
    ensures
        cut(seq![entry] + log)[0] == entry,
        cut(log).len() == if log.len() <= 100 {
            log.len()
        } else {
            100
        },
        forall|i: int| 0 <= i < cut(log).len() ==> #[trigger] cut(log)[i] == log[i],
{
}

} // verus!

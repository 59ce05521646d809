//! What all workers of an engine hand out, from its start to its end.
use vstd::prelude::*;
use crate::aggregation::{
    all_aligned, all_placed, claims, frame_of, grace_length, holds_readings, id_after, is_ready,
    lemma_time_lies_in_one_window, lemma_with_reading_placed, lists_of, not_ready, window_start,
    with_pulled, with_reading, AggregationEngine, ClaimedWindow, SensorOutcome, WindowReadings,
};
use crate::models::{FrameView, SensorStats};
use crate::sensor_buffer::{after_steps, lemma_first_in_first_out, pushed_in, SensorReading};

verus! {

/// A part of a worker's round: a reading that was pulled was stored; the windows that were old
/// enough at a time were handed out; or the end was asked for, the buffer was empty, and all
/// windows were handed out.
pub enum Round {
    Store(SensorReading),
    Claim(u64),
    Finish,
}

/// The reading that a round pulled.
pub open spec fn pulled_in(round: Round) -> Option<SensorReading> {
    match round {
        Round::Store(reading) => Some(reading),
        _ => None,
    }
}

/// The windows that a round hands out.
pub open spec fn picked_in(round: Round, window_ms: int) -> spec_fn(u64) -> bool {
    match round {
        Round::Store(_) => |s: u64| false,
        Round::Claim(now_ms) => |s: u64| is_ready(s, now_ms, window_ms),
        Round::Finish => |s: u64| true,
    }
}

/// What a round leaves of the windows.
pub open spec fn left_in(
    windows: Map<u64, WindowReadings>,
    round: Round,
    window_ms: int,
) -> Map<u64, WindowReadings> {
    match round {
        Round::Store(_) => windows,
        Round::Claim(now_ms) => not_ready(windows, now_ms, window_ms),
        Round::Finish => Map::empty(),
    }
}

/// What is pending after rounds from a new engine on.
pub open spec fn pending_after(rounds: Seq<Round>, window_ms: int) -> Map<u64, WindowReadings>
    decreases rounds.len(), 1int,
{
    if rounds.len() == 0 {
        Map::empty()
    } else {
        left_in(stored_in(rounds, window_ms), rounds.last(), window_ms)
    }
}

/// What is pending in the last round, once the reading that it pulled is stored.
pub open spec fn stored_in(rounds: Seq<Round>, window_ms: int) -> Map<u64, WindowReadings>
    decreases rounds.len(), 0int,
{
    if rounds.len() == 0 {
        Map::empty()
    } else {
        with_pulled(
            pending_after(rounds.drop_last(), window_ms),
            pulled_in(rounds.last()),
            window_ms,
        )
    }
}

/// The windows that were handed out in all rounds, in order.
pub open spec fn flat(outs: Seq<Seq<ClaimedWindow>>) -> Seq<ClaimedWindow>
    decreases outs.len(),
{
    if outs.len() == 0 {
        Seq::empty()
    } else {
        flat(outs.drop_last()) + outs.last()
    }
}

/// Whether `outs` are the windows that were handed out, round by round, from a new engine on.
pub open spec fn handed_by(
    outs: Seq<Seq<ClaimedWindow>>,
    rounds: Seq<Round>,
    window_ms: int,
) -> bool
    decreases rounds.len(),
{
    &&& outs.len() == rounds.len()
    &&& rounds.len() > 0 ==> {
        &&& handed_by(outs.drop_last(), rounds.drop_last(), window_ms)
        &&& claims(
            outs.last(),
            stored_in(rounds, window_ms),
            picked_in(rounds.last(), window_ms),
            id_after(0, flat(outs.drop_last()).len() as int),
            window_ms,
        )
    }
}

/// Whether an engine's pending windows and next identifier are those after `rounds`, in which
/// `outs` were handed out.
pub open spec fn is_run(
    rounds: Seq<Round>,
    outs: Seq<Seq<ClaimedWindow>>,
    pending: Map<u64, WindowReadings>,
    next_id: u64,
    window_ms: int,
) -> bool {
    &&& handed_by(outs, rounds, window_ms)
    &&& pending == pending_after(rounds, window_ms)
    &&& next_id == id_after(0, flat(outs).len() as int)
}

/// A new engine has done no round.
pub proof fn lemma_new_engine_has_no_round(window_ms: int)
    ensures
        is_run(Seq::empty(), Seq::empty(), Map::empty(), 0, window_ms),
{
}

/// A round of an engine is one more round of its run.
pub proof fn lemma_round_extends_run(
    rounds: Seq<Round>,
    outs: Seq<Seq<ClaimedWindow>>,
    pending: Map<u64, WindowReadings>,
    next_id: u64,
    window_ms: int,
    round: Round,
    claimed: Seq<ClaimedWindow>,
)
    requires
        is_run(rounds, outs, pending, next_id, window_ms),
        claims(
            claimed,
            with_pulled(pending, pulled_in(round), window_ms),
            picked_in(round, window_ms),
            next_id,
            window_ms,
        ),
    ensures
        is_run(
            rounds.push(round),
            outs.push(claimed),
            left_in(with_pulled(pending, pulled_in(round), window_ms), round, window_ms),
            id_after(next_id, claimed.len() as int),
            window_ms,
        ),
{
    let more = outs.push(claimed);
    assert(rounds.push(round).drop_last() =~= rounds);
    assert(more.drop_last() =~= outs);
    assert(flat(more).len() == flat(outs).len() + claimed.len());
    assert(id_after(next_id, claimed.len() as int) == id_after(0, flat(more).len() as int));
}

/// Whether a window starts at a multiple of the window length, ends a window length later, and
/// has readings of its own time only, each under its sensor.
pub open spec fn is_in_place(c: ClaimedWindow, window_ms: int) -> bool {
    &&& c.window_start as int % window_ms == 0
    &&& c.window_end == c.window_start + window_ms
    &&& holds_readings(lists_of(c.readings@))
    &&& forall|id: Seq<char>, i: int|
        #![trigger lists_of(c.readings@)[id][i]]
        lists_of(c.readings@).contains_key(id) && 0 <= i < lists_of(c.readings@)[id].len() ==> {
            &&& lists_of(c.readings@)[id][i].id() == id
            &&& c.window_start <= lists_of(c.readings@)[id][i].ts() < c.window_end
        }
}

/// Readings stay in their windows, and windows at their places, over all rounds.
proof fn lemma_pending_in_place(rounds: Seq<Round>, window_ms: int)
    requires
        0 < window_ms,
    ensures
        all_placed(pending_after(rounds, window_ms), window_ms),
        all_aligned(pending_after(rounds, window_ms), window_ms),
        rounds.len() > 0 ==> all_placed(stored_in(rounds, window_ms), window_ms),
        rounds.len() > 0 ==> all_aligned(stored_in(rounds, window_ms), window_ms),
    decreases rounds.len(),
{
    if rounds.len() > 0 {
        let before = pending_after(rounds.drop_last(), window_ms);
        let stored = stored_in(rounds, window_ms);
        let after = pending_after(rounds, window_ms);
        lemma_pending_in_place(rounds.drop_last(), window_ms);
        if let Some(reading) = pulled_in(rounds.last()) {
            lemma_time_lies_in_one_window(reading.ts() as int, window_ms, 0);
            lemma_with_reading_placed(
                before,
                window_start(reading.ts() as int, window_ms) as u64,
                reading,
                window_ms,
            );
        }
        assert forall|s: u64, id: Seq<char>, i: int|
            #![trigger after[s][id][i]]
            after.contains_key(s) && after[s].contains_key(id) && 0 <= i
                < after[s][id].len() implies after[s][id][i].id() == id && window_start(
            after[s][id][i].ts() as int,
            window_ms,
        ) == s by {
            assert(stored.contains_key(s) && after[s] == stored[s]);
            assert(stored[s][id][i].id() == id);
        }
        assert forall|s: u64| #[trigger] after.contains_key(s) implies s as int % window_ms == 0
            && holds_readings(after[s]) by {
            assert(stored.contains_key(s) && after[s] == stored[s]);
        }
    }
}

/// Claimed windows are at their places, and ready, unless the end was asked for.
proof fn lemma_claims_in_place(
    claimed: Seq<ClaimedWindow>,
    stored: Map<u64, WindowReadings>,
    round: Round,
    first: u64,
    window_ms: int,
)
    requires
        0 < window_ms,
        all_placed(stored, window_ms),
        claims(claimed, stored, picked_in(round, window_ms), first, window_ms),
    ensures
        forall|k: int|
            0 <= k < claimed.len() ==> is_in_place(#[trigger] claimed[k], window_ms) && (
            round matches Round::Claim(now_ms) ==> now_ms >= claimed[k].window_end + grace_length(
                window_ms,
            )),
{
    assert forall|k: int| 0 <= k < claimed.len() implies is_in_place(
        #[trigger] claimed[k],
        window_ms,
    ) && (round matches Round::Claim(now_ms) ==> now_ms >= claimed[k].window_end + grace_length(
        window_ms,
    )) by {
        let c = claimed[k];
        let lists = lists_of(c.readings@);
        assert forall|id: Seq<char>, i: int|
            #![trigger lists[id][i]]
            lists.contains_key(id) && 0 <= i < lists[id].len() implies lists[id][i].id() == id
            && c.window_start <= lists[id][i].ts() < c.window_end by {
            assert(stored[c.window_start][id][i].id() == id);
            lemma_time_lies_in_one_window(lists[id][i].ts() as int, window_ms, 0);
        }
        assert(picked_in(round, window_ms)(c.window_start));
    }
}

/// Whatever the workers pull, and whenever: every window that is handed out starts at a multiple
/// of the window length, ends a window length later, and has readings, all of its own time; and
/// before the end it is handed out only once its end is a grace period ago. The identifiers are
/// given out from 0 upward, so no two frames share one (as long as the 64-bit counter does not
/// come round).
pub proof fn lemma_windows_of_a_run(
    outs: Seq<Seq<ClaimedWindow>>,
    rounds: Seq<Round>,
    window_ms: int,
)
    requires
        0 < window_ms,
        handed_by(outs, rounds, window_ms),
    ensures
        forall|r: int, k: int|
            #![trigger outs[r][k]]
            0 <= r < outs.len() && 0 <= k < outs[r].len() ==> is_in_place(outs[r][k], window_ms)
                && (rounds[r] matches Round::Claim(now_ms) ==> now_ms >= outs[r][k].window_end
                + grace_length(window_ms)),
        forall|j: int|
            0 <= j < flat(outs).len() ==> is_in_place(#[trigger] flat(outs)[j], window_ms),
        forall|j: int|
            0 <= j < flat(outs).len() ==> (#[trigger] flat(outs)[j]).frame_id == id_after(0, j),
        flat(outs).len() <= 0x1_0000_0000_0000_0000 ==> forall|i: int, j: int|
            0 <= i < j < flat(outs).len() ==> (#[trigger] flat(outs)[i]).frame_id < (
            #[trigger] flat(outs)[j]).frame_id,
    decreases rounds.len(),
{
    if rounds.len() > 0 {
        let init = outs.drop_last();
        let n = flat(init).len() as int;
        lemma_windows_of_a_run(init, rounds.drop_last(), window_ms);
        lemma_pending_in_place(rounds, window_ms);
        lemma_claims_in_place(
            outs.last(),
            stored_in(rounds, window_ms),
            rounds.last(),
            id_after(0, n),
            window_ms,
        );
        assert forall|r: int, k: int|
            #![trigger outs[r][k]]
            0 <= r < outs.len() && 0 <= k < outs[r].len() implies is_in_place(
            outs[r][k],
            window_ms,
        ) && (rounds[r] matches Round::Claim(now_ms) ==> now_ms >= outs[r][k].window_end
            + grace_length(window_ms)) by {
            if r < init.len() {
                assert(init[r][k] == outs[r][k]);
                assert(rounds.drop_last()[r] == rounds[r]);
            }
        }
        assert forall|j: int| 0 <= j < flat(outs).len() implies is_in_place(
            #[trigger] flat(outs)[j],
            window_ms,
        ) && flat(outs)[j].frame_id == id_after(0, j) by {
            if j < n {
                assert(flat(outs)[j] == flat(init)[j]);
            } else {
                assert(flat(outs)[j] == outs.last()[j - n]);
            }
        }
    }
}

/// The readings of one sensor in one window.
pub open spec fn list_at(
    windows: Map<u64, WindowReadings>,
    start: u64,
    id: Seq<char>,
) -> Seq<SensorReading> {
    if windows.contains_key(start) && windows[start].contains_key(id) {
        windows[start][id]
    } else {
        Seq::empty()
    }
}

/// The readings of one sensor and window in a list of windows that were handed out.
pub open spec fn delivered(
    claimed: Seq<ClaimedWindow>,
    start: u64,
    id: Seq<char>,
) -> Seq<SensorReading>
    decreases claimed.len(),
{
    if claimed.len() == 0 {
        Seq::empty()
    } else {
        let c = claimed.last();
        let before = delivered(claimed.drop_last(), start, id);
        if c.window_start == start && lists_of(c.readings@).contains_key(id) {
            before + lists_of(c.readings@)[id]
        } else {
            before
        }
    }
}

/// The readings that were pulled, in the order in which they were stored.
pub open spec fn pulled(rounds: Seq<Round>) -> Seq<SensorReading>
    decreases rounds.len(),
{
    if rounds.len() == 0 {
        Seq::empty()
    } else {
        match pulled_in(rounds.last()) {
            Some(reading) => pulled(rounds.drop_last()).push(reading),
            None => pulled(rounds.drop_last()),
        }
    }
}

/// The readings of one sensor and window in a list of readings, in order.
pub open spec fn of_window(
    readings: Seq<SensorReading>,
    start: u64,
    id: Seq<char>,
    window_ms: int,
) -> Seq<SensorReading>
    decreases readings.len(),
{
    if readings.len() == 0 {
        Seq::empty()
    } else {
        let before = of_window(readings.drop_last(), start, id, window_ms);
        let reading = readings.last();
        if window_start(reading.ts() as int, window_ms) == start && reading.id() == id {
            before.push(reading)
        } else {
            before
        }
    }
}

/// What was delivered in two lists, one after the other.
proof fn lemma_delivered_in_parts(
    a: Seq<ClaimedWindow>,
    b: Seq<ClaimedWindow>,
    start: u64,
    id: Seq<char>,
)
    ensures
        delivered(a + b, start, id) == delivered(a, start, id) + delivered(b, start, id),
    decreases b.len(),
{
    let first = delivered(a, start, id);
    if b.len() == 0 {
        assert(a + b =~= a);
        assert(first + Seq::<SensorReading>::empty() =~= first);
    } else {
        lemma_delivered_in_parts(a, b.drop_last(), start, id);
        assert((a + b).drop_last() =~= a + b.drop_last());
        let c = b.last();
        let part = delivered(b.drop_last(), start, id);
        let list = lists_of(c.readings@)[id];
        assert((first + part) + list =~= first + (part + list));
    }
}

/// Of windows in strictly ascending order, only that with the start delivers readings.
proof fn lemma_delivered_by_one(claimed: Seq<ClaimedWindow>, start: u64, id: Seq<char>, k: int)
    requires
        forall|a: int, b: int|
            0 <= a < b < claimed.len() ==> (#[trigger] claimed[a]).window_start < (
            #[trigger] claimed[b]).window_start,
        -1 <= k < claimed.len(),
        k >= 0 ==> claimed[k].window_start == start,
        k < 0 ==> forall|j: int|
            0 <= j < claimed.len() ==> (#[trigger] claimed[j]).window_start != start,
    ensures
        delivered(claimed, start, id) == if k >= 0 && lists_of(
            claimed[k].readings@,
        ).contains_key(id) {
            lists_of(claimed[k].readings@)[id]
        } else {
            Seq::empty()
        },
    decreases claimed.len(),
{
    if claimed.len() > 0 {
        let init = claimed.drop_last();
        let last = claimed.len() - 1;
        if k == last {
            assert forall|j: int| 0 <= j < init.len() implies (#[trigger] init[j]).window_start
                != start by {
                assert(init[j] == claimed[j]);
            }
            lemma_delivered_by_one(init, start, id, -1);
            let list = lists_of(claimed[k].readings@)[id];
            assert(Seq::<SensorReading>::empty() + list =~= list);
        } else {
            if k >= 0 {
                assert(claimed[k].window_start < claimed[last].window_start);
            } else {
                assert(claimed[last].window_start != start);
            }
            lemma_delivered_by_one(init, start, id, k);
        }
    }
}

/// A round delivers what it picks and leaves the rest.
proof fn lemma_round_delivers(
    claimed: Seq<ClaimedWindow>,
    stored: Map<u64, WindowReadings>,
    round: Round,
    first: u64,
    window_ms: int,
    start: u64,
    id: Seq<char>,
)
    requires
        claims(claimed, stored, picked_in(round, window_ms), first, window_ms),
    ensures
        delivered(claimed, start, id) + list_at(left_in(stored, round, window_ms), start, id)
            == list_at(stored, start, id),
{
    let pick = picked_in(round, window_ms);
    let left = left_in(stored, round, window_ms);
    if stored.contains_key(start) && pick(start) {
        let k = choose|k: int|
            0 <= k < claimed.len() && (#[trigger] claimed[k]).window_start == start;
        lemma_delivered_by_one(claimed, start, id, k);
        assert(!left.contains_key(start));
    } else {
        assert forall|j: int| 0 <= j < claimed.len() implies (#[trigger] claimed[j]).window_start
            != start by {}
        lemma_delivered_by_one(claimed, start, id, -1);
        assert(stored.contains_key(start) ==> left.contains_key(start) && left[start]
            == stored[start]);
    }
    assert(delivered(claimed, start, id) + list_at(left, start, id) =~= list_at(stored, start, id));
}

/// No reading is lost, doubled or put out of order: for each sensor and window, what was handed
/// out over all rounds, followed by what is still pending, is what was pulled. That holds for
/// readings that come late, too: they are handed out in a later round. Once the last round is one
/// that ends a worker, nothing is pending, and what was handed out is what was pulled.
pub proof fn lemma_every_reading_is_handed_out_once(
    outs: Seq<Seq<ClaimedWindow>>,
    rounds: Seq<Round>,
    window_ms: int,
    start: u64,
    id: Seq<char>,
)
    requires
        0 < window_ms,
        handed_by(outs, rounds, window_ms),
    ensures
        delivered(flat(outs), start, id) + list_at(pending_after(rounds, window_ms), start, id)
            == of_window(pulled(rounds), start, id, window_ms),
        rounds.len() > 0 && rounds.last() is Finish ==> delivered(flat(outs), start, id)
            == of_window(pulled(rounds), start, id, window_ms),
    decreases rounds.len(),
{
    if rounds.len() > 0 {
        let init = outs.drop_last();
        let before = pending_after(rounds.drop_last(), window_ms);
        let stored = stored_in(rounds, window_ms);
        let left = pending_after(rounds, window_ms);
        let out = delivered(flat(init), start, id);
        lemma_every_reading_is_handed_out_once(init, rounds.drop_last(), window_ms, start, id);
        if let Some(reading) = pulled_in(rounds.last()) {
            lemma_time_lies_in_one_window(reading.ts() as int, window_ms, 0);
            assert(pulled(rounds).drop_last() =~= pulled(rounds.drop_last()));
            if window_start(reading.ts() as int, window_ms) == start && reading.id() == id {
                assert(list_at(stored, start, id) =~= list_at(before, start, id).push(reading));
                assert(out + list_at(stored, start, id) =~= (out + list_at(
                    before,
                    start,
                    id,
                )).push(reading));
            } else {
                assert(list_at(stored, start, id) =~= list_at(before, start, id));
            }
        }
        lemma_round_delivers(
            outs.last(),
            stored,
            rounds.last(),
            id_after(0, flat(init).len() as int),
            window_ms,
            start,
            id,
        );
        lemma_delivered_in_parts(flat(init), outs.last(), start, id);
        let now = delivered(outs.last(), start, id);
        assert((out + now) + list_at(left, start, id) =~= out + (now + list_at(left, start, id)));
        assert(delivered(flat(outs), start, id) + Seq::<SensorReading>::empty() =~= delivered(
            flat(outs),
            start,
            id,
        ));
    } else {
        assert(Seq::<SensorReading>::empty() + Seq::<SensorReading>::empty() =~= Seq::empty());
    }
}

/// The sum of all values of a finite map.
pub open spec fn total_of<K>(m: Map<K, nat>) -> nat
    decreases m.dom().len(),
{
    if m.dom().finite() && m.dom().len() > 0 {
        let k = m.dom().choose();
        m[k] + total_of(m.remove(k))
    } else {
        0
    }
}

/// One entry more or less in a sum.
proof fn lemma_total_without<K>(m: Map<K, nat>, k: K)
    requires
        m.dom().finite(),
        m.contains_key(k),
    ensures
        total_of(m) == m[k] + total_of(m.remove(k)),
    decreases m.dom().len(),
{
    let c = m.dom().choose();
    assert(m.dom().len() > 0) by {
        assert(m.dom().remove(k).len() + 1 == m.dom().len());
    }
    assert(m.dom().contains(c));
    if c != k {
        assert(m.remove(c).dom() =~= m.dom().remove(c));
        assert(m.remove(k).dom() =~= m.dom().remove(k));
        lemma_total_without(m.remove(c), k);
        lemma_total_without(m.remove(k), c);
        assert(m.remove(c).remove(k) =~= m.remove(k).remove(c));
    }
}

/// The sum of the values at a list of keys.
spec fn total_at<K>(m: Map<K, nat>, keys: Seq<K>) -> nat
    decreases keys.len(),
{
    if keys.len() == 0 {
        0
    } else {
        total_at(m, keys.drop_last()) + m[keys.last()]
    }
}

proof fn lemma_total_at_same<K>(m: Map<K, nat>, n: Map<K, nat>, keys: Seq<K>)
    requires
        forall|i: int| 0 <= i < keys.len() ==> m[#[trigger] keys[i]] == n[keys[i]],
    ensures
        total_at(m, keys) == total_at(n, keys),
    decreases keys.len(),
{
    if keys.len() > 0 {
        let init = keys.drop_last();
        assert forall|i: int| 0 <= i < init.len() implies m[#[trigger] init[i]] == n[init[i]] by {
            assert(init[i] == keys[i]);
        }
        lemma_total_at_same(m, n, init);
        assert(keys[keys.len() - 1] == keys.last());
    }
}

/// A sum is that at some keys and that of the other entries.
proof fn lemma_total_in_parts<K>(m: Map<K, nat>, keys: Seq<K>, rest: Map<K, nat>)
    requires
        m.dom().finite(),
        keys.no_duplicates(),
        forall|i: int| 0 <= i < keys.len() ==> m.contains_key(#[trigger] keys[i]),
        forall|k: K| #[trigger]
            rest.contains_key(k) <==> m.contains_key(k) && !keys.contains(k),
        forall|k: K| #[trigger] rest.contains_key(k) ==> rest[k] == m[k],
    ensures
        total_of(m) == total_at(m, keys) + total_of(rest),
    decreases keys.len(),
{
    if keys.len() == 0 {
        assert(rest =~= m);
    } else {
        let k = keys.last();
        let init = keys.drop_last();
        let less = m.remove(k);
        assert(keys[keys.len() - 1] == k);
        assert(m.contains_key(k));
        lemma_total_without(m, k);
        assert(less.dom() =~= m.dom().remove(k));
        assert forall|i: int| 0 <= i < init.len() implies less.contains_key(#[trigger] init[i])
            && less[init[i]] == m[init[i]] by {
            assert(init[i] == keys[i]);
            assert(m.contains_key(keys[i]));
            assert(keys[i] != keys[keys.len() - 1]);
        }
        assert forall|x: K| #[trigger] rest.contains_key(x) <==> less.contains_key(x)
            && !init.contains(x) by {
            if keys.contains(x) && x != k {
                let i = choose|i: int| 0 <= i < keys.len() && keys[i] == x;
                assert(init[i] == x);
            }
            if init.contains(x) {
                let i = choose|i: int| 0 <= i < init.len() && init[i] == x;
                assert(keys[i] == x);
            }
            assert(keys.contains(k));
        }
        lemma_total_in_parts(less, init, rest);
        lemma_total_at_same(m, less, init);
    }
}

/// How many readings a window has.
pub open spec fn readings_in(lists: WindowReadings) -> nat {
    total_of(lists.map_values(|l: Seq<SensorReading>| l.len()))
}

/// How many readings windows have.
pub open spec fn windows_total(windows: Map<u64, WindowReadings>) -> nat {
    total_of(windows.map_values(|lists: WindowReadings| readings_in(lists)))
}

/// How many readings a list of windows that were handed out has.
pub open spec fn claimed_total(claimed: Seq<ClaimedWindow>) -> nat
    decreases claimed.len(),
{
    if claimed.len() == 0 {
        0
    } else {
        claimed_total(claimed.drop_last()) + readings_in(lists_of(claimed.last().readings@))
    }
}

/// Whether windows and the lists of each are finitely many.
spec fn all_finite(windows: Map<u64, WindowReadings>) -> bool {
    &&& windows.dom().finite()
    &&& forall|s: u64| #[trigger] windows.contains_key(s) ==> windows[s].dom().finite()
}

/// A reading that is put into a window counts once.
proof fn lemma_reading_counts_once(
    windows: Map<u64, WindowReadings>,
    start: u64,
    reading: SensorReading,
)
    requires
        all_finite(windows),
    ensures
        all_finite(with_reading(windows, start, reading)),
        windows_total(with_reading(windows, start, reading)) == windows_total(windows) + 1,
{
    let len = |l: Seq<SensorReading>| l.len();
    let count = |lists: WindowReadings| readings_in(lists);
    let after = with_reading(windows, start, reading);
    let id = reading.id();
    let lists = if windows.contains_key(start) {
        windows[start]
    } else {
        Map::empty()
    };
    let more = after[start];
    let m = lists.map_values(len);
    let n = more.map_values(len);
    assert(m.dom() =~= lists.dom());
    assert(more.dom() =~= lists.dom().insert(id));
    assert(n.dom() =~= more.dom());
    lemma_total_without(n, id);
    assert(n.remove(id) =~= m.remove(id));
    if lists.contains_key(id) {
        lemma_total_without(m, id);
    } else {
        assert(m.remove(id) =~= m);
    }
    assert(readings_in(more) == readings_in(lists) + 1);
    let a = windows.map_values(count);
    let b = after.map_values(count);
    assert(a.dom() =~= windows.dom());
    assert(after.dom() =~= windows.dom().insert(start));
    assert(b.dom() =~= after.dom());
    lemma_total_without(b, start);
    assert(b.remove(start) =~= a.remove(start));
    if windows.contains_key(start) {
        lemma_total_without(a, start);
    } else {
        assert(a.remove(start) =~= a);
        assert(m =~= Map::empty());
    }
    assert forall|s: u64| #[trigger] after.contains_key(s) implies after[s].dom().finite() by {
        if s != start {
            assert(windows.contains_key(s));
        }
    }
}

/// The starts of windows that were handed out.
spec fn claimed_starts(claimed: Seq<ClaimedWindow>) -> Seq<u64> {
    claimed.map_values(|c: ClaimedWindow| c.window_start)
}

proof fn lemma_claimed_total_at(claimed: Seq<ClaimedWindow>, windows: Map<u64, WindowReadings>)
    requires
        forall|k: int|
            0 <= k < claimed.len() ==> windows.contains_key((#[trigger] claimed[k]).window_start)
                && lists_of(claimed[k].readings@) == windows[claimed[k].window_start],
    ensures
        claimed_total(claimed) == total_at(
            windows.map_values(|lists: WindowReadings| readings_in(lists)),
            claimed_starts(claimed),
        ),
    decreases claimed.len(),
{
    if claimed.len() > 0 {
        let init = claimed.drop_last();
        assert forall|k: int| 0 <= k < init.len() implies windows.contains_key(
            (#[trigger] init[k]).window_start,
        ) && lists_of(init[k].readings@) == windows[init[k].window_start] by {
            assert(init[k] == claimed[k]);
        }
        lemma_claimed_total_at(init, windows);
        assert(claimed_starts(claimed).drop_last() =~= claimed_starts(init));
        assert(claimed[claimed.len() - 1] == claimed.last());
    }
}

/// A round hands out, or leaves, each reading once.
proof fn lemma_round_counts(
    claimed: Seq<ClaimedWindow>,
    stored: Map<u64, WindowReadings>,
    round: Round,
    first: u64,
    window_ms: int,
)
    requires
        all_finite(stored),
        claims(claimed, stored, picked_in(round, window_ms), first, window_ms),
    ensures
        all_finite(left_in(stored, round, window_ms)),
        claimed_total(claimed) + windows_total(left_in(stored, round, window_ms))
            == windows_total(stored),
{
    let pick = picked_in(round, window_ms);
    let left = left_in(stored, round, window_ms);
    let count = |lists: WindowReadings| readings_in(lists);
    let starts = claimed_starts(claimed);
    let a = stored.map_values(count);
    let b = left.map_values(count);
    assert(left.dom().subset_of(stored.dom()));
    vstd::set_lib::lemma_set_subset_finite(stored.dom(), left.dom());
    assert forall|s: u64| #[trigger] left.contains_key(s) implies left[s].dom().finite() by {
        assert(stored.contains_key(s) && left[s] == stored[s]);
    }
    assert(a.dom() =~= stored.dom());
    assert forall|i: int, j: int|
        0 <= i < starts.len() && 0 <= j < starts.len() && i != j implies starts[i] != starts[j] by {
        if i < j {
            assert(claimed[i].window_start < claimed[j].window_start);
        } else {
            assert(claimed[j].window_start < claimed[i].window_start);
        }
    }
    assert forall|i: int| 0 <= i < starts.len() implies a.contains_key(#[trigger] starts[i]) by {
        assert(claimed[i].window_start == starts[i]);
    }
    assert forall|s: u64| #[trigger] b.contains_key(s) <==> a.contains_key(s) && !starts.contains(
        s,
    ) by {
        if starts.contains(s) {
            let i = choose|i: int| 0 <= i < starts.len() && starts[i] == s;
            assert(claimed[i].window_start == s);
            assert(pick(s));
        }
        if stored.contains_key(s) && pick(s) {
            let k = choose|k: int|
                0 <= k < claimed.len() && (#[trigger] claimed[k]).window_start == s;
            assert(starts[k] == s);
        }
    }
    assert forall|s: u64| #[trigger] b.contains_key(s) implies b[s] == a[s] by {
        assert(left[s] == stored[s]);
    }
    lemma_total_in_parts(a, starts, b);
    lemma_claimed_total_at(claimed, stored);
}

/// The readings in two lists of windows, one after the other.
proof fn lemma_claimed_total_in_parts(a: Seq<ClaimedWindow>, b: Seq<ClaimedWindow>)
    ensures
        claimed_total(a + b) == claimed_total(a) + claimed_total(b),
    decreases b.len(),
{
    if b.len() == 0 {
        assert(a + b =~= a);
    } else {
        lemma_claimed_total_in_parts(a, b.drop_last());
        assert((a + b).drop_last() =~= a + b.drop_last());
    }
}

proof fn lemma_run_counts(outs: Seq<Seq<ClaimedWindow>>, rounds: Seq<Round>, window_ms: int)
    requires
        handed_by(outs, rounds, window_ms),
    ensures
        all_finite(pending_after(rounds, window_ms)),
        claimed_total(flat(outs)) + windows_total(pending_after(rounds, window_ms)) == pulled(
            rounds,
        ).len(),
    decreases rounds.len(),
{
    if rounds.len() > 0 {
        let init = outs.drop_last();
        let before = pending_after(rounds.drop_last(), window_ms);
        lemma_run_counts(init, rounds.drop_last(), window_ms);
        if let Some(reading) = pulled_in(rounds.last()) {
            lemma_reading_counts_once(
                before,
                window_start(reading.ts() as int, window_ms) as u64,
                reading,
            );
        }
        lemma_round_counts(
            outs.last(),
            stored_in(rounds, window_ms),
            rounds.last(),
            id_after(0, flat(init).len() as int),
            window_ms,
        );
        lemma_claimed_total_in_parts(flat(init), outs.last());
    } else {
        lemma_no_windows();
    }
}

proof fn lemma_no_windows()
    ensures
        windows_total(Map::empty()) == 0,
        all_finite(Map::empty()),
{
    let none = Map::<u64, WindowReadings>::empty().map_values(
        |lists: WindowReadings| readings_in(lists),
    );
    assert(none.dom() =~= Set::empty());
}

/// The counts of a frame, over all its sensors.
pub open spec fn frame_total(f: FrameView) -> nat {
    total_of(f.sensor_stats.map_values(|s: SensorStats| s.count as nat))
}

/// The counts of frames, over all their sensors.
pub open spec fn frames_total(frames: Seq<FrameView>) -> nat
    decreases frames.len(),
{
    if frames.len() == 0 {
        0
    } else {
        frames_total(frames.drop_last()) + frame_total(frames.last())
    }
}

/// Whether `frames` are the frames of windows that were handed out, whatever their values come to.
pub open spec fn frames_of(
    frames: Seq<FrameView>,
    claimed: Seq<ClaimedWindow>,
    outcomes: Seq<Seq<SensorOutcome>>,
) -> bool {
    &&& frames.len() == claimed.len()
    &&& forall|j: int|
        0 <= j < frames.len() ==> #[trigger] frames[j] == frame_of(claimed[j], outcomes[j])
}

/// Whether `f` can be the frame number `j` of a run, made from window `c`: it starts at a multiple of
/// the window length, ends a window length later, and has the sensors of the window, each with the
/// number of its readings, all of which are of the frame's time.
pub open spec fn frame_fits(f: FrameView, c: ClaimedWindow, j: int, window_ms: int) -> bool {
    let lists = lists_of(c.readings@);
    &&& f.window_start as int % window_ms == 0
    &&& f.window_end == f.window_start + window_ms
    &&& f.frame_id == id_after(0, j)
    &&& f.sensor_stats.dom() == lists.dom()
    &&& forall|id: Seq<char>| #[trigger]
        lists.contains_key(id) ==> f.sensor_stats[id].count == lists[id].len()
    &&& forall|id: Seq<char>, i: int|
        #![trigger lists[id][i]]
        lists.contains_key(id) && 0 <= i < lists[id].len() ==> lists[id][i].id() == id
            && f.window_start <= lists[id][i].ts() < f.window_end
}

/// The same of the frames, which are numbered from 0 upward, no two alike (as long as the 64-bit
/// counter does not come round).
pub proof fn lemma_frames_of_a_run(
    outs: Seq<Seq<ClaimedWindow>>,
    rounds: Seq<Round>,
    window_ms: int,
    frames: Seq<FrameView>,
    outcomes: Seq<Seq<SensorOutcome>>,
)
    requires
        0 < window_ms,
        handed_by(outs, rounds, window_ms),
        frames_of(frames, flat(outs), outcomes),
    ensures
        forall|j: int|
            0 <= j < frames.len() ==> frame_fits(#[trigger] frames[j], flat(outs)[j], j, window_ms),
        frames.len() <= 0x1_0000_0000_0000_0000 ==> forall|i: int, j: int|
            0 <= i < j < frames.len() ==> (#[trigger] frames[i]).frame_id < (
            #[trigger] frames[j]).frame_id,
{
    lemma_windows_of_a_run(outs, rounds, window_ms);
    let claimed = flat(outs);
    assert forall|j: int| 0 <= j < frames.len() implies frame_fits(
        #[trigger] frames[j],
        claimed[j],
        j,
        window_ms,
    ) by {
        let c = claimed[j];
        assert(frames[j] == frame_of(c, outcomes[j]));
        assert(is_in_place(c, window_ms));
        lemma_frame_counts_each_sensor(c, outcomes[j]);
    }
    assert forall|i: int, j: int|
        frames.len() <= 0x1_0000_0000_0000_0000 && 0 <= i < j < frames.len() implies (
    #[trigger] frames[i]).frame_id < (#[trigger] frames[j]).frame_id by {
        assert(frames[i] == frame_of(claimed[i], outcomes[i]));
        assert(frames[j] == frame_of(claimed[j], outcomes[j]));
    }
}

/// The time of a round that hands out windows that are old enough.
pub open spec fn time_of(round: Round) -> Option<u64> {
    match round {
        Round::Claim(now_ms) => Some(now_ms),
        _ => None,
    }
}

/// For each window that was handed out, the time of its round; none for a round that ended a
/// worker.
pub open spec fn handed_at(outs: Seq<Seq<ClaimedWindow>>, rounds: Seq<Round>) -> Seq<Option<u64>>
    decreases outs.len(),
{
    if outs.len() == 0 {
        Seq::empty()
    } else {
        handed_at(outs.drop_last(), rounds.drop_last()) + Seq::new(
            outs.last().len(),
            |k: int| time_of(rounds.last()),
        )
    }
}

/// Windows are handed out a grace period after their ends, unless a worker ended.
proof fn lemma_handed_out_in_time(
    outs: Seq<Seq<ClaimedWindow>>,
    rounds: Seq<Round>,
    window_ms: int,
)
    requires
        0 < window_ms,
        handed_by(outs, rounds, window_ms),
    ensures
        handed_at(outs, rounds).len() == flat(outs).len(),
        forall|j: int|
            0 <= j < flat(outs).len() ==> (#[trigger] handed_at(outs, rounds)[j] matches Some(
                now_ms,
            ) ==> now_ms >= flat(outs)[j].window_end + grace_length(window_ms)),
        (forall|r: int| 0 <= r < rounds.len() ==> !((#[trigger] rounds[r]) is Finish))
            ==> forall|j: int|
            0 <= j < flat(outs).len() ==> (#[trigger] handed_at(outs, rounds)[j]) is Some,
    decreases rounds.len(),
{
    if rounds.len() > 0 {
        let init = outs.drop_last();
        let earlier = rounds.drop_last();
        let n = flat(init).len() as int;
        let last = rounds.last();
        lemma_handed_out_in_time(init, earlier, window_ms);
        lemma_pending_in_place(rounds, window_ms);
        lemma_claims_in_place(
            outs.last(),
            stored_in(rounds, window_ms),
            last,
            id_after(0, n),
            window_ms,
        );
        assert forall|j: int| 0 <= j < flat(outs).len() implies (#[trigger] handed_at(
            outs,
            rounds,
        )[j] matches Some(now_ms) ==> now_ms >= flat(outs)[j].window_end + grace_length(
            window_ms,
        )) by {
            if j < n {
                assert(handed_at(outs, rounds)[j] == handed_at(init, earlier)[j]);
            } else {
                assert(flat(outs)[j] == outs.last()[j - n]);
            }
        }
        if forall|r: int| 0 <= r < rounds.len() ==> !((#[trigger] rounds[r]) is Finish) {
            assert forall|r: int| 0 <= r < earlier.len() implies !((#[trigger] earlier[r]) is Finish)
                by {
                assert(earlier[r] == rounds[r]);
            }
            assert(!(rounds[rounds.len() - 1] is Finish));
            assert forall|j: int| 0 <= j < flat(outs).len() implies (#[trigger] handed_at(
                outs,
                rounds,
            )[j]) is Some by {
                if j < n {
                    assert(handed_at(outs, rounds)[j] == handed_at(init, earlier)[j]);
                } else {
                    let c = outs.last()[j - n];
                    assert(picked_in(last, window_ms)(c.window_start));
                }
            }
        }
    }
}

/// What holds of every engine, whatever its workers did: the frames of all windows that it handed
/// out fit, each as the next number from 0 upward, no two alike (as long as the 64-bit counter does
/// not come round); and each was handed out only once its end was a grace period ago, unless the
/// end was asked for.
pub proof fn lemma_frames_of_an_engine(
    e: &AggregationEngine,
    frames: Seq<FrameView>,
    outcomes: Seq<Seq<SensorOutcome>>,
)
    requires
        e.wf(),
        frames_of(frames, flat(e.handed()), outcomes),
    ensures
        forall|j: int|
            0 <= j < frames.len() ==> frame_fits(
                #[trigger] frames[j],
                flat(e.handed())[j],
                j,
                e.window(),
            ),
        frames.len() <= 0x1_0000_0000_0000_0000 ==> forall|i: int, j: int|
            0 <= i < j < frames.len() ==> (#[trigger] frames[i]).frame_id < (
            #[trigger] frames[j]).frame_id,
        handed_at(e.handed(), e.history()).len() == frames.len(),
        forall|j: int|
            0 <= j < frames.len() ==> (handed_at(e.handed(), e.history())[j] matches Some(now_ms)
                ==> now_ms >= (#[trigger] frames[j]).window_end + grace_length(e.window())),
        !e.is_ending() ==> forall|j: int|
            0 <= j < frames.len() ==> (#[trigger] handed_at(e.handed(), e.history())[j]) is Some,
{
    e.lemma_readings_are_in_their_windows();
    lemma_frames_of_a_run(e.handed(), e.history(), e.window(), frames, outcomes);
    lemma_handed_out_in_time(e.handed(), e.history(), e.window());
    assert forall|j: int| 0 <= j < frames.len() implies (handed_at(
        e.handed(),
        e.history(),
    )[j] matches Some(now_ms) ==> now_ms >= (#[trigger] frames[j]).window_end + grace_length(
        e.window(),
    )) by {
        let c = flat(e.handed())[j];
        assert(frames[j] == frame_of(c, outcomes[j]));
        assert(handed_at(e.handed(), e.history())[j] matches Some(now_ms) ==> now_ms
            >= c.window_end + grace_length(e.window()));
    }
}

/// A frame has the sensors of its window, each with the number of its readings.
proof fn lemma_frame_counts_each_sensor(c: ClaimedWindow, outcomes: Seq<SensorOutcome>)
    ensures
        frame_of(c, outcomes).sensor_stats.dom() == lists_of(c.readings@).dom(),
        forall|id: Seq<char>| #[trigger]
            lists_of(c.readings@).contains_key(id) ==> frame_of(c, outcomes).sensor_stats[id].count
                == lists_of(c.readings@)[id].len(),
{
    let ids = c.readings.ids();
    let lists = c.readings.values();
    let stats = frame_of(c, outcomes).sensor_stats;
    assert forall|id: Seq<char>| #[trigger]
        lists_of(c.readings@).contains_key(id) implies stats[id].count == lists_of(
        c.readings@,
    )[id].len() by {
        let k = ids.index_of(id);
        assert(ids[k] == id);
        assert(lists[k].len() == lists[k]@.len());
    }
    assert(stats.dom() =~= lists_of(c.readings@).dom());
}

/// The counts of a frame come to the number of readings in its window.
pub proof fn lemma_frame_counts_its_readings(c: ClaimedWindow, outcomes: Seq<SensorOutcome>)
    ensures
        frame_total(frame_of(c, outcomes)) == readings_in(lists_of(c.readings@)),
{
    lemma_frame_counts_each_sensor(c, outcomes);
    let a = frame_of(c, outcomes).sensor_stats.map_values(|s: SensorStats| s.count as nat);
    let b = lists_of(c.readings@).map_values(|l: Seq<SensorReading>| l.len());
    assert forall|id: Seq<char>| a.contains_key(id) implies b.contains_key(id) && a[id]
        == b[id] by {
        assert(lists_of(c.readings@).contains_key(id));
    }
    assert(forall|id: Seq<char>| b.contains_key(id) ==> a.contains_key(id));
    assert(a =~= b);
}

proof fn lemma_frames_count_readings(
    frames: Seq<FrameView>,
    claimed: Seq<ClaimedWindow>,
    outcomes: Seq<Seq<SensorOutcome>>,
)
    requires
        frames_of(frames, claimed, outcomes),
    ensures
        frames_total(frames) == claimed_total(claimed),
    decreases frames.len(),
{
    if frames.len() > 0 {
        let last = frames.len() - 1;
        assert forall|j: int| 0 <= j < last implies #[trigger] frames.drop_last()[j] == frame_of(
            claimed.drop_last()[j],
            outcomes[j],
        ) by {
            assert(frames[j] == frame_of(claimed[j], outcomes[j]));
        }
        lemma_frames_count_readings(frames.drop_last(), claimed.drop_last(), outcomes);
        assert(frames[last] == frame_of(claimed[last], outcomes[last]));
        lemma_frame_counts_its_readings(claimed[last], outcomes[last]);
    }
}

/// The counts of all frames made so far, and the readings still pending, come to the number of
/// readings that were pulled. Once the last round is one that ends a worker, the counts of the
/// frames alone do.
pub proof fn lemma_frames_count_what_was_pulled(
    outs: Seq<Seq<ClaimedWindow>>,
    rounds: Seq<Round>,
    window_ms: int,
    frames: Seq<FrameView>,
    outcomes: Seq<Seq<SensorOutcome>>,
)
    requires
        handed_by(outs, rounds, window_ms),
        frames_of(frames, flat(outs), outcomes),
    ensures
        frames_total(frames) + windows_total(pending_after(rounds, window_ms)) == pulled(
            rounds,
        ).len(),
        rounds.len() > 0 && rounds.last() is Finish ==> frames_total(frames) == pulled(
            rounds,
        ).len(),
{
    lemma_run_counts(outs, rounds, window_ms);
    lemma_frames_count_readings(frames, flat(outs), outcomes);
    lemma_no_windows();
}

/// A reading is as often among those of its window as among all.
proof fn lemma_of_window_keeps(readings: Seq<SensorReading>, x: SensorReading, window_ms: int)
    requires
        0 < window_ms,
    ensures
        of_window(
            readings,
            window_start(x.ts() as int, window_ms) as u64,
            x.id(),
            window_ms,
        ).to_multiset().count(x) == readings.to_multiset().count(x),
    decreases readings.len(),
{
    let start = window_start(x.ts() as int, window_ms) as u64;
    lemma_time_lies_in_one_window(x.ts() as int, window_ms, 0);
    if readings.len() > 0 {
        let init = readings.drop_last();
        lemma_of_window_keeps(init, x, window_ms);
        assert(readings =~= init.push(readings.last()));
        vstd::seq_lib::to_multiset_build(init, readings.last());
        vstd::seq_lib::to_multiset_build(
            of_window(init, start, x.id(), window_ms),
            readings.last(),
        );
    } else {
        assert(readings =~= Seq::empty());
    }
}

/// A buffer that is empty stays so while nothing is pushed.
proof fn lemma_stays_empty(steps: Seq<Option<SensorReading>>, seen: int)
    requires
        0 <= seen <= steps.len(),
        after_steps(Seq::empty(), steps.take(seen)).1.len() == 0,
        forall|i: int| seen <= i < steps.len() ==> #[trigger] steps[i] is None,
    ensures
        after_steps(Seq::empty(), steps).1.len() == 0,
    decreases steps.len() - seen,
{
    if seen < steps.len() {
        let init = steps.drop_last();
        assert(init.take(seen) =~= steps.take(seen));
        assert forall|i: int| seen <= i < init.len() implies #[trigger] init[i] is None by {
            assert(init[i] == steps[i]);
        }
        lemma_stays_empty(init, seen);
        assert(steps[steps.len() - 1] is None);
    } else {
        assert(steps.take(seen) =~= steps);
    }
}

/// A shutdown loses nothing. Readings were pushed to an empty buffer while workers, the only ones
/// to pop, put each reading that they popped into a round, in whatever order; the last round is
/// one that ends a worker: it saw the buffer empty after `seen` steps, and nothing was pushed
/// after. Then the buffer is empty; the counts of all frames come to the number of readings that
/// were pushed; and every reading is, as often as it was pushed, in the frames of its own window
/// under its own sensor, and in no other.
pub proof fn lemma_shutdown_loses_nothing(
    steps: Seq<Option<SensorReading>>,
    seen: int,
    outs: Seq<Seq<ClaimedWindow>>,
    rounds: Seq<Round>,
    window_ms: int,
    frames: Seq<FrameView>,
    outcomes: Seq<Seq<SensorOutcome>>,
    x: SensorReading,
)
    requires
        0 < window_ms,
        0 <= seen <= steps.len(),
        after_steps(Seq::empty(), steps.take(seen)).1.len() == 0,
        forall|i: int| seen <= i < steps.len() ==> #[trigger] steps[i] is None,
        pulled(rounds).to_multiset() == after_steps(Seq::empty(), steps).0.to_multiset(),
        rounds.len() > 0,
        rounds.last() is Finish,
        handed_by(outs, rounds, window_ms),
        frames_of(frames, flat(outs), outcomes),
    ensures
        after_steps(Seq::empty(), steps).1.len() == 0,
        frames_total(frames) == pushed_in(steps).len(),
        delivered(
            flat(outs),
            window_start(x.ts() as int, window_ms) as u64,
            x.id(),
        ).to_multiset().count(x) == pushed_in(steps).to_multiset().count(x),
        forall|j: int, id: Seq<char>|
            #![trigger lists_of(flat(outs)[j].readings@)[id]]
            0 <= j < flat(outs).len() && lists_of(flat(outs)[j].readings@).contains_key(id)
                && lists_of(flat(outs)[j].readings@)[id].contains(x) ==> id == x.id()
                && flat(outs)[j].window_start == window_start(x.ts() as int, window_ms),
{
    let popped = after_steps(Seq::empty(), steps).0;
    let all = pushed_in(steps);
    lemma_stays_empty(steps, seen);
    lemma_first_in_first_out(Seq::empty(), steps);
    assert(popped + after_steps(Seq::empty(), steps).1 =~= popped);
    assert(Seq::<SensorReading>::empty() + all =~= all);
    assert(popped == all);
    vstd::seq_lib::to_multiset_len(pulled(rounds));
    vstd::seq_lib::to_multiset_len(all);
    lemma_frames_count_what_was_pulled(outs, rounds, window_ms, frames, outcomes);
    let start = window_start(x.ts() as int, window_ms) as u64;
    lemma_every_reading_is_handed_out_once(outs, rounds, window_ms, start, x.id());
    lemma_of_window_keeps(pulled(rounds), x, window_ms);
    lemma_windows_of_a_run(outs, rounds, window_ms);
    assert forall|j: int, id: Seq<char>|
        #![trigger lists_of(flat(outs)[j].readings@)[id]]
        0 <= j < flat(outs).len() && lists_of(flat(outs)[j].readings@).contains_key(id)
            && lists_of(flat(outs)[j].readings@)[id].contains(x) implies id == x.id() && flat(
        outs,
    )[j].window_start == window_start(x.ts() as int, window_ms) by {
        let c = flat(outs)[j];
        let list = lists_of(c.readings@)[id];
        let i = choose|i: int| 0 <= i < list.len() && list[i] == x;
        assert(is_in_place(c, window_ms));
        assert(lists_of(c.readings@)[id][i] == x);
        lemma_time_lies_in_one_window(x.ts() as int, window_ms, c.window_start as int);
    }
}

} // verus!

//! Lists of frames: newest first, oldest first, merged and bounded.
use core::cmp::Ordering;
use vstd::prelude::*;
use crate::models::{frame_views, AggregatedFrame, FrameView};
use crate::order::{
    arrangement, is_arrangement, least, lemma_arrangement_distinct,
    picked, positions, select_first, sort_indices, strict_total, take_at, within, IndexOrder,
};
use crate::ring::last_entries;

verus! {

/// How many frames the latest view shows.
pub const MAX_LATEST_FRAMES: usize = 10;

/// How many frames the cache keeps.
pub const MAX_CACHED_FRAMES: usize = 65_536;

/// Whether `a` is newer than `b`: by the end of its window, then by its id.
pub open spec fn newer(a: FrameView, b: FrameView) -> bool {
    a.window_end > b.window_end || (a.window_end == b.window_end && a.frame_id > b.frame_id)
}

/// Whether two frames have the same window end and id.
pub open spec fn same_key(a: FrameView, b: FrameView) -> bool {
    a.window_end == b.window_end && a.frame_id == b.frame_id
}

/// Newer frames first; frames with the same key stay in their order.
pub open spec fn newest_rel(f: Seq<FrameView>) -> spec_fn(int, int) -> bool {
    |i: int, j: int| newer(f[i], f[j]) || (same_key(f[i], f[j]) && i < j)
}

/// Older frames first; frames with the same key stay in their order.
pub open spec fn oldest_rel(f: Seq<FrameView>) -> spec_fn(int, int) -> bool {
    |i: int, j: int| newer(f[j], f[i]) || (same_key(f[i], f[j]) && i < j)
}

/// All frames, newest first.
pub open spec fn newest_first(f: Seq<FrameView>) -> Seq<FrameView> {
    picked(f, arrangement(f.len(), newest_rel(f)))
}

/// All frames, oldest first.
pub open spec fn oldest_first(f: Seq<FrameView>) -> Seq<FrameView> {
    picked(f, arrangement(f.len(), oldest_rel(f)))
}

/// The order of `newest_first` is strict and total.
pub proof fn lemma_newest_rel_strict_total(f: Seq<FrameView>)
    ensures
        strict_total(f.len(), newest_rel(f)),
{
}

/// The order of `oldest_first` is strict and total.
pub proof fn lemma_oldest_rel_strict_total(f: Seq<FrameView>)
    ensures
        strict_total(f.len(), oldest_rel(f)),
{
}

/// The order in which the newest frame comes first.
struct NewestFirst<'a> {
    frames: &'a [AggregatedFrame],
}

impl<'a> IndexOrder for NewestFirst<'a> {
    closed spec fn size(&self) -> nat {
        self.frames@.len()
    }

    closed spec fn rel(&self) -> spec_fn(int, int) -> bool {
        newest_rel(frame_views(self.frames@))
    }

    proof fn rel_is_strict_total(&self) {
        lemma_newest_rel_strict_total(frame_views(self.frames@));
    }

    fn count(&self) -> (n: usize) {
        self.frames.len()
    }

    fn precedes(&self, i: usize, j: usize) -> (b: bool) {
        let a = &self.frames[i];
        let b = &self.frames[j];
        a.window_end > b.window_end || (a.window_end == b.window_end && (a.frame_id > b.frame_id
            || (a.frame_id == b.frame_id && i < j)))
    }
}

/// The order in which the oldest frame comes first.
struct OldestFirst<'a> {
    frames: &'a [AggregatedFrame],
}

impl<'a> IndexOrder for OldestFirst<'a> {
    closed spec fn size(&self) -> nat {
        self.frames@.len()
    }

    closed spec fn rel(&self) -> spec_fn(int, int) -> bool {
        oldest_rel(frame_views(self.frames@))
    }

    proof fn rel_is_strict_total(&self) {
        lemma_oldest_rel_strict_total(frame_views(self.frames@));
    }

    fn count(&self) -> (n: usize) {
        self.frames.len()
    }

    fn precedes(&self, i: usize, j: usize) -> (b: bool) {
        let a = &self.frames[i];
        let b = &self.frames[j];
        b.window_end > a.window_end || (a.window_end == b.window_end && (b.frame_id > a.frame_id
            || (a.frame_id == b.frame_id && i < j)))
    }
}

/// Orders newer frames first: `Less` means that `a` is newer.
pub fn cmp_latest_desc(a: &AggregatedFrame, b: &AggregatedFrame) -> (r: Ordering)
    ensures
        r == Ordering::Less <==> newer(a@, b@),
        r == Ordering::Equal <==> same_key(a@, b@),
        r == Ordering::Greater <==> newer(b@, a@),
{
    if a.window_end > b.window_end {
        Ordering::Less
    } else if a.window_end < b.window_end {
        Ordering::Greater
    } else if a.frame_id > b.frame_id {
        Ordering::Less
    } else if a.frame_id < b.frame_id {
        Ordering::Greater
    } else {
        Ordering::Equal
    }
}

/// Copies the frames at the given positions.
fn copy_at(frames: &[AggregatedFrame], at: &Vec<usize>) -> (r: Vec<AggregatedFrame>)
    requires
        within(positions(at@), 0, frames@.len() as int),
    ensures
        frame_views(r@) == picked(frame_views(frames@), positions(at@)),
{
    let mut r: Vec<AggregatedFrame> = Vec::new();
    let ghost all = picked(frame_views(frames@), positions(at@));
    let mut k: usize = 0;
    while k < at.len()
        invariant
            k <= at.len(),
            within(positions(at@), 0, frames@.len() as int),
            all == picked(frame_views(frames@), positions(at@)),
            frame_views(r@) == all.take(k as int),
        decreases at.len() - k,
    {
        proof {
            assert(0 <= positions(at@)[k as int] < frames@.len());
        }
        let f = frames[at[k]].clone();
        let ghost before = frame_views(r@);
        r.push(f);
        k = k + 1;
        proof {
            assert(frame_views(r@) =~= before.push(f@));
            assert(frame_views(r@) =~= all.take(k as int));
        }
    }
    assert(all.take(k as int) =~= all);
    r
}

/// The newest frames, newest first and at most `MAX_LATEST_FRAMES` of them.
pub open spec fn latest(f: Seq<FrameView>) -> Seq<FrameView> {
    newest_first(f).take(least(MAX_LATEST_FRAMES as nat, f.len()) as int)
}

/// The newest frames, as if all were sorted newest first and the first `MAX_LATEST_FRAMES` taken.
pub fn newest_frames_bounded(frames: &[AggregatedFrame]) -> (r: Vec<AggregatedFrame>)
    ensures
        frame_views(r@) == latest(frame_views(frames@)),
        r@.len() == if frames@.len() < 10 {
            frames@.len()
        } else {
            10
        },
        forall|a: int, b: int|
            0 <= a < b < r@.len() ==> (#[trigger] r@[a]).window_end > (#[trigger] r@[b]).window_end
                || (r@[a].window_end == r@[b].window_end && r@[a].frame_id >= r@[b].frame_id),
{
    let order = NewestFirst { frames };
    let at = select_first(&order, MAX_LATEST_FRAMES);
    let ghost f = frame_views(frames@);
    let ghost all = arrangement(f.len(), newest_rel(f));
    proof {
        let k = least(MAX_LATEST_FRAMES as nat, f.len()) as int;
        assert(positions(at@) == all.take(k));
        assert forall|a: int| 0 <= a < positions(at@).len() implies 0 <= #[trigger] positions(
            at@,
        )[a] < frames@.len() by {
            assert(0 <= all[a] < f.len());
        }
        assert(picked(f, all.take(k)) =~= newest_first(f).take(k));
    }
    let r = copy_at(frames, &at);
    proof {
        let _ = lemma_latest_are_the_newest_ten(f);
        assert(frame_views(r@) == latest(f));
        assert(frame_views(r@).len() == r@.len());
        assert forall|a: int, b: int| 0 <= a < b < r@.len() implies (#[trigger] r@[a]).window_end > (
        #[trigger] r@[b]).window_end || (r@[a].window_end == r@[b].window_end && r@[a].frame_id
            >= r@[b].frame_id) by {
            assert(frame_views(r@)[a] == r@[a]@);
            assert(frame_views(r@)[b] == r@[b]@);
            let x = latest(f)[a];
            let y = latest(f)[b];
        }
    }
    r
}

/// All frames, newest first.
pub fn sort_newest_first(frames: &[AggregatedFrame]) -> (r: Vec<AggregatedFrame>)
    ensures
        frame_views(r@) == newest_first(frame_views(frames@)),
{
    let order = NewestFirst { frames };
    let at = sort_indices(&order);
    copy_at(frames, &at)
}

/// The frames whose key is not that of `x`.
pub open spec fn without_key(f: Seq<FrameView>, x: FrameView) -> Seq<FrameView> {
    f.filter(|y: FrameView| !same_key(y, x))
}

/// `f` with `x` in place of any frame with its key, oldest first, without the oldest frames
/// beyond `MAX_CACHED_FRAMES`.
pub open spec fn merged(f: Seq<FrameView>, x: FrameView) -> Seq<FrameView> {
    last_entries(oldest_first(without_key(f, x).push(x)), MAX_CACHED_FRAMES as int)
}

/// Merges all of `xs` in turn.
pub open spec fn merged_all(f: Seq<FrameView>, xs: Seq<FrameView>) -> Seq<FrameView>
    decreases xs.len(),
{
    if xs.len() == 0 {
        f
    } else {
        merged(merged_all(f, xs.drop_last()), xs.last())
    }
}

/// Removes the frames with the key of `x`.
fn remove_key(frames: Vec<AggregatedFrame>, x: &AggregatedFrame) -> (r: Vec<AggregatedFrame>)
    ensures
        frame_views(r@) == without_key(frame_views(frames@), x@),
        r.len() <= frames.len(),
{
    let ghost all = frame_views(frames@);
    let ghost keep = |y: FrameView| !same_key(y, x@);
    let ghost items = frames@;
    let mut r: Vec<AggregatedFrame> = Vec::new();
    proof {
        reveal(Seq::filter);
        assert(frame_views(r@) =~= all.take(0).filter(keep));
    }
    for f in it: frames
        invariant
            it.seq() == items,
            all == frame_views(items),
            keep == (|y: FrameView| !same_key(y, x@)),
            frame_views(r@) == all.take(it.index() as int).filter(keep),
            r.len() <= it.index(),
    {
        let ghost i = it.index() as int;
        let ghost before = frame_views(r@);
        proof {
            reveal(Seq::filter);
            assert(all.take(i + 1).drop_last() =~= all.take(i));
            assert(all.take(i + 1).last() == all[i]);
            assert(all[i] == items[i]@);
            assert(f == items[i]);
        }
        if f.window_end != x.window_end || f.frame_id != x.frame_id {
            r.push(f);
            assert(frame_views(r@) =~= before.push(all[i]));
        }
    }
    assert(all.take(all.len() as int) =~= all);
    r
}

/// Adds a frame to the cached list, in place of any with the same window end and id. The list
/// comes out oldest first and keeps the newest `MAX_CACHED_FRAMES`.
pub fn merge_frame_into_vec(frames: &mut Vec<AggregatedFrame>, frame: AggregatedFrame)
    ensures
        frame_views(final(frames)@) == merged(frame_views(old(frames)@), frame@),
{
    let ghost start = frame_views(frames@);
    let mut taken: Vec<AggregatedFrame> = Vec::new();
    std::mem::swap(&mut taken, frames);
    let mut kept = remove_key(taken, &frame);
    let ghost x = frame@;
    let ghost before = frame_views(kept@);
    kept.push(frame);
    let ghost f = frame_views(kept@);
    proof {
        assert(f =~= before.push(x));
    }
    let order = OldestFirst { frames: kept.as_slice() };
    let at = sort_indices(&order);
    proof {
        lemma_arrangement_distinct(f.len(), oldest_rel(f), positions(at@));
    }
    let ghost unsorted = kept@;
    let sorted = take_at(kept, &at);
    proof {
        let pos = positions(at@);
        assert forall|k: int| 0 <= k < pos.len() implies frame_views(sorted@)[k] == picked(
            f,
            pos,
        )[k] by {
            assert(0 <= pos[k] < unsorted.len());
        }
        assert(frame_views(sorted@) =~= picked(f, pos));
        assert(frame_views(sorted@) == oldest_first(f));
    }
    let mut sorted = sorted;
    if sorted.len() > MAX_CACHED_FRAMES {
        let excess = sorted.len() - MAX_CACHED_FRAMES;
        let ghost full = sorted@;
        let newest = sorted.split_off(excess);
        proof {
            assert(frame_views(newest@) =~= frame_views(full).skip(excess as int));
        }
        *frames = newest;
    } else {
        *frames = sorted;
    }
}

/// Whether the window of a frame ends within `from..=to`.
pub open spec fn ends_within(x: FrameView, from: u64, to: u64) -> bool {
    from <= x.window_end <= to
}

/// The frames whose window ends within `from..=to`, newest first.
pub open spec fn in_range(f: Seq<FrameView>, from: u64, to: u64) -> Seq<FrameView> {
    newest_first(f.filter(|x: FrameView| ends_within(x, from, to)))
}

/// The frames whose window ends within `from..=to`, newest first. A missing bound does not limit.
pub fn range_frames(frames: Vec<AggregatedFrame>, from: Option<u64>, to: Option<u64>) -> (r: Vec<
    AggregatedFrame,
>)
    ensures
        frame_views(r@) == in_range(
            frame_views(frames@),
            match from {
                Some(v) => v,
                None => 0,
            },
            match to {
                Some(v) => v,
                None => u64::MAX,
            },
        ),
        ({
            let lo = match from {
                Some(v) => v,
                None => 0,
            };
            let hi = match to {
                Some(v) => v,
                None => u64::MAX,
            };
            &&& r@.len() == frame_views(frames@).filter(
                |x: FrameView| lo <= x.window_end <= hi,
            ).len()
            &&& forall|k: int|
                0 <= k < r@.len() ==> lo <= (#[trigger] r@[k]).window_end <= hi
            &&& forall|i: int|
                0 <= i < frames@.len() && lo <= (#[trigger] frames@[i]).window_end <= hi
                    ==> frame_views(r@).contains(frames@[i]@)
            &&& forall|a: int, b: int|
                0 <= a < b < r@.len() ==> (#[trigger] r@[a]).window_end > (
                #[trigger] r@[b]).window_end || (r@[a].window_end == r@[b].window_end
                    && r@[a].frame_id >= r@[b].frame_id)
        }),
{
    let from = from.unwrap_or(0);
    let to = to.unwrap_or(u64::MAX);
    let ghost all = frame_views(frames@);
    let ghost keep = |x: FrameView| ends_within(x, from, to);
    let ghost items = frames@;
    let mut kept: Vec<AggregatedFrame> = Vec::new();
    proof {
        reveal(Seq::filter);
        assert(frame_views(kept@) =~= all.take(0).filter(keep));
    }
    for f in it: frames
        invariant
            it.seq() == items,
            all == frame_views(items),
            keep == (|x: FrameView| ends_within(x, from, to)),
            frame_views(kept@) == all.take(it.index() as int).filter(keep),
    {
        let ghost i = it.index() as int;
        let ghost before = frame_views(kept@);
        proof {
            reveal(Seq::filter);
            assert(all.take(i + 1).drop_last() =~= all.take(i));
            assert(all.take(i + 1).last() == all[i]);
            assert(all[i] == items[i]@);
            assert(f == items[i]);
        }
        if f.window_end >= from && f.window_end <= to {
            kept.push(f);
            assert(frame_views(kept@) =~= before.push(all[i]));
        }
    }
    assert(all.take(all.len() as int) =~= all);
    let r = sort_newest_first(kept.as_slice());
    proof {
        let at = lemma_range_has_all_frames(all, from, to);
        let s = in_range(all, from, to);
        assert(frame_views(r@) == s);
        assert forall|k: int| 0 <= k < r@.len() implies #[trigger] r@[k]@ == s[k] by {
            assert(frame_views(r@)[k] == r@[k]@);
        }
        assert forall|k: int| 0 <= k < r@.len() implies from <= (#[trigger] r@[k]).window_end
            <= to by {
            assert(r@[k]@ == s[k]);
            assert(0 <= at[k] < all.len());
        }
        assert forall|i: int|
            0 <= i < items.len() && from <= (#[trigger] items[i]).window_end <= to implies s.contains(
            items[i]@,
        ) by {
            assert(all[i] == items[i]@);
            assert(at.contains(i));
            let k = choose|k: int| 0 <= k < at.len() && at[k] == i;
            assert(s[k] == all[i]);
        }
        assert forall|a: int, b: int| 0 <= a < b < r@.len() implies (#[trigger] r@[a]).window_end > (
        #[trigger] r@[b]).window_end || (r@[a].window_end == r@[b].window_end && r@[a].frame_id
            >= r@[b].frame_id) by {
            assert(r@[a]@ == s[a] && r@[b]@ == s[b]);
        }
    }
    r
}

/// Whether no frame stands before an older one.
pub open spec fn is_oldest_first(f: Seq<FrameView>) -> bool {
    forall|a: int, b: int| 0 <= a < b < f.len() ==> !newer(#[trigger] f[a], #[trigger] f[b])
}

/// Whether no two frames have the same key.
pub open spec fn keys_distinct(f: Seq<FrameView>) -> bool {
    forall|a: int, b: int|
        0 <= a < b < f.len() ==> !same_key(#[trigger] f[a], #[trigger] f[b])
}

proof fn lemma_oldest_first_arrangement(f: Seq<FrameView>)
    ensures
        is_arrangement(f.len(), oldest_rel(f), arrangement(f.len(), oldest_rel(f))),
        strict_total(f.len(), oldest_rel(f)),
        oldest_first(f).len() == f.len(),
{
    lemma_oldest_rel_strict_total(f);
    crate::order::lemma_arrangement_exists(f.len(), oldest_rel(f));
}

/// Sorting oldest first keeps exactly the same frames.
pub proof fn lemma_oldest_first_keeps_frames(f: Seq<FrameView>, y: FrameView)
    ensures
        oldest_first(f).contains(y) <==> f.contains(y),
        oldest_first(f).len() == f.len(),
        is_oldest_first(oldest_first(f)),
        keys_distinct(f) ==> keys_distinct(oldest_first(f)),
{
    lemma_oldest_first_arrangement(f);
    let n = f.len();
    let rel = oldest_rel(f);
    let at = arrangement(n, rel);
    let s = oldest_first(f);
    if f.contains(y) {
        let i = choose|i: int| 0 <= i < f.len() && f[i] == y;
        crate::order::lemma_arrangement_covers(n, rel, at, i);
        let k = choose|k: int| 0 <= k < at.len() && at[k] == i;
        assert(s[k] == y);
    }
    if s.contains(y) {
        let k = choose|k: int| 0 <= k < s.len() && s[k] == y;
        assert(0 <= at[k] < n);
        assert(f[at[k]] == y);
    }
    assert forall|a: int, b: int| 0 <= a < b < s.len() implies !newer(
        #[trigger] s[a],
        #[trigger] s[b],
    ) by {
        assert(rel(at[a], at[b]));
    }
    if keys_distinct(f) {
        lemma_arrangement_distinct(n, rel, at);
        assert forall|a: int, b: int| 0 <= a < b < s.len() implies !same_key(
            #[trigger] s[a],
            #[trigger] s[b],
        ) by {
            assert(0 <= at[a] < n && 0 <= at[b] < n);
            assert(at[a] != at[b]);
            if at[a] < at[b] {
                assert(!same_key(f[at[a]], f[at[b]]));
            } else {
                assert(!same_key(f[at[b]], f[at[a]]));
            }
        }
    }
}

proof fn lemma_without_key(f: Seq<FrameView>, x: FrameView)
    ensures
        forall|i: int|
            0 <= i < without_key(f, x).len() ==> !same_key(#[trigger] without_key(f, x)[i], x)
                && f.contains(without_key(f, x)[i]),
        forall|y: FrameView|
            f.contains(y) && !same_key(y, x) ==> #[trigger] without_key(f, x).contains(y),
        without_key(f, x).len() <= f.len(),
        keys_distinct(f) ==> keys_distinct(without_key(f, x)),
    decreases f.len(),
{
    reveal(Seq::filter);
    let g = without_key(f, x);
    if f.len() > 0 {
        let init = f.drop_last();
        let h = without_key(init, x);
        lemma_without_key(init, x);
        assert forall|i: int| 0 <= i < g.len() implies !same_key(#[trigger] g[i], x) && f.contains(
            g[i],
        ) by {
            if i < h.len() {
                assert(g[i] == h[i]);
                let j = choose|j: int| 0 <= j < init.len() && init[j] == h[i];
                assert(f[j] == g[i]);
            } else {
                assert(f[f.len() - 1] == g[i]);
            }
        }
        assert forall|y: FrameView| f.contains(y) && !same_key(y, x) implies #[trigger] g.contains(
            y,
        ) by {
            let j = choose|j: int| 0 <= j < f.len() && f[j] == y;
            if j < init.len() {
                assert(init[j] == y);
                assert(h.contains(y));
                let k = choose|k: int| 0 <= k < h.len() && h[k] == y;
                assert(g[k] == y);
            } else {
                assert(g[g.len() - 1] == y);
            }
        }
        if keys_distinct(f) {
            assert forall|a: int, b: int| 0 <= a < b < init.len() implies !same_key(
                #[trigger] init[a],
                #[trigger] init[b],
            ) by {
                assert(!same_key(f[a], f[b]));
            }
            assert forall|a: int, b: int| 0 <= a < b < g.len() implies !same_key(
                #[trigger] g[a],
                #[trigger] g[b],
            ) by {
                if b < h.len() {
                    assert(!same_key(h[a], h[b]));
                } else {
                    assert(g[a] == h[a]);
                    let j = choose|j: int| 0 <= j < init.len() && init[j] == h[a];
                    assert(!same_key(f[j], f[f.len() - 1]));
                }
            }
        }
    }
}

/// A merged list is oldest first and within its bound, holds nothing but `x` and frames from
/// before, and one frame per key where that held before. Below the bound nothing is lost: `x`
/// is in it, and so is every earlier frame with another key.
pub proof fn lemma_merged(f: Seq<FrameView>, x: FrameView)
    ensures
        is_oldest_first(merged(f, x)),
        merged(f, x).len() <= MAX_CACHED_FRAMES,
        merged(f, x).len() <= f.len() + 1,
        forall|y: FrameView| #[trigger] merged(f, x).contains(y) ==> y == x || f.contains(y),
        forall|y: FrameView|
            #[trigger] merged(f, x).contains(y) && same_key(y, x) ==> y == x,
        keys_distinct(f) ==> keys_distinct(merged(f, x)),
        f.len() < MAX_CACHED_FRAMES ==> merged(f, x).contains(x),
        f.len() < MAX_CACHED_FRAMES ==> forall|y: FrameView|
            f.contains(y) && !same_key(y, x) ==> #[trigger] merged(f, x).contains(y),
{
    let g = without_key(f, x);
    let p = g.push(x);
    let s = oldest_first(p);
    let m = merged(f, x);
    lemma_without_key(f, x);
    lemma_oldest_first_keeps_frames(p, x);
    let skip = if s.len() <= MAX_CACHED_FRAMES {
        0
    } else {
        s.len() - MAX_CACHED_FRAMES
    };
    assert(forall|a: int| 0 <= a < m.len() ==> #[trigger] m[a] == s[a + skip]);
    assert(p[p.len() - 1] == x);
    assert forall|y: FrameView| #[trigger] m.contains(y) implies (y == x || f.contains(y)) && (
    same_key(y, x) ==> y == x) by {
        let a = choose|a: int| 0 <= a < m.len() && m[a] == y;
        assert(s[a + skip] == y);
        assert(s.contains(y));
        lemma_oldest_first_keeps_frames(p, y);
        let j = choose|j: int| 0 <= j < p.len() && p[j] == y;
        if j < g.len() {
            assert(g[j] == y);
        }
    }
    assert forall|a: int, b: int| 0 <= a < b < m.len() implies !newer(
        #[trigger] m[a],
        #[trigger] m[b],
    ) by {
        assert(!newer(s[a + skip], s[b + skip]));
    }
    if keys_distinct(f) {
        assert forall|a: int, b: int| 0 <= a < b < p.len() implies !same_key(
            #[trigger] p[a],
            #[trigger] p[b],
        ) by {
            assert(p[a] == g[a]);
            if b < g.len() {
                assert(!same_key(g[a], g[b]));
            }
        }
        assert forall|a: int, b: int| 0 <= a < b < m.len() implies !same_key(
            #[trigger] m[a],
            #[trigger] m[b],
        ) by {
            assert(!same_key(s[a + skip], s[b + skip]));
        }
    }
    if f.len() < MAX_CACHED_FRAMES {
        assert(m == s);
        assert forall|y: FrameView| f.contains(y) && !same_key(y, x) implies #[trigger] m.contains(
            y,
        ) by {
            assert(g.contains(y));
            let k = choose|k: int| 0 <= k < g.len() && g[k] == y;
            assert(p[k] == y);
            lemma_oldest_first_keeps_frames(p, y);
        }
    }
}

/// A frame that nothing in the list is newer than ends up last of the merged list and first of
/// the latest frames.
pub proof fn lemma_newest_is_shown_first(f: Seq<FrameView>, x: FrameView)
    requires
        forall|i: int| 0 <= i < f.len() ==> !newer(#[trigger] f[i], x),
    ensures
        merged(f, x).len() > 0,
        merged(f, x).last() == x,
        latest(merged(f, x)).len() > 0,
        latest(merged(f, x))[0] == x,
{
    let g = without_key(f, x);
    let p = g.push(x);
    let s = oldest_first(p);
    let m = merged(f, x);
    lemma_without_key(f, x);
    lemma_oldest_first_arrangement(p);
    let n = p.len();
    let at = arrangement(n, oldest_rel(p));
    let last = at[n - 1];
    assert(0 <= last < n);
    if last != n - 1 {
        crate::order::lemma_arrangement_covers(n, oldest_rel(p), at, n - 1);
        let k = choose|k: int| 0 <= k < at.len() && at[k] == n - 1;
        assert(oldest_rel(p)(at[k], at[n - 1]));
        assert(p[last] == g[last]);
        let j = choose|j: int| 0 <= j < f.len() && f[j] == g[last];
        assert(!newer(f[j], x));
        assert(false);
    }
    assert(s.last() == x);
    assert(m.last() == x);
    lemma_newest_rel_strict_total(m);
    crate::order::lemma_arrangement_exists(m.len(), newest_rel(m));
    let order = arrangement(m.len(), newest_rel(m));
    let first = order[0];
    let e = m.len() - 1;
    assert(0 <= first < m.len());
    lemma_merged(f, x);
    if first != e {
        crate::order::lemma_arrangement_covers(m.len(), newest_rel(m), order, e);
        let k = choose|k: int| 0 <= k < order.len() && order[k] == e;
        assert(newest_rel(m)(order[0], order[k]));
        assert(!newer(m[first], m[e]));
        assert(m.contains(m[first]));
        assert(same_key(m[first], x));
        assert(m[first] == x);
    }
    assert(newest_first(m)[0] == x);
}

/// The latest frames are newest first, as many as there are up to `MAX_LATEST_FRAMES`, all from
/// the list; and a frame that is not shown is not newer than any that is.
pub proof fn lemma_latest(f: Seq<FrameView>)
    ensures
        latest(f).len() == least(MAX_LATEST_FRAMES as nat, f.len()),
        forall|a: int, b: int|
            0 <= a < b < latest(f).len() ==> !newer(
                #[trigger] latest(f)[b],
                #[trigger] latest(f)[a],
            ),
        forall|y: FrameView| #[trigger] latest(f).contains(y) ==> f.contains(y),
        forall|y: FrameView, k: int|
            f.contains(y) && !#[trigger] latest(f).contains(y) && 0 <= k < latest(f).len()
                ==> !newer(y, #[trigger] latest(f)[k]),
{
    let n = f.len();
    let rel = newest_rel(f);
    lemma_newest_rel_strict_total(f);
    crate::order::lemma_arrangement_exists(n, rel);
    let at = arrangement(n, rel);
    let r = latest(f);
    assert(forall|k: int| 0 <= k < r.len() ==> #[trigger] r[k] == f[at[k]]);
    assert forall|a: int, b: int| 0 <= a < b < r.len() implies !newer(
        #[trigger] r[b],
        #[trigger] r[a],
    ) by {
        assert(rel(at[a], at[b]));
    }
    assert forall|y: FrameView| #[trigger] r.contains(y) implies f.contains(y) by {
        let k = choose|k: int| 0 <= k < r.len() && r[k] == y;
        assert(0 <= at[k] < n);
        assert(f[at[k]] == y);
    }
    assert forall|y: FrameView, k: int|
        f.contains(y) && !#[trigger] r.contains(y) && 0 <= k < r.len() implies !newer(
        y,
        #[trigger] r[k],
    ) by {
        let i = choose|i: int| 0 <= i < n && f[i] == y;
        crate::order::lemma_arrangement_covers(n, rel, at, i);
        let j = choose|j: int| 0 <= j < at.len() && at[j] == i;
        if j < r.len() {
            assert(r[j] == y);
        }
        assert(rel(at[k], at[j]));
    }
}

/// Newest first: the list that comes out has every frame of the list that went in, once. It gives
/// for each place of the new list the place in the old one. A frame whose window ends later comes
/// first; of frames whose windows end together, the one with the larger identifier; and frames
/// that agree in both stay in their order.
pub proof fn lemma_newest_first_is_sorted(f: Seq<FrameView>) -> (at: Seq<int>)
    ensures
        newest_first(f).len() == f.len(),
        at.len() == f.len(),
        at.no_duplicates(),
        forall|k: int|
            0 <= k < f.len() ==> 0 <= #[trigger] at[k] < f.len() && newest_first(f)[k] == f[at[k]],
        forall|i: int| 0 <= i < f.len() ==> #[trigger] at.contains(i),
        forall|a: int, b: int|
            0 <= a < b < f.len() ==> {
                let x = #[trigger] newest_first(f)[a];
                let y = #[trigger] newest_first(f)[b];
                ||| x.window_end > y.window_end
                ||| x.window_end == y.window_end && x.frame_id > y.frame_id
                ||| x.window_end == y.window_end && x.frame_id == y.frame_id && at[a] < at[b]
            },
{
    let rel = newest_rel(f);
    lemma_newest_rel_strict_total(f);
    crate::order::lemma_arrangement_exists(f.len(), rel);
    let at = arrangement(f.len(), rel);
    lemma_arrangement_distinct(f.len(), rel, at);
    assert forall|i: int| 0 <= i < f.len() implies #[trigger] at.contains(i) by {
        crate::order::lemma_arrangement_covers(f.len(), rel, at, i);
    }
    assert forall|a: int, b: int| 0 <= a < b < f.len() implies {
        let x = #[trigger] newest_first(f)[a];
        let y = #[trigger] newest_first(f)[b];
        ||| x.window_end > y.window_end
        ||| x.window_end == y.window_end && x.frame_id > y.frame_id
        ||| x.window_end == y.window_end && x.frame_id == y.frame_id && at[a] < at[b]
    } by {
        assert(rel(at[a], at[b]));
    }
    at
}

/// Oldest first: the same list the other way round, but that frames that agree in window end and
/// identifier stay in their order.
pub proof fn lemma_oldest_first_is_sorted(f: Seq<FrameView>) -> (at: Seq<int>)
    ensures
        oldest_first(f).len() == f.len(),
        at.len() == f.len(),
        at.no_duplicates(),
        forall|k: int|
            0 <= k < f.len() ==> 0 <= #[trigger] at[k] < f.len() && oldest_first(f)[k] == f[at[k]],
        forall|i: int| 0 <= i < f.len() ==> #[trigger] at.contains(i),
        forall|a: int, b: int|
            0 <= a < b < f.len() ==> {
                let x = #[trigger] oldest_first(f)[a];
                let y = #[trigger] oldest_first(f)[b];
                ||| x.window_end < y.window_end
                ||| x.window_end == y.window_end && x.frame_id < y.frame_id
                ||| x.window_end == y.window_end && x.frame_id == y.frame_id && at[a] < at[b]
            },
{
    let rel = oldest_rel(f);
    lemma_oldest_first_arrangement(f);
    let at = arrangement(f.len(), rel);
    lemma_arrangement_distinct(f.len(), rel, at);
    assert forall|i: int| 0 <= i < f.len() implies #[trigger] at.contains(i) by {
        crate::order::lemma_arrangement_covers(f.len(), rel, at, i);
    }
    assert forall|a: int, b: int| 0 <= a < b < f.len() implies {
        let x = #[trigger] oldest_first(f)[a];
        let y = #[trigger] oldest_first(f)[b];
        ||| x.window_end < y.window_end
        ||| x.window_end == y.window_end && x.frame_id < y.frame_id
        ||| x.window_end == y.window_end && x.frame_id == y.frame_id && at[a] < at[b]
    } by {
        assert(rel(at[a], at[b]));
    }
    at
}

/// The latest frames are the ten that end last, or all where there are fewer, newest first. It
/// gives the place of each in the list; a frame at any other place ends no later than each that is
/// shown, and has no larger identifier where it ends together with it.
pub proof fn lemma_latest_are_the_newest_ten(f: Seq<FrameView>) -> (at: Seq<int>)
    ensures
        latest(f).len() == if f.len() < 10 {
            f.len()
        } else {
            10
        },
        at.len() == latest(f).len(),
        at.no_duplicates(),
        forall|k: int|
            0 <= k < at.len() ==> 0 <= #[trigger] at[k] < f.len() && latest(f)[k] == f[at[k]],
        forall|a: int, b: int|
            0 <= a < b < at.len() ==> {
                let x = #[trigger] latest(f)[a];
                let y = #[trigger] latest(f)[b];
                ||| x.window_end > y.window_end
                ||| x.window_end == y.window_end && x.frame_id > y.frame_id
                ||| x.window_end == y.window_end && x.frame_id == y.frame_id && at[a] < at[b]
            },
        forall|i: int, k: int|
            #![trigger f[i], latest(f)[k]]
            0 <= i < f.len() && !at.contains(i) && 0 <= k < at.len() ==> {
                let x = latest(f)[k];
                ||| x.window_end > f[i].window_end
                ||| x.window_end == f[i].window_end && x.frame_id > f[i].frame_id
                ||| x.window_end == f[i].window_end && x.frame_id == f[i].frame_id && at[k] < i
            },
{
    let all = lemma_newest_first_is_sorted(f);
    let n = latest(f).len() as int;
    let at = all.take(n);
    assert forall|k: int| 0 <= k < n implies #[trigger] latest(f)[k] == newest_first(f)[k] by {}
    assert forall|k: int| 0 <= k < at.len() implies 0 <= #[trigger] at[k] < f.len() && latest(f)[k]
        == f[at[k]] by {
        assert(at[k] == all[k]);
    }
    assert forall|a: int, b: int| 0 <= a < at.len() && 0 <= b < at.len() && a != b implies at[a]
        != at[b] by {
        assert(all[a] != all[b]);
    }
    assert forall|i: int, k: int|
        #![trigger f[i], latest(f)[k]]
        0 <= i < f.len() && !at.contains(i) && 0 <= k < at.len() implies {
        let x = latest(f)[k];
        ||| x.window_end > f[i].window_end
        ||| x.window_end == f[i].window_end && x.frame_id > f[i].frame_id
        ||| x.window_end == f[i].window_end && x.frame_id == f[i].frame_id && at[k] < i
    } by {
        assert(all.contains(i));
        let j = choose|j: int| 0 <= j < all.len() && all[j] == i;
        if j < n {
            assert(at[j] == i);
        }
        let x = newest_first(f)[k];
        let y = newest_first(f)[j];
        assert(y == f[all[j]]);
        assert(at[k] == all[k]);
    }
    at
}

/// The frames in a range are all those whose window ends within it, newest first. It gives the
/// place of each in the list: no frame is taken twice, and none that ends within the range is left
/// out, however many they are.
pub proof fn lemma_range_has_all_frames(f: Seq<FrameView>, from: u64, to: u64) -> (at: Seq<int>)
    ensures
        at.len() == in_range(f, from, to).len(),
        at.len() == f.filter(|x: FrameView| from <= x.window_end <= to).len(),
        at.no_duplicates(),
        forall|k: int|
            0 <= k < at.len() ==> 0 <= #[trigger] at[k] < f.len() && in_range(f, from, to)[k]
                == f[at[k]] && from <= f[at[k]].window_end <= to,
        forall|i: int|
            0 <= i < f.len() && from <= (#[trigger] f[i]).window_end <= to ==> at.contains(i),
        forall|a: int, b: int|
            0 <= a < b < at.len() ==> {
                let x = #[trigger] in_range(f, from, to)[a];
                let y = #[trigger] in_range(f, from, to)[b];
                ||| x.window_end > y.window_end
                ||| x.window_end == y.window_end && x.frame_id > y.frame_id
                ||| x.window_end == y.window_end && x.frame_id == y.frame_id && at[a] < at[b]
            },
{
    let keep = |x: FrameView| ends_within(x, from, to);
    assert(keep =~= (|x: FrameView| from <= x.window_end <= to));
    let g = f.filter(keep);
    let inner = crate::order::lemma_filter_positions(f, keep);
    let outer = lemma_newest_first_is_sorted(g);
    let r = in_range(f, from, to);
    let at = picked(inner, outer);
    assert forall|k: int| 0 <= k < at.len() implies 0 <= #[trigger] at[k] < f.len() && r[k]
        == f[at[k]] && from <= f[at[k]].window_end <= to by {
        assert(0 <= outer[k] < g.len());
        assert(at[k] == inner[outer[k]]);
        assert(g[outer[k]] == f[inner[outer[k]]]);
        assert(keep(f[inner[outer[k]]]));
    }
    assert forall|a: int, b: int| 0 <= a < at.len() && 0 <= b < at.len() && a != b implies at[a]
        != at[b] by {
        assert(outer[a] != outer[b]);
        assert(0 <= outer[a] < g.len() && 0 <= outer[b] < g.len());
        if outer[a] < outer[b] {
            assert(inner[outer[a]] < inner[outer[b]]);
        } else {
            assert(inner[outer[b]] < inner[outer[a]]);
        }
    }
    assert forall|i: int|
        0 <= i < f.len() && from <= (#[trigger] f[i]).window_end <= to implies at.contains(i) by {
        assert(keep(f[i]));
        let j = choose|j: int| 0 <= j < inner.len() && inner[j] == i;
        assert(outer.contains(j));
        let k = choose|k: int| 0 <= k < outer.len() && outer[k] == j;
        assert(at[k] == i);
    }
    assert forall|a: int, b: int| 0 <= a < b < at.len() implies {
        let x = #[trigger] r[a];
        let y = #[trigger] r[b];
        ||| x.window_end > y.window_end
        ||| x.window_end == y.window_end && x.frame_id > y.frame_id
        ||| x.window_end == y.window_end && x.frame_id == y.frame_id && at[a] < at[b]
    } by {
        let x = newest_first(g)[a];
        let y = newest_first(g)[b];
        assert(0 <= outer[a] < g.len() && 0 <= outer[b] < g.len());
        if outer[a] < outer[b] {
            assert(inner[outer[a]] < inner[outer[b]]);
        }
    }
    at
}

/// A merged list is the frames from before whose window end or identifier differs from those of
/// `x`, and `x`, oldest first; of more than 65,536 only the newest. It gives for each place the
/// place in the list from before, with `x` after its last; a frame that should be there and is not
/// is no newer than any that is, and then the list is full.
pub proof fn lemma_merged_is_old_frames_and_new(f: Seq<FrameView>, x: FrameView) -> (at: Seq<int>)
    ensures
        at.len() == merged(f, x).len(),
        at.len() <= 65_536,
        at.no_duplicates(),
        forall|k: int|
            0 <= k < at.len() ==> 0 <= #[trigger] at[k] <= f.len() && merged(f, x)[k] == f.push(
                x,
            )[at[k]] && (at[k] < f.len() ==> f[at[k]].window_end != x.window_end
                || f[at[k]].frame_id != x.frame_id),
        forall|i: int|
            #![trigger at.contains(i)]
            0 <= i <= f.len() && (i < f.len() ==> f[i].window_end != x.window_end || f[i].frame_id
                != x.frame_id) && !at.contains(i) ==> at.len() == 65_536 && forall|k: int|
                0 <= k < at.len() ==> {
                    let y = #[trigger] merged(f, x)[k];
                    let z = f.push(x)[i];
                    y.window_end > z.window_end || (y.window_end == z.window_end && y.frame_id
                        >= z.frame_id)
                },
        forall|a: int, b: int|
            0 <= a < b < at.len() ==> {
                let y = #[trigger] merged(f, x)[a];
                let z = #[trigger] merged(f, x)[b];
                y.window_end < z.window_end || (y.window_end == z.window_end && y.frame_id
                    <= z.frame_id)
            },
{
    let keep = |y: FrameView| !same_key(y, x);
    let g = without_key(f, x);
    let p = g.push(x);
    let s = oldest_first(p);
    let m = merged(f, x);
    let inner = crate::order::lemma_filter_positions(f, keep);
    let places = inner.push(f.len() as int);
    let outer = lemma_oldest_first_is_sorted(p);
    let skip = s.len() - m.len();
    let at = Seq::new(m.len(), |k: int| places[outer[k + skip]]);
    assert(forall|k: int| 0 <= k < m.len() ==> #[trigger] m[k] == s[k + skip]);
    assert forall|j: int| 0 <= j < p.len() implies 0 <= #[trigger] places[j] <= f.len() && p[j]
        == f.push(x)[places[j]] && (places[j] < f.len() ==> keep(f[places[j]])) by {
        if j < g.len() {
            assert(places[j] == inner[j]);
            assert(g[j] == f[inner[j]]);
        }
    }
    assert forall|a: int, b: int| 0 <= a < b < p.len() implies #[trigger] places[a]
        < #[trigger] places[b] by {
        assert(places[a] == inner[a]);
        if b < inner.len() {
            assert(inner[a] < inner[b]);
        }
    }
    assert forall|k: int| 0 <= k < at.len() implies 0 <= #[trigger] at[k] <= f.len() && m[k]
        == f.push(x)[at[k]] && (at[k] < f.len() ==> f[at[k]].window_end != x.window_end
        || f[at[k]].frame_id != x.frame_id) by {
        let j = outer[k + skip];
        assert(0 <= j < p.len());
        assert(at[k] == places[j]);
    }
    assert forall|a: int, b: int| 0 <= a < at.len() && 0 <= b < at.len() && a != b implies at[a]
        != at[b] by {
        let c = outer[a + skip];
        let d = outer[b + skip];
        assert(c != d);
        assert(0 <= c < p.len() && 0 <= d < p.len());
        if c < d {
            assert(places[c] < places[d]);
        } else {
            assert(places[d] < places[c]);
        }
    }
    assert forall|i: int|
        #![trigger at.contains(i)]
        0 <= i <= f.len() && (i < f.len() ==> f[i].window_end != x.window_end || f[i].frame_id
            != x.frame_id) && !at.contains(i) implies at.len() == 65_536 && forall|k: int|
        0 <= k < at.len() ==> {
            let y = #[trigger] m[k];
            let z = f.push(x)[i];
            y.window_end > z.window_end || (y.window_end == z.window_end && y.frame_id
                >= z.frame_id)
        } by {
        let j = if i == f.len() {
            g.len() as int
        } else {
            assert(keep(f[i]));
            assert(inner.contains(i));
            choose|j: int| 0 <= j < inner.len() && inner[j] == i
        };
        assert(places[j] == i);
        assert(outer.contains(j));
        let e = choose|e: int| 0 <= e < outer.len() && outer[e] == j;
        assert(s[e] == p[outer[e]]);
        if e >= skip {
            assert(at[e - skip] == i);
            assert(false);
        }
        assert forall|k: int| 0 <= k < at.len() implies {
            let y = #[trigger] m[k];
            let z = f.push(x)[i];
            y.window_end > z.window_end || (y.window_end == z.window_end && y.frame_id
                >= z.frame_id)
        } by {
            let y = s[k + skip];
            let z = s[e];
        }
    }
    at
}

/// Frames are merged one after the other.
pub proof fn lemma_merged_one_by_one(f: Seq<FrameView>, xs: Seq<FrameView>, x: FrameView)
    ensures
        merged_all(f, Seq::empty()) == f,
        merged_all(f, xs.push(x)) == merged(merged_all(f, xs), x),
{
    assert(xs.push(x).drop_last() =~= xs);
}

} // verus!

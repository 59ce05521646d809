//! The frames that the dashboard keeps in memory, and when they are read from disk again.
use vstd::prelude::*;
use crate::frames::{
    latest, lemma_newest_is_shown_first, merge_frame_into_vec, merged, merged_all, newer,
    newest_frames_bounded,
};
use crate::models::{clone_frames, frame_views, AggregatedFrame, FrameView};

verus! {

/// How long, in milliseconds, cached frames count as fresh.
pub const FRAMES_CACHE_TTL_MS: u64 = 5000;

/// Cached frames.
pub struct FramesCacheState {
    /// When the frames were last brought up to date.
    pub refreshed_at_ms: u64,
    /// Whether frames are being read from disk.
    pub refreshing: bool,
    pub frames: Vec<AggregatedFrame>,
    /// Frames recorded while frames are being read from disk, merged when that is done.
    pub pending_pushes: Vec<AggregatedFrame>,
}

/// What the cache holds.
pub struct CacheView {
    pub refreshed_at_ms: u64,
    pub refreshing: bool,
    pub frames: Seq<FrameView>,
    pub pending_pushes: Seq<FrameView>,
}

impl View for FramesCacheState {
    type V = CacheView;

    open spec fn view(&self) -> CacheView {
        CacheView {
            refreshed_at_ms: self.refreshed_at_ms,
            refreshing: self.refreshing,
            frames: frame_views(self.frames@),
            pending_pushes: frame_views(self.pending_pushes@),
        }
    }
}

/// Whether frames wait to be merged only while frames are being read from disk.
pub open spec fn pending_only_while_loading(c: CacheView) -> bool {
    !c.refreshing ==> c.pending_pushes.len() == 0
}

/// What to do about a request for frames.
pub enum FramesLoadDecision {
    /// Answer with these frames.
    Serve(Vec<AggregatedFrame>),
    /// Wait until the load in flight is done, then ask again.
    Wait,
    /// Read the frames from disk, apply them to the cache, and answer with them.
    SyncLoad,
    /// Answer with these frames, and bring the cache up to date in the background.
    ReturnStaleStartBg(Vec<AggregatedFrame>),
}

/// A decision with its frames.
pub enum DecisionView {
    Serve(Seq<FrameView>),
    Wait,
    SyncLoad,
    ReturnStaleStartBg(Seq<FrameView>),
}

impl View for FramesLoadDecision {
    type V = DecisionView;

    open spec fn view(&self) -> DecisionView {
        match self {
            FramesLoadDecision::Serve(v) => DecisionView::Serve(frame_views(v@)),
            FramesLoadDecision::Wait => DecisionView::Wait,
            FramesLoadDecision::SyncLoad => DecisionView::SyncLoad,
            FramesLoadDecision::ReturnStaleStartBg(v) => DecisionView::ReturnStaleStartBg(
                frame_views(v@),
            ),
        }
    }
}

/// Whether the cached frames are fresh at `now_ms`. A clock that went back counts as no time
/// passed.
pub open spec fn is_fresh(c: CacheView, now_ms: u64) -> bool {
    now_ms - c.refreshed_at_ms <= FRAMES_CACHE_TTL_MS
}

/// The decision on a request at `now_ms`.
pub open spec fn load_decision(c: CacheView, now_ms: u64) -> DecisionView {
    if is_fresh(c, now_ms) {
        DecisionView::Serve(c.frames)
    } else if c.refreshing {
        if c.frames.len() > 0 {
            DecisionView::Serve(c.frames)
        } else {
            DecisionView::Wait
        }
    } else if c.frames.len() == 0 {
        DecisionView::SyncLoad
    } else {
        DecisionView::ReturnStaleStartBg(c.frames)
    }
}

/// The decision on a request for the latest frames at `now_ms`.
pub open spec fn latest_decision(c: CacheView, now_ms: u64) -> DecisionView {
    match load_decision(c, now_ms) {
        DecisionView::Serve(f) => DecisionView::Serve(latest(f)),
        DecisionView::Wait => DecisionView::Wait,
        DecisionView::SyncLoad => DecisionView::SyncLoad,
        DecisionView::ReturnStaleStartBg(f) => DecisionView::ReturnStaleStartBg(latest(f)),
    }
}

/// The cache after a request: a load that the decision starts is in flight.
pub open spec fn after_request(c: CacheView, now_ms: u64) -> CacheView {
    CacheView {
        refreshing: match load_decision(c, now_ms) {
            DecisionView::Serve(_) => c.refreshing,
            DecisionView::Wait => c.refreshing,
            DecisionView::SyncLoad => true,
            DecisionView::ReturnStaleStartBg(_) => true,
        },
        ..c
    }
}

/// The cache after a frame was recorded.
pub open spec fn after_record(c: CacheView, x: FrameView, now_ms: u64) -> CacheView {
    if c.refreshing {
        CacheView { pending_pushes: c.pending_pushes.push(x), ..c }
    } else {
        CacheView { refreshed_at_ms: now_ms, frames: merged(c.frames, x), ..c }
    }
}

/// The cache after a load from disk gave `loaded`.
pub open spec fn after_load(c: CacheView, loaded: Seq<FrameView>, now_ms: u64) -> CacheView {
    CacheView {
        refreshed_at_ms: now_ms,
        refreshing: false,
        frames: merged_all(loaded, c.pending_pushes),
        pending_pushes: Seq::empty(),
    }
}

impl Default for FramesCacheState {
    /// An empty cache that was never brought up to date.
    fn default() -> (r: Self)
        ensures
            r@ == (CacheView {
                refreshed_at_ms: 0,
                refreshing: false,
                frames: Seq::empty(),
                pending_pushes: Seq::empty(),
            }),
            pending_only_while_loading(r@),
    {
        let r = FramesCacheState {
            refreshed_at_ms: 0,
            refreshing: false,
            frames: Vec::new(),
            pending_pushes: Vec::new(),
        };
        assert(r@.frames =~= Seq::empty());
        assert(r@.pending_pushes =~= Seq::empty());
        r
    }
}

impl FramesCacheState {
    /// Takes in a frame that was just written to disk. Returns whether requests that wait are to
    /// be woken: they are unless a load is in flight, which takes the frame in when it is done.
    pub fn record_aggregated_frame(&mut self, frame: AggregatedFrame, now_ms: u64) -> (wake: bool)
        ensures
            wake == !old(self)@.refreshing,
            final(self)@ == after_record(old(self)@, frame@, now_ms),
            pending_only_while_loading(old(self)@) ==> pending_only_while_loading(final(self)@),
    {
        let ghost before = self@;
        if self.refreshing {
            let ghost x = frame@;
            self.pending_pushes.push(frame);
            assert(self@.pending_pushes =~= before.pending_pushes.push(x));
            false
        } else {
            merge_frame_into_vec(&mut self.frames, frame);
            self.refreshed_at_ms = now_ms;
            true
        }
    }

    /// Puts frames that were read from disk in the cache, with those recorded meanwhile merged
    /// into `refreshed_frames`.
    pub fn apply_disk_refresh_to_cache(
        &mut self,
        refreshed_frames: &mut Vec<AggregatedFrame>,
        now_ms: u64,
    )
        ensures
            final(self)@ == after_load(old(self)@, frame_views(old(refreshed_frames)@), now_ms),
            frame_views(final(refreshed_frames)@) == final(self)@.frames,
            pending_only_while_loading(old(self)@) ==> pending_only_while_loading(final(self)@),
    {
        let ghost loaded = frame_views(refreshed_frames@);
        let mut pending: Vec<AggregatedFrame> = Vec::new();
        std::mem::swap(&mut pending, &mut self.pending_pushes);
        let ghost items = pending@;
        let ghost xs = frame_views(items);
        assert(xs.take(0) =~= Seq::empty());
        for p in it: pending
            invariant
                it.seq() == items,
                xs == frame_views(items),
                frame_views(refreshed_frames@) == merged_all(loaded, xs.take(it.index() as int)),
        {
            proof {
                let i = it.index() as int;
                assert(xs.take(i + 1).drop_last() =~= xs.take(i));
                assert(xs.take(i + 1).last() == xs[i]);
                assert(p == items[i]);
            }
            merge_frame_into_vec(refreshed_frames, p);
        }
        assert(xs.take(xs.len() as int) =~= xs);
        self.frames = clone_frames(refreshed_frames);
        self.refreshed_at_ms = now_ms;
        self.refreshing = false;
        assert(self@.pending_pushes =~= Seq::empty());
    }

    /// Decides on a request for all frames.
    pub fn load_all_frames_on_pool(&mut self, now_ms: u64) -> (r: FramesLoadDecision)
        ensures
            r@ == load_decision(old(self)@, now_ms),
            final(self)@ == after_request(old(self)@, now_ms),
            pending_only_while_loading(old(self)@) ==> pending_only_while_loading(final(self)@),
    {
        let age_ms = now_ms.saturating_sub(self.refreshed_at_ms);
        if age_ms <= FRAMES_CACHE_TTL_MS {
            return FramesLoadDecision::Serve(clone_frames(&self.frames));
        }
        assert(frame_views(self.frames@).len() == self.frames@.len());
        if self.refreshing {
            if self.frames.len() > 0 {
                return FramesLoadDecision::Serve(clone_frames(&self.frames));
            }
            FramesLoadDecision::Wait
        } else if self.frames.len() == 0 {
            self.refreshing = true;
            FramesLoadDecision::SyncLoad
        } else {
            self.refreshing = true;
            FramesLoadDecision::ReturnStaleStartBg(clone_frames(&self.frames))
        }
    }

    /// Decides on a request for the latest frames.
    pub fn load_latest_frames_for_api(&mut self, now_ms: u64) -> (r: FramesLoadDecision)
        ensures
            r@ == latest_decision(old(self)@, now_ms),
            final(self)@ == after_request(old(self)@, now_ms),
            pending_only_while_loading(old(self)@) ==> pending_only_while_loading(final(self)@),
    {
        let age_ms = now_ms.saturating_sub(self.refreshed_at_ms);
        if age_ms <= FRAMES_CACHE_TTL_MS {
            return FramesLoadDecision::Serve(newest_frames_bounded(self.frames.as_slice()));
        }
        assert(frame_views(self.frames@).len() == self.frames@.len());
        if self.refreshing {
            if self.frames.len() > 0 {
                return FramesLoadDecision::Serve(newest_frames_bounded(self.frames.as_slice()));
            }
            FramesLoadDecision::Wait
        } else if self.frames.len() == 0 {
            self.refreshing = true;
            FramesLoadDecision::SyncLoad
        } else {
            self.refreshing = true;
            FramesLoadDecision::ReturnStaleStartBg(newest_frames_bounded(self.frames.as_slice()))
        }
    }

    /// Whether a request that waits is to ask again: no load is in flight.
    pub fn wait_is_over(&self) -> (b: bool)
        ensures
            b == !self@.refreshing,
    {
        !self.refreshing
    }
}

/// A request starts a load only where none is in flight, and then one is: there is never more
/// than one.
pub proof fn lemma_one_load_at_a_time(c: CacheView, now_ms: u64)
    ensures
        load_decision(c, now_ms) is SyncLoad || load_decision(c, now_ms) is ReturnStaleStartBg ==>
            !c.refreshing && after_request(c, now_ms).refreshing,
        c.refreshing ==> load_decision(c, now_ms) is Serve || load_decision(c, now_ms) is Wait,
{
}

/// Requests wait only for a load in flight, and only where there is nothing to show.
pub proof fn lemma_wait_only_without_frames(c: CacheView, now_ms: u64)
    ensures
        load_decision(c, now_ms) is Wait ==> c.refreshing && c.frames.len() == 0,
{
}

/// After a frame is recorded with no load in flight, the cache stays fresh for the whole time
/// to live: requests are answered from memory, and the frame is first among the latest if
/// nothing cached is newer.
pub proof fn lemma_recorded_frame_is_served(c: CacheView, x: FrameView, now_ms: u64, later_ms: u64)
    requires
        !c.refreshing,
        later_ms - now_ms <= FRAMES_CACHE_TTL_MS,
    ensures
        load_decision(after_record(c, x, now_ms), later_ms) == DecisionView::Serve(
            merged(c.frames, x),
        ),
        latest_decision(after_record(c, x, now_ms), later_ms) == DecisionView::Serve(
            latest(merged(c.frames, x)),
        ),
        after_request(after_record(c, x, now_ms), later_ms) == after_record(c, x, now_ms),
        (forall|i: int| 0 <= i < c.frames.len() ==> !newer(#[trigger] c.frames[i], x)) ==> latest(
            merged(c.frames, x),
        )[0] == x,
{
    if forall|i: int| 0 <= i < c.frames.len() ==> !newer(#[trigger] c.frames[i], x) {
        lemma_newest_is_shown_first(c.frames, x);
    }
}

/// A frame recorded while a load is in flight is merged into what the load gives.
pub proof fn lemma_frame_recorded_during_load_is_kept(
    c: CacheView,
    x: FrameView,
    loaded: Seq<FrameView>,
    recorded_ms: u64,
    now_ms: u64,
)
    requires
        c.refreshing,
    ensures
        after_load(after_record(c, x, recorded_ms), loaded, now_ms).frames == merged(
            merged_all(loaded, c.pending_pushes),
            x,
        ),
{
    assert(c.pending_pushes.push(x).drop_last() =~= c.pending_pushes);
}

/// Frames wait to be merged only while a load is in flight: that holds of a new cache, and
/// requests, recorded frames and finished loads keep it.
pub proof fn lemma_pending_only_while_loading(
    c: CacheView,
    x: FrameView,
    loaded: Seq<FrameView>,
    now_ms: u64,
)
    requires
        pending_only_while_loading(c),
    ensures
        pending_only_while_loading(after_request(c, now_ms)),
        pending_only_while_loading(after_record(c, x, now_ms)),
        pending_only_while_loading(after_load(c, loaded, now_ms)),
{
}

/// Once a load is applied, the cache is fresh and requests get what it holds.
pub proof fn lemma_load_ends_waiting(c: CacheView, loaded: Seq<FrameView>, now_ms: u64)
    ensures
        !after_load(c, loaded, now_ms).refreshing,
        load_decision(after_load(c, loaded, now_ms), now_ms) == DecisionView::Serve(
            merged_all(loaded, c.pending_pushes),
        ),
{
}

/// What a request for all frames is answered. Frames brought up to date no more than five seconds
/// ago are served. Older ones are served while a load is in flight; without one they are served,
/// and a load is started. Where there are none, a request waits for the load in flight, or makes
/// one itself.
pub proof fn lemma_what_a_request_is_answered(c: CacheView, now_ms: u64)
    ensures
        now_ms <= c.refreshed_at_ms + 5000 ==> load_decision(c, now_ms) == DecisionView::Serve(
            c.frames,
        ),
        now_ms > c.refreshed_at_ms + 5000 && c.frames.len() > 0 && c.refreshing ==> load_decision(
            c,
            now_ms,
        ) == DecisionView::Serve(c.frames),
        now_ms > c.refreshed_at_ms + 5000 && c.frames.len() > 0 && !c.refreshing ==> load_decision(
            c,
            now_ms,
        ) == DecisionView::ReturnStaleStartBg(c.frames),
        now_ms > c.refreshed_at_ms + 5000 && c.frames.len() == 0 && c.refreshing ==> load_decision(
            c,
            now_ms,
        ) is Wait,
        now_ms > c.refreshed_at_ms + 5000 && c.frames.len() == 0 && !c.refreshing ==> load_decision(
            c,
            now_ms,
        ) is SyncLoad,
{
}

/// A request for the latest frames is answered as one for all, with the latest of the same frames.
pub proof fn lemma_latest_answer_is_of_the_same_frames(c: CacheView, now_ms: u64)
    ensures
        load_decision(c, now_ms) is Serve <==> latest_decision(c, now_ms) == DecisionView::Serve(
            latest(c.frames),
        ),
        load_decision(c, now_ms) is ReturnStaleStartBg <==> latest_decision(c, now_ms)
            == DecisionView::ReturnStaleStartBg(latest(c.frames)),
        load_decision(c, now_ms) is Wait <==> latest_decision(c, now_ms) is Wait,
        load_decision(c, now_ms) is SyncLoad <==> latest_decision(c, now_ms) is SyncLoad,
{
}

/// A request changes nothing but that a load it starts is in flight from then on.
pub proof fn lemma_request_only_starts_a_load(c: CacheView, now_ms: u64)
    ensures
        after_request(c, now_ms).frames == c.frames,
        after_request(c, now_ms).pending_pushes == c.pending_pushes,
        after_request(c, now_ms).refreshed_at_ms == c.refreshed_at_ms,
        after_request(c, now_ms).refreshing <==> c.refreshing || now_ms > c.refreshed_at_ms + 5000,
{
}

/// A recorded frame is merged at once, and the frames are then up to date, unless a load is in
/// flight; then it waits behind those recorded before it. A load puts what it read, with all that
/// waited merged in their order, in place of the frames, and ends.
pub proof fn lemma_recorded_and_loaded_frames(
    c: CacheView,
    x: FrameView,
    loaded: Seq<FrameView>,
    now_ms: u64,
)
    ensures
        c.refreshing ==> after_record(c, x, now_ms).pending_pushes == c.pending_pushes + seq![x]
            && after_record(c, x, now_ms).frames == c.frames && after_record(
            c,
            x,
            now_ms,
        ).refreshed_at_ms == c.refreshed_at_ms && after_record(c, x, now_ms).refreshing,
        !c.refreshing ==> after_record(c, x, now_ms).frames == merged(c.frames, x) && after_record(
            c,
            x,
            now_ms,
        ).refreshed_at_ms == now_ms && after_record(c, x, now_ms).pending_pushes
            == c.pending_pushes && !after_record(c, x, now_ms).refreshing,
        after_load(c, loaded, now_ms).frames == merged_all(loaded, c.pending_pushes),
        after_load(c, loaded, now_ms).refreshed_at_ms == now_ms,
        !after_load(c, loaded, now_ms).refreshing,
        after_load(c, loaded, now_ms).pending_pushes.len() == 0,
{
    assert(c.pending_pushes.push(x) =~= c.pending_pushes + seq![x]);
}

/// What is said of a cache is what it holds.
pub proof fn lemma_cache_says_what_it_holds(c: &FramesCacheState)
    ensures
        c@.refreshed_at_ms == c.refreshed_at_ms,
        c@.refreshing == c.refreshing,
        c@.frames == frame_views(c.frames@),
        c@.pending_pushes == frame_views(c.pending_pushes@),
{
}

/// What is said of an answer is what it holds.
pub proof fn lemma_answer_says_what_it_holds(frames: Vec<AggregatedFrame>)
    ensures
        FramesLoadDecision::Serve(frames)@ == DecisionView::Serve(frame_views(frames@)),
        FramesLoadDecision::ReturnStaleStartBg(frames)@ == DecisionView::ReturnStaleStartBg(
            frame_views(frames@),
        ),
        FramesLoadDecision::Wait@ == DecisionView::Wait,
        FramesLoadDecision::SyncLoad@ == DecisionView::SyncLoad,
{
}

} // verus!

//! Raw progress of store garbage collection.
//!
//! Eviction and compaction report what they do as plain values, so that the storage layer holds no
//! event types of those who show them. A sink gets the reports of one call.
use vstd::prelude::*;

verus! {

/// Receives what a pass of garbage collection reports.
///
/// A pass reports its beginning only once it knows that there is work to do (the store is above the
/// limit), progress once per evicted bucket or compacted group, and its end only if it was not
/// interrupted.
pub trait GcEventSink {
    /// An eviction pass started, targeting `target_fragments` total fragments.
    fn eviction_begin(&self, target_fragments: u64);

    /// `evicted` fragments were dropped from one bucket.
    fn eviction_progress(&self, evicted: u64);

    /// An eviction pass finished, `total_evicted` fragments dropped in total.
    fn eviction_end(&self, total_evicted: u64);

    /// A compaction pass started, targeting `target_bytes` total store size.
    fn compaction_begin(&self, target_bytes: u64);

    /// `compacted_bytes` bytes were reclaimed from one group.
    fn compaction_progress(&self, compacted_bytes: u64);

    /// A compaction pass finished, `total_compacted_bytes` reclaimed in total.
    fn compaction_end(&self, total_compacted_bytes: u64);
}

/// One report of a pass.
#[derive(Clone, Copy, Debug, PartialEq, Eq, Structural)]
pub enum GcEvent {
    EvictionBegin(u64),
    EvictionProgress(u64),
    EvictionEnd(u64),
    CompactionBegin(u64),
    CompactionProgress(u64),
    CompactionEnd(u64),
}

/// Whether a sink was told of an event.
pub open spec fn told<S: GcEventSink>(sink: &S, event: GcEvent) -> bool {
    match event {
        GcEvent::EvictionBegin(n) => call_ensures(S::eviction_begin, (sink, n), ()),
        GcEvent::EvictionProgress(n) => call_ensures(S::eviction_progress, (sink, n), ()),
        GcEvent::EvictionEnd(n) => call_ensures(S::eviction_end, (sink, n), ()),
        GcEvent::CompactionBegin(n) => call_ensures(S::compaction_begin, (sink, n), ()),
        GcEvent::CompactionProgress(n) => call_ensures(S::compaction_progress, (sink, n), ()),
        GcEvent::CompactionEnd(n) => call_ensures(S::compaction_end, (sink, n), ()),
    }
}

/// Tells a sink of the events of a pass, in their order.
pub fn deliver<S: GcEventSink>(events: &Vec<GcEvent>, sink: &S)
    ensures
        forall|i: int| 0 <= i < events@.len() ==> told(sink, #[trigger] events@[i]),
{
    let mut i: usize = 0;
    while i < events.len()
        invariant
            i <= events@.len(),
            forall|k: int| 0 <= k < i ==> told(sink, #[trigger] events@[k]),
        decreases events@.len() - i,
    {
        match events[i] {
            GcEvent::EvictionBegin(n) => sink.eviction_begin(n),
            GcEvent::EvictionProgress(n) => sink.eviction_progress(n),
            GcEvent::EvictionEnd(n) => sink.eviction_end(n),
            GcEvent::CompactionBegin(n) => sink.compaction_begin(n),
            GcEvent::CompactionProgress(n) => sink.compaction_progress(n),
            GcEvent::CompactionEnd(n) => sink.compaction_end(n),
        }
        i = i + 1;
    }
}

/// Holds what builds sinks, once it was registered.
pub struct GcEventSinkProvider<P> {
    pub provider: Option<P>,
}

/// A holder without a provider.
pub fn no_gc_event_sink_provider<P>() -> (r: GcEventSinkProvider<P>)
    ensures
        r.provider is None,
{
    GcEventSinkProvider { provider: None }
}

/// Registers what builds sinks. The first registration wins.
pub fn set_gc_event_sink_provider<P>(holder: &mut GcEventSinkProvider<P>, provider: P)
    ensures
        final(holder).provider == match old(holder).provider {
            Some(first) => Some(first),
            None => Some(provider),
        },
{
    if holder.provider.is_none() {
        holder.provider = Some(provider);
    }
}

/// A sink for the operation at hand: what the provider builds, if one is registered.
pub fn current_gc_event_sink<S, P: Fn() -> Option<S>>(holder: &GcEventSinkProvider<P>) -> (r:
    Option<S>)
    requires
        holder.provider is Some ==> call_requires(holder.provider->0, ()),
    ensures
        holder.provider is None ==> r is None,
        holder.provider is Some ==> call_ensures(holder.provider->0, (), r),
{
    match &holder.provider {
        Some(provider) => provider(),
        None => None,
    }
}

} // verus!

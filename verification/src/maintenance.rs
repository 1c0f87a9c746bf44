//! When garbage collection runs.
use vstd::prelude::*;

verus! {

/// The least capacity that the evictor enforces.
pub const MIN_EVICTOR_CAPACITY: usize = 0x10_0000;

/// The pause between two eviction passes, in milliseconds, unless set otherwise.
pub const DEFAULT_EVICTION_DELAY: u64 = 10_000;

/// The pause before a compaction pass, in milliseconds, unless set otherwise: a day.
pub const DEFAULT_COMPACTION_DELAY: u64 = 86_400_000;

/// The limits of a store, and the pauses between the passes that enforce them, in milliseconds.
#[derive(Clone, Copy, Debug, PartialEq, Eq, Structural)]
pub struct ImmutableStoreCreateOptions {
    pub max_capacity: Option<usize>,
    pub eviction_delay: Option<u64>,
    pub max_size: Option<usize>,
    pub compaction_delay: Option<u64>,
}

impl ImmutableStoreCreateOptions {
    /// No limits.
    pub fn none() -> (r: ImmutableStoreCreateOptions)
        ensures
            r.max_capacity is None,
            r.eviction_delay is None,
            r.max_size is None,
            r.compaction_delay is None,
    {
        ImmutableStoreCreateOptions {
            max_capacity: None,
            eviction_delay: None,
            max_size: None,
            compaction_delay: None,
        }
    }
}

/// The background tasks to start for a store: an evictor for its capacity, a compactor for its size.
/// Without a limit, or with a limit of zero, there is none.
pub fn spawn_gc(options: &ImmutableStoreCreateOptions) -> (r: (Option<Evictor>, Option<Compactor>))
    ensures
        r.0 == match options.max_capacity {
            Some(max) => if max > 0 {
                Some(evictor_for(max, options.eviction_delay))
            } else {
                None
            },
            None => None,
        },
        r.1 == match options.max_size {
            Some(max) => if max > 0 {
                Some(compactor_for(max, options.compaction_delay))
            } else {
                None
            },
            None => None,
        },
{
    let evicts = match options.max_capacity {
        Some(max) => if max > 0 {
            Some(evictor(max, options.eviction_delay))
        } else {
            None
        },
        None => None,
    };
    let compacts = match options.max_size {
        Some(max) => if max > 0 {
            Some(compactor(max, options.compaction_delay))
        } else {
            None
        },
        None => None,
    };
    (evicts, compacts)
}

/// The task that enforces a capacity. It sleeps first, so that a short run ends before the first
/// pass.
#[derive(Clone, Copy, Debug, PartialEq, Eq, Structural)]
pub struct Evictor {
    pub max_capacity: usize,
    pub delay: u64,
}

/// What the evictor does next.
#[derive(Clone, Copy, Debug, PartialEq, Eq, Structural)]
pub enum EvictorAction {
    /// Sleep for some milliseconds, then ask whether the store is still there.
    Sleep(u64),
    /// Evict down to a capacity. How it went does not matter.
    Evict(usize),
    /// End: the store is gone.
    Exit,
}

/// What became of the evictor's last action.
#[derive(Clone, Copy, Debug, PartialEq, Eq, Structural)]
pub enum EvictorEvent {
    /// The task starts.
    Started,
    /// It slept, and the store is there.
    Awake,
    /// It slept, and the store is gone.
    StoreGone,
    /// A pass ended.
    Evicted,
}

/// The evictor of a capacity.
pub open spec fn evictor_for(max_capacity: usize, delay: Option<u64>) -> Evictor {
    Evictor {
        max_capacity: if max_capacity > MIN_EVICTOR_CAPACITY {
            max_capacity
        } else {
            MIN_EVICTOR_CAPACITY
        },
        delay: match delay {
            Some(d) => d,
            None => DEFAULT_EVICTION_DELAY,
        },
    }
}

/// An evictor that enforces a capacity at intervals.
pub fn evictor(max_capacity: usize, eviction_delay: Option<u64>) -> (r: Evictor)
    ensures
        r == evictor_for(max_capacity, eviction_delay),
{
    Evictor {
        max_capacity: if max_capacity > MIN_EVICTOR_CAPACITY {
            max_capacity
        } else {
            MIN_EVICTOR_CAPACITY
        },
        delay: match eviction_delay {
            Some(d) => d,
            None => DEFAULT_EVICTION_DELAY,
        },
    }
}

impl Evictor {
    /// What is done after an event.
    pub open spec fn action_on(self, event: EvictorEvent) -> EvictorAction {
        match event {
            EvictorEvent::StoreGone => EvictorAction::Exit,
            EvictorEvent::Awake => EvictorAction::Evict(self.max_capacity),
            _ => EvictorAction::Sleep(self.delay),
        }
    }

    /// What to do after an event.
    pub fn step(&self, event: EvictorEvent) -> (r: EvictorAction)
        ensures
            r == self.action_on(event),
            r == match event {
                EvictorEvent::Started | EvictorEvent::Evicted => EvictorAction::Sleep(self.delay),
                EvictorEvent::Awake => EvictorAction::Evict(self.max_capacity),
                EvictorEvent::StoreGone => EvictorAction::Exit,
            },
    {
        match event {
            EvictorEvent::Started | EvictorEvent::Evicted => EvictorAction::Sleep(self.delay),
            EvictorEvent::Awake => EvictorAction::Evict(self.max_capacity),
            EvictorEvent::StoreGone => EvictorAction::Exit,
        }
    }
}

/// The task that enforces a size, step by step.
#[derive(Clone, Copy, Debug, PartialEq, Eq, Structural)]
pub struct Compactor {
    pub max_size: usize,
    pub delay: u64,
    /// Where the pass goes on, if one is on its way.
    pub at: Option<usize>,
}

/// What the compactor does next.
#[derive(Clone, Copy, Debug, PartialEq, Eq, Structural)]
pub enum CompactorAction {
    /// Sleep for some milliseconds, then ask whether the store is still there.
    Sleep(u64),
    /// Ask whether the store is still there.
    Check,
    /// Compact one step towards a size.
    Compact(usize, Option<usize>),
    /// End: the store is gone, or a step failed.
    Exit,
}

/// What became of the compactor's last action.
#[derive(Clone, Copy, Debug, PartialEq, Eq, Structural)]
pub enum CompactorEvent {
    /// The task starts. A pass that an earlier run did not finish goes on here.
    Started(Option<usize>),
    /// The store is there.
    StoreHere,
    /// The store is gone.
    StoreGone,
    /// A step ended, and the pass goes on here, or is done.
    Stepped(Option<usize>),
    /// A step failed.
    Failed,
}

/// The compactor of a size.
pub open spec fn compactor_for(max_size: usize, delay: Option<u64>) -> Compactor {
    Compactor {
        max_size,
        delay: match delay {
            Some(d) => d,
            None => DEFAULT_COMPACTION_DELAY,
        },
        at: None,
    }
}

/// A compactor that enforces a size at intervals.
pub fn compactor(max_size: usize, compaction_delay: Option<u64>) -> (r: Compactor)
    ensures
        r == compactor_for(max_size, compaction_delay),
{
    Compactor {
        max_size,
        delay: match compaction_delay {
            Some(d) => d,
            None => DEFAULT_COMPACTION_DELAY,
        },
        at: None,
    }
}

impl Compactor {
    /// What is done after an event.
    pub open spec fn action_on(self, event: CompactorEvent) -> CompactorAction {
        match event {
            CompactorEvent::StoreGone | CompactorEvent::Failed => CompactorAction::Exit,
            CompactorEvent::StoreHere => CompactorAction::Compact(self.max_size, self.at),
            _ => if self.resumes(event) is Some {
                CompactorAction::Check
            } else {
                CompactorAction::Sleep(self.delay)
            },
        }
    }

    /// Where the pass goes on after an event.
    pub open spec fn resumes(self, event: CompactorEvent) -> Option<usize> {
        match event {
            CompactorEvent::Started(at) => at,
            CompactorEvent::Stepped(at) => at,
            _ => self.at,
        }
    }

    /// What to do after an event. Between the steps of a pass there is no pause; before a fresh pass
    /// there is.
    pub fn step(&mut self, event: CompactorEvent) -> (r: CompactorAction)
        ensures
            *final(self) == (Compactor { at: old(self).resumes(event), ..*old(self) }),
            r == match event {
                CompactorEvent::Started(at) | CompactorEvent::Stepped(at) => if at is None {
                    CompactorAction::Sleep(old(self).delay)
                } else {
                    CompactorAction::Check
                },
                CompactorEvent::StoreHere => CompactorAction::Compact(
                    old(self).max_size,
                    old(self).at,
                ),
                CompactorEvent::StoreGone | CompactorEvent::Failed => CompactorAction::Exit,
            },
            r == old(self).action_on(event),
    {
        match event {
            CompactorEvent::Started(at) | CompactorEvent::Stepped(at) => {
                self.at = at;
                if at.is_none() {
                    CompactorAction::Sleep(self.delay)
                } else {
                    CompactorAction::Check
                }
            },
            CompactorEvent::StoreHere => CompactorAction::Compact(self.max_size, self.at),
            CompactorEvent::StoreGone | CompactorEvent::Failed => CompactorAction::Exit,
        }
    }
}

/// One pass of compaction, then eviction.
#[derive(Clone, Copy, Debug, PartialEq, Eq, Structural)]
pub struct GcPass {
    pub max_size: usize,
    pub max_capacity: usize,
    pub sync_data: bool,
}

/// What a pass does next.
#[derive(Clone, Copy, Debug, PartialEq, Eq, Structural)]
pub enum GcAction {
    /// Compact one step towards a size, from a group on.
    Compact { max_size: usize, at: Option<usize>, sync_data: bool },
    /// Evict down to a capacity. How it went does not matter.
    Evict { max_capacity: usize, sync_data: bool },
    /// End.
    Done,
}

/// What became of the last action of a pass.
#[derive(Clone, Copy, Debug, PartialEq, Eq, Structural)]
pub enum GcStep {
    /// The pass starts. One that an earlier run did not finish goes on here.
    Started(Option<usize>),
    /// A step ended, and the compaction goes on here, or is done.
    Compacted(Option<usize>),
    /// A step failed.
    CompactionFailed,
    /// The eviction ended.
    Evicted,
}

impl GcPass {
    /// The eviction, where there is one to do.
    pub open spec fn eviction(self) -> GcAction {
        if self.max_capacity > 0 {
            GcAction::Evict { max_capacity: self.max_capacity, sync_data: self.sync_data }
        } else {
            GcAction::Done
        }
    }

    /// A step of the compaction.
    pub open spec fn compaction(self, at: Option<usize>) -> GcAction {
        GcAction::Compact { max_size: self.max_size, at, sync_data: self.sync_data }
    }

    /// What is done after an event.
    pub open spec fn action_on(self, event: GcStep) -> GcAction {
        let compacts = match event {
            GcStep::Started(at) => if self.max_size > 0 {
                Some(at)
            } else {
                None
            },
            GcStep::Compacted(Some(at)) => Some(Some(at)),
            _ => None,
        };
        if compacts is Some {
            self.compaction(compacts->0)
        } else if event == GcStep::Evicted {
            GcAction::Done
        } else {
            self.eviction()
        }
    }

    /// What to do after an event. A limit of zero leaves its part out. A compaction step that fails
    /// ends the compaction, not the pass.
    pub fn gc(&self, event: GcStep) -> (r: GcAction)
        ensures
            r == match event {
                GcStep::Started(at) => if self.max_size > 0 {
                    self.compaction(at)
                } else {
                    self.eviction()
                },
                GcStep::Compacted(Some(at)) => self.compaction(Some(at)),
                GcStep::Compacted(None) | GcStep::CompactionFailed => self.eviction(),
                GcStep::Evicted => GcAction::Done,
            },
            r == self.action_on(event),
    {
        match event {
            GcStep::Started(at) => if self.max_size > 0 {
                return GcAction::Compact {
                    max_size: self.max_size,
                    at,
                    sync_data: self.sync_data,
                };
            },
            GcStep::Compacted(Some(at)) => {
                return GcAction::Compact {
                    max_size: self.max_size,
                    at: Some(at),
                    sync_data: self.sync_data,
                };
            },
            GcStep::Compacted(None) | GcStep::CompactionFailed => {},
            GcStep::Evicted => {
                return GcAction::Done;
            },
        }
        if self.max_capacity > 0 {
            GcAction::Evict { max_capacity: self.max_capacity, sync_data: self.sync_data }
        } else {
            GcAction::Done
        }
    }
}

/// Running totals of what was loaded from disk. Loading only ever adds, so that the totals are a
/// lower bound: once they are over a limit, so is the store, and one pass is fired, once for each
/// limit.
#[derive(Clone, Copy, Debug, PartialEq, Eq, Structural)]
pub struct GcCounters {
    pub total_size: u64,
    pub fragment_count: usize,
    /// The limit in bytes; zero disables the compaction trigger.
    pub max_size: u64,
    /// The limit in fragments; zero disables the eviction trigger.
    pub max_capacity: usize,
    pub sync_data: bool,
    pub compaction_fired: bool,
    pub eviction_fired: bool,
    /// The store to run a pass on, once it is known.
    pub store: Option<u64>,
}

/// The sum of two numbers below `span`, wrapped around.
pub open spec fn wrapped(a: int, b: int, span: int) -> int {
    if a + b >= span {
        a + b - span
    } else {
        a + b
    }
}

impl GcCounters {
    /// Whether loading some bytes fires a compaction.
    pub open spec fn compacts_at(self, bytes: u64) -> bool {
        self.max_size != 0 && bytes != 0 && !self.compaction_fired && wrapped(
            self.total_size as int,
            bytes as int,
            0x1_0000_0000_0000_0000,
        ) > self.max_size
    }

    /// Whether loading some fragments fires an eviction.
    pub open spec fn evicts_at(self, count: usize) -> bool {
        self.max_capacity != 0 && count != 0 && !self.eviction_fired && wrapped(
            self.fragment_count as int,
            count as int,
            usize::MAX + 1,
        ) > self.max_capacity
    }

    /// Counters of a store that has loaded nothing, without limits.
    pub fn new() -> (r: GcCounters)
        ensures
            r == (GcCounters {
                total_size: 0,
                fragment_count: 0,
                max_size: 0,
                max_capacity: 0,
                sync_data: false,
                compaction_fired: false,
                eviction_fired: false,
                store: None,
            }),
    {
        GcCounters {
            total_size: 0,
            fragment_count: 0,
            max_size: 0,
            max_capacity: 0,
            sync_data: false,
            compaction_fired: false,
            eviction_fired: false,
            store: None,
        }
    }

    /// Sets the limits. A limit of zero leaves its trigger disabled.
    pub fn set_caps(&mut self, max_size: usize, max_capacity: usize, sync_data: bool)
        ensures
            *final(self) == (GcCounters {
                max_size: max_size as u64,
                max_capacity,
                sync_data,
                ..*old(self)
            }),
    {
        self.max_size = max_size as u64;
        self.max_capacity = max_capacity;
        self.sync_data = sync_data;
    }

    /// The counters once a store was recorded: the first record stays.
    pub open spec fn with_store(self, store: u64) -> GcCounters {
        GcCounters {
            store: match self.store {
                Some(first) => Some(first),
                None => Some(store),
            },
            ..self
        }
    }

    /// The compaction or eviction that falls due, and on which store, where one is recorded.
    pub open spec fn due(self, compaction: bool) -> Option<(u64, GcPass)> {
        match self.store {
            None => None,
            Some(store) => Some(
                (
                    store,
                    GcPass {
                        max_size: if compaction {
                            self.max_size as usize
                        } else {
                            0
                        },
                        max_capacity: if compaction {
                            0
                        } else {
                            self.max_capacity
                        },
                        sync_data: self.sync_data,
                    },
                ),
            ),
        }
    }

    /// Records the store to run a pass on, by its number. The first record stays.
    pub fn set_store(&mut self, store: u64)
        ensures
            *final(self) == old(self).with_store(store),
    {
        if self.store.is_none() {
            self.store = Some(store);
        }
    }

    /// Counts some bytes that were just loaded. Gives the compaction to run, and on which store,
    /// when the total crosses the limit for the first time and the store is known.
    pub fn add_loaded_size(&mut self, bytes: u64) -> (r: Option<(u64, GcPass)>)
        ensures
            *final(self) == after_size(*old(self), bytes),
            *final(self) == (GcCounters {
                total_size: if old(self).max_size == 0 {
                    old(self).total_size
                } else {
                    wrapped(
                        old(self).total_size as int,
                        bytes as int,
                        0x1_0000_0000_0000_0000,
                    ) as u64
                },
                compaction_fired: old(self).compaction_fired || old(self).compacts_at(bytes),
                ..*old(self)
            }),
            r == if old(self).compacts_at(bytes) {
                old(self).due(true)
            } else {
                None
            },
    {
        if self.max_size == 0 || bytes == 0 {
            return None;
        }
        self.total_size = self.total_size.wrapping_add(bytes);
        if self.total_size > self.max_size && !self.compaction_fired {
            self.compaction_fired = true;
            return self.fire(true);
        }
        None
    }

    /// Counts some fragments that were just loaded. Gives the eviction to run, and on which store,
    /// when the total crosses the limit for the first time and the store is known.
    pub fn add_loaded_fragments(&mut self, count: usize) -> (r: Option<(u64, GcPass)>)
        ensures
            *final(self) == after_fragments(*old(self), count),
            *final(self) == (GcCounters {
                fragment_count: if old(self).max_capacity == 0 {
                    old(self).fragment_count
                } else {
                    wrapped(
                        old(self).fragment_count as int,
                        count as int,
                        usize::MAX + 1,
                    ) as usize
                },
                eviction_fired: old(self).eviction_fired || old(self).evicts_at(count),
                ..*old(self)
            }),
            r == if old(self).evicts_at(count) {
                old(self).due(false)
            } else {
                None
            },
    {
        if self.max_capacity == 0 || count == 0 {
            return None;
        }
        self.fragment_count = self.fragment_count.wrapping_add(count);
        if self.fragment_count > self.max_capacity && !self.eviction_fired {
            self.eviction_fired = true;
            return self.fire(false);
        }
        None
    }

    /// The pass to run, where the store is known.
    fn fire(&self, compaction: bool) -> (r: Option<(u64, GcPass)>)
        ensures
            r == self.due(compaction),
    {
        match self.store {
            None => None,
            Some(store) => Some(
                (
                    store,
                    GcPass {
                        max_size: if compaction {
                            self.max_size as usize
                        } else {
                            0
                        },
                        max_capacity: if compaction {
                            0
                        } else {
                            self.max_capacity
                        },
                        sync_data: self.sync_data,
                    },
                ),
            ),
        }
    }
}

/// What is run of a pass that fell due: all of it if its store is one of those that are still there,
/// and nothing otherwise.
pub open spec fn runs(due: Option<(u64, GcPass)>, here: Seq<u64>) -> Option<(u64, GcPass)> {
    if due is Some && here.contains((due->0).0) {
        due
    } else {
        None
    }
}

/// Gives a pass that fell due, unless its store is gone. `here` are the stores that are still there.
pub fn run_if_here(due: Option<(u64, GcPass)>, here: &Vec<u64>) -> (r: Option<(u64, GcPass)>)
    ensures
        r == runs(due, here@),
{
    match due {
        None => None,
        Some((store, pass)) => {
            let mut i: usize = 0;
            while i < here.len()
                invariant
                    i <= here@.len(),
                    due == Some((store, pass)),
                    forall|k: int| 0 <= k < i ==> #[trigger] here@[k] != store,
                decreases here@.len() - i,
            {
                if here[i] == store {
                    assert(here@[i as int] == store);
                    return due;
                }
                i = i + 1;
            }
            None
        },
    }
}

/// A pass runs on the store that was recorded first. A store that is recorded later changes nothing,
/// and where the first is gone no pass runs, whatever else is there.
pub proof fn law_passes_run_on_the_first_store(
    counters: GcCounters,
    first: u64,
    second: u64,
    compaction: bool,
    here: Seq<u64>,
)
    requires
        counters.store is None,
    ensures
        ({
            let once = counters.with_store(first);
            let twice = once.with_store(second);
            &&& twice == once
            &&& twice.due(compaction) is Some
            &&& (twice.due(compaction)->0).0 == first
            &&& runs(twice.due(compaction), here) == if here.contains(first) {
                twice.due(compaction)
            } else {
                None
            }
        }),
{
}

/// The counters after some bytes were loaded.
pub open spec fn after_size(counters: GcCounters, bytes: u64) -> GcCounters {
    GcCounters {
        total_size: if counters.max_size == 0 {
            counters.total_size
        } else {
            wrapped(counters.total_size as int, bytes as int, 0x1_0000_0000_0000_0000) as u64
        },
        compaction_fired: counters.compaction_fired || counters.compacts_at(bytes),
        ..counters
    }
}

/// The counters after some fragments were loaded.
pub open spec fn after_fragments(counters: GcCounters, count: usize) -> GcCounters {
    GcCounters {
        fragment_count: if counters.max_capacity == 0 {
            counters.fragment_count
        } else {
            wrapped(counters.fragment_count as int, count as int, usize::MAX + 1) as usize
        },
        eviction_fired: counters.eviction_fired || counters.evicts_at(count),
        ..counters
    }
}

/// Each trigger fires at most once: after it fired, nothing that is loaded fires it again.
pub proof fn law_each_trigger_fires_once(
    counters: GcCounters,
    bytes: u64,
    more_bytes: u64,
    count: usize,
    more_count: usize,
)
    ensures
        counters.compacts_at(bytes) ==> !after_size(counters, bytes).compacts_at(more_bytes),
        counters.evicts_at(count) ==> !after_fragments(counters, count).evicts_at(more_count),
{
}

/// A limit of zero keeps its trigger from ever firing.
pub proof fn law_zero_limits_never_fire(counters: GcCounters, bytes: u64, count: usize)
    ensures
        counters.max_size == 0 ==> !counters.compacts_at(bytes),
        counters.max_capacity == 0 ==> !counters.evicts_at(count),
{
}

/// A trigger fires when what was loaded goes above the limit, and no earlier: the compaction when so
/// many bytes were loaded, the eviction when so many fragments were. What is loaded is counted in
/// full, as long as the counter can hold it.
pub proof fn law_triggers_fire_above_their_limits(counters: GcCounters, bytes: u64, count: usize)
    requires
        !counters.compaction_fired,
        !counters.eviction_fired,
        counters.total_size <= counters.max_size,
        counters.fragment_count <= counters.max_capacity,
        counters.total_size + bytes <= u64::MAX,
        counters.fragment_count + count <= usize::MAX,
    ensures
        counters.max_size > 0 ==> (counters.compacts_at(bytes) <==> counters.total_size + bytes
            > counters.max_size),
        counters.max_capacity > 0 ==> (counters.evicts_at(count) <==> counters.fragment_count
            + count > counters.max_capacity),
        counters.max_size > 0 ==> after_size(counters, bytes).total_size == counters.total_size
            + bytes,
        counters.max_capacity > 0 ==> after_fragments(counters, count).fragment_count
            == counters.fragment_count + count,
        after_size(counters, bytes).compaction_fired == counters.compacts_at(bytes),
        after_fragments(counters, count).eviction_fired == counters.evicts_at(count),
        after_size(counters, bytes) == (GcCounters {
            total_size: after_size(counters, bytes).total_size,
            compaction_fired: after_size(counters, bytes).compaction_fired,
            ..counters
        }),
        after_fragments(counters, count) == (GcCounters {
            fragment_count: after_fragments(counters, count).fragment_count,
            eviction_fired: after_fragments(counters, count).eviction_fired,
            ..counters
        }),
{
}

/// The pass that a trigger starts does the one thing that the trigger is for: after the compaction
/// trigger it compacts to the limit and evicts nothing, after the eviction trigger it evicts to the
/// limit and compacts nothing.
pub proof fn law_triggered_pass_does_one_thing(counters: GcCounters, compaction: bool, at: Option<
    usize,
>)
    requires
        counters.store is Some,
        counters.max_size <= usize::MAX,
        compaction ==> counters.max_size > 0,
        !compaction ==> counters.max_capacity > 0,
    ensures
        ({
            let due = counters.due(compaction);
            let (store, pass) = due->0;
            &&& due is Some
            &&& store == counters.store->0
            &&& compaction ==> pass.action_on(GcStep::Started(at)) == (GcAction::Compact {
                max_size: counters.max_size as usize,
                at,
                sync_data: counters.sync_data,
            }) && pass.action_on(GcStep::Compacted(None)) == GcAction::Done
            &&& !compaction ==> pass.action_on(GcStep::Started(at)) == (GcAction::Evict {
                max_capacity: counters.max_capacity,
                sync_data: counters.sync_data,
            })
        }),
{
}

/// A pass compacts, where it has a size, until the compaction is done or fails, each step from where
/// the one before it ended. Then it evicts, where it has a capacity. Then it is done.
pub proof fn law_pass_compacts_before_it_evicts(pass: GcPass, event: GcStep)
    ensures
        ({
            let action = pass.action_on(event);
            let over = match event {
                GcStep::Started(_) => pass.max_size == 0,
                GcStep::Compacted(at) => at is None,
                GcStep::CompactionFailed => true,
                GcStep::Evicted => false,
            };
            &&& action is Evict <==> over && pass.max_capacity > 0
            &&& action is Evict ==> action == (GcAction::Evict {
                max_capacity: pass.max_capacity,
                sync_data: pass.sync_data,
            })
            &&& action is Done <==> event is Evicted || (over && pass.max_capacity == 0)
            &&& event is Started && pass.max_size > 0 ==> action == (GcAction::Compact {
                max_size: pass.max_size,
                at: event->Started_0,
                sync_data: pass.sync_data,
            })
            &&& event is Compacted && event->Compacted_0 is Some ==> action == (GcAction::Compact {
                max_size: pass.max_size,
                at: event->Compacted_0,
                sync_data: pass.sync_data,
            })
        }),
{
}

/// The evictor never evicts below its least capacity, and evicts only after it slept and found its
/// store. The compactor sleeps only between passes: while a pass is on its way it goes on where the
/// last step ended, as long as the store is there and no step failed.
pub proof fn law_tasks_end_with_their_store(
    max_capacity: usize,
    max_size: usize,
    delay: Option<u64>,
    compactor: Compactor,
    at: usize,
)
    ensures
        ({
            let evictor = evictor_for(max_capacity, delay);
            &&& evictor.max_capacity >= max_capacity && evictor.max_capacity
                >= MIN_EVICTOR_CAPACITY && (evictor.max_capacity == max_capacity
                || evictor.max_capacity == MIN_EVICTOR_CAPACITY)
            &&& delay is Some ==> evictor.delay == delay->0 && compactor_for(
                max_size,
                delay,
            ).delay == delay->0
            &&& compactor_for(max_size, delay).max_size == max_size
            &&& evictor.action_on(EvictorEvent::Started) == EvictorAction::Sleep(evictor.delay)
            &&& evictor.action_on(EvictorEvent::Evicted) == EvictorAction::Sleep(evictor.delay)
            &&& evictor.action_on(EvictorEvent::Awake) == EvictorAction::Evict(
                evictor.max_capacity,
            )
            &&& evictor.action_on(EvictorEvent::StoreGone) == EvictorAction::Exit
        }),
        compactor.action_on(CompactorEvent::Stepped(Some(at))) == CompactorAction::Check,
        compactor.resumes(CompactorEvent::Stepped(Some(at))) == Some(at),
        compactor.resumes(CompactorEvent::Started(Some(at))) == Some(at),
        compactor.resumes(CompactorEvent::StoreHere) == compactor.at,
        compactor.action_on(CompactorEvent::Started(Some(at))) == CompactorAction::Check,
        compactor.action_on(CompactorEvent::Stepped(None)) == CompactorAction::Sleep(
            compactor.delay,
        ),
        compactor.action_on(CompactorEvent::Started(None)) == CompactorAction::Sleep(
            compactor.delay,
        ),
        compactor.action_on(CompactorEvent::StoreHere) == CompactorAction::Compact(
            compactor.max_size,
            compactor.at,
        ),
        compactor.action_on(CompactorEvent::StoreGone) == CompactorAction::Exit,
        compactor.action_on(CompactorEvent::Failed) == CompactorAction::Exit,
{
}

/// A counter that cannot hold what was loaded goes on from zero.
pub proof fn law_counters_wrap_around(counters: GcCounters, bytes: u64)
    requires
        counters.max_size > 0,
        counters.total_size + bytes > u64::MAX,
    ensures
        after_size(counters, bytes).total_size == counters.total_size + bytes - u64::MAX - 1,
        counters.compacts_at(bytes) <==> !counters.compaction_fired && counters.total_size + bytes
            - u64::MAX - 1 > counters.max_size,
{
}

} // verus!

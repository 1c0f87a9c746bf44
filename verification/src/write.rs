//! Writing content and fragments.
//!
//! A fragment that is already where it should be is not written again. Otherwise one writer, the
//! leader, loads or compresses the payload, uploads it where there is a remote store, and records
//! it locally; others who want the same fragment follow the leader.
use vstd::prelude::*;

use crate::error::{InternalError, StorageError, StoreError};
use crate::fragment_engine::{
    chunk_bounds, chunk_plans, covers, one_chunk, write_fragmented, ChunkPlan, ChunkSizes,
    FragmentedPlan,
};
use crate::in_flight::{
    ask_in_turn, law_one_of_many_writers_leads, InFlight, StoreInFlightGuard, StoreInFlightKey,
};
use crate::types::{
    Address, Context, Fragment, StoreMatch, StoreQueryResult, PAYLOAD_STORED_DURABLE,
    PAYLOAD_STORED_LOCAL,
};

verus! {

/// What became of a fragment that was to be stored.
#[derive(Clone, Copy, Debug, PartialEq, Eq, Structural)]
pub struct StoreResult {
    pub address: Address,
    pub fragment: Fragment,
    pub deduplicated: bool,
}

/// What is done after an attempt to put a fragment.
#[derive(Clone, Copy, Debug, PartialEq, Eq, Structural)]
pub enum PutStep {
    /// The fragment was put.
    Done,
    /// The store is busy: wait, and try again where that is still allowed.
    Wait,
    /// The attempt failed for good.
    Fail(StorageError),
}

/// What is done after an attempt to put a fragment.
pub open spec fn put_step(attempt: Result<(), StoreError>) -> PutStep {
    if attempt is Ok {
        PutStep::Done
    } else if attempt->Err_0 == StoreError::SlowDown {
        PutStep::Wait
    } else {
        PutStep::Fail(attempt->Err_0.forwarded())
    }
}

/// What is done after an attempt to put a fragment into a store: only a busy store is tried again.
pub fn write_raw(attempt: Result<(), StoreError>) -> (r: PutStep)
    ensures
        r == put_step(attempt),
        r == match attempt {
            Ok(()) => PutStep::Done,
            Err(e) => if e == StoreError::SlowDown {
                PutStep::Wait
            } else {
                PutStep::Fail(e.forwarded())
            },
        },
{
    match attempt {
        Ok(()) => PutStep::Done,
        Err(e) => if e == StoreError::SlowDown {
            PutStep::Wait
        } else {
            PutStep::Fail(e.forward())
        },
    }
}

/// What is done after a wait: another attempt where it is still allowed, and otherwise the store
/// counts as busy.
pub fn after_wait(allowed: bool) -> (r: Result<(), StorageError>)
    ensures
        r is Ok <==> allowed,
        r is Err ==> r->Err_0 == StorageError::SlowDown,
{
    if allowed {
        Ok(())
    } else {
        Err(StorageError::SlowDown)
    }
}

/// Why a fragment cannot be stored whatever the store holds.
pub open spec fn fragment_fault(
    address: Address,
    fragment: Fragment,
    buffer_len: usize,
    threshold: u32,
) -> Option<StorageError> {
    if address.hash == (crate::types::Hash { high: 0, low: 0 }) || buffer_len == 0
        || fragment.size_payload == 0 {
        Some(StorageError::Internal(InternalError::EmptyFragment))
    } else if fragment.size_payload > threshold {
        Some(StorageError::Oversized)
    } else if fragment.size_payload as int != buffer_len as int {
        Some(StorageError::Internal(InternalError::PayloadLengthMismatch))
    } else {
        None
    }
}

/// Checks a fragment that is to be stored.
pub fn check_fragment(address: &Address, fragment: &Fragment, buffer_len: usize, threshold: u32) -> (r:
    Result<(), StorageError>)
    ensures
        r == match fragment_fault(*address, *fragment, buffer_len, threshold) {
            Some(e) => Err::<(), StorageError>(e),
            None => Ok(()),
        },
{
    if address.hash.is_zero() || buffer_len == 0 || fragment.size_payload == 0 {
        return Err(StorageError::Internal(InternalError::EmptyFragment));
    }
    if fragment.size_payload > threshold {
        return Err(StorageError::Oversized);
    }
    if fragment.size_payload as u64 != buffer_len as u64 {
        return Err(StorageError::Internal(InternalError::PayloadLengthMismatch));
    }
    Ok(())
}

/// Whether a query found the payload held locally, whoever the entry belongs to.
pub open spec fn found_local(query: StoreQueryResult) -> bool {
    query.match_made != StoreMatch::MatchNone && query.fragment.flags & PAYLOAD_STORED_LOCAL != 0
}

/// Whether a query found the very fragment held durably.
pub open spec fn found_durable(query: StoreQueryResult) -> bool {
    query.match_made == StoreMatch::MatchFull && query.fragment.flags & PAYLOAD_STORED_DURABLE != 0
}

/// Whether what a query found is all that is asked for.
pub open spec fn satisfied(query: StoreQueryResult, cache_local: bool, remote: bool) -> bool {
    query.match_made == StoreMatch::MatchFull && (cache_local ==> found_local(query)) && (remote
        ==> found_durable(query))
}

/// Where a query found the payload: held locally, held durably.
pub fn stored_flags(query: &StoreQueryResult) -> (r: (bool, bool))
    ensures
        r.0 == found_local(*query),
        r.1 == found_durable(*query),
{
    (
        query.match_made != StoreMatch::MatchNone && query.fragment.flags & PAYLOAD_STORED_LOCAL
            != 0,
        query.match_made == StoreMatch::MatchFull && query.fragment.flags & PAYLOAD_STORED_DURABLE
            != 0,
    )
}

/// Whether what a query found is all that is asked for.
pub fn is_fully_satisfied(query: &StoreQueryResult, cache_local: bool, remote: bool) -> (r: bool)
    ensures
        r == satisfied(*query, cache_local, remote),
{
    let (stored_local, stored_durable) = stored_flags(query);
    query.match_made == StoreMatch::MatchFull && (!cache_local || stored_local) && (!remote
        || stored_durable)
}

/// What a query that failed counts as.
pub open spec fn answer_of(query: Option<StoreQueryResult>) -> StoreQueryResult {
    match query {
        Some(found) => found,
        None => StoreQueryResult {
            fragment: Fragment { flags: 0, size_payload: 0, size_content: 0 },
            match_made: StoreMatch::MatchNone,
        },
    }
}

/// What a query for the very address says. A query that failed found nothing.
pub fn query_match_full(query: Option<StoreQueryResult>) -> (r: StoreQueryResult)
    ensures
        r == answer_of(query),
{
    match query {
        Some(found) => found,
        None => StoreQueryResult {
            fragment: Fragment { flags: 0, size_payload: 0, size_content: 0 },
            match_made: StoreMatch::MatchNone,
        },
    }
}

/// A fragment to store, and how.
#[derive(Clone, Copy, Debug, PartialEq, Eq, Structural)]
pub struct StoreCall {
    pub address: Address,
    pub fragment: Fragment,
    /// Whether the payload is to be held locally.
    pub cache_local: bool,
    /// Whether there is a remote store to upload to.
    pub remote: bool,
    /// Whether the work is handed to a tracker.
    pub dispatched: bool,
}

/// What is done next for a fragment that is to be stored.
#[derive(Clone, Copy, Debug, PartialEq, Eq, Structural)]
pub enum StoreAction {
    /// Query the store for the very address.
    Query,
    /// Try to become the writer of the fragment.
    TryAcquire,
    /// Become the writer of the fragment, or wait until the one who is has ended.
    AcquireOrWait,
    /// Do the leader's work, and report how it went.
    Lead(StoreQueryResult),
    /// Hand the leader's work to the tracker, and answer.
    SpawnLeader(StoreQueryResult, StoreResult),
    /// Have the tracker follow the writer that there is, and answer.
    Follow(StoreResult),
    /// Give the right to write back, where it is held, and answer.
    Return(StoreResult),
    /// Give the right to write back, where it is held, and fail.
    Fail(StorageError),
}

/// What happened to a fragment that is to be stored.
#[derive(Clone, Copy, Debug, PartialEq, Eq, Structural)]
pub enum StoreEvent {
    /// The store was queried.
    Queried(Option<StoreQueryResult>),
    /// The right to write was given.
    Acquired,
    /// Another writer has, or had, the right to write.
    Busy,
    /// The leader's work was done.
    Led(Fragment),
    /// The leader's work failed.
    LeadFailed(StorageError),
}

/// A fragment on its way into the store.
#[derive(Clone, Copy, Debug, PartialEq, Eq, Structural)]
pub struct StoreFlow {
    pub call: StoreCall,
    /// What the query said, once it was made.
    pub query: StoreQueryResult,
}

impl StoreFlow {
    /// The answer for a fragment that is there.
    pub open spec fn there(self) -> StoreResult {
        StoreResult {
            address: self.call.address,
            fragment: self.query.fragment,
            deduplicated: true,
        }
    }

    /// The answer for a fragment that was written, or will be.
    pub open spec fn written(self, fragment: Fragment) -> StoreResult {
        StoreResult {
            address: self.call.address,
            fragment,
            deduplicated: self.query.match_made != StoreMatch::MatchNone,
        }
    }

    /// The answer for a fragment that someone else writes.
    pub open spec fn elsewhere(self) -> StoreResult {
        StoreResult {
            address: self.call.address,
            fragment: if !self.call.dispatched && self.query.match_made == StoreMatch::MatchFull {
                self.query.fragment
            } else {
                self.call.fragment
            },
            deduplicated: true,
        }
    }

    /// What is done after an event. Without a tracker the query comes first, and the right to write
    /// is needed only where there is a remote store: local writes of one fragment do not hurt each
    /// other. With a tracker the right to write comes first.
    pub open spec fn next(self, event: StoreEvent) -> StoreAction {
        match event {
            StoreEvent::Queried(found) => {
                let now = StoreFlow { query: answer_of(found), ..self };
                if satisfied(now.query, self.call.cache_local, self.call.remote) {
                    StoreAction::Return(now.there())
                } else if self.call.dispatched {
                    StoreAction::SpawnLeader(now.query, now.written(self.call.fragment))
                } else if self.call.remote {
                    StoreAction::AcquireOrWait
                } else {
                    StoreAction::Lead(now.query)
                }
            },
            StoreEvent::Acquired => if self.call.dispatched {
                StoreAction::Query
            } else {
                StoreAction::Lead(self.query)
            },
            StoreEvent::Busy => if self.call.dispatched {
                StoreAction::Follow(self.elsewhere())
            } else {
                StoreAction::Return(self.elsewhere())
            },
            StoreEvent::Led(fragment) => StoreAction::Return(self.written(fragment)),
            StoreEvent::LeadFailed(e) => StoreAction::Fail(e),
        }
    }

    /// How a call begins.
    pub open spec fn beginning(call: StoreCall) -> (StoreFlow, StoreAction) {
        (
            StoreFlow { call, query: answer_of(None) },
            if call.dispatched {
                StoreAction::TryAcquire
            } else {
                StoreAction::Query
            },
        )
    }

    /// The call after an event.
    pub open spec fn after(self, event: StoreEvent) -> StoreFlow {
        match event {
            StoreEvent::Queried(found) => StoreFlow { query: answer_of(found), ..self },
            _ => self,
        }
    }

    /// Starts to store a fragment that was checked.
    pub fn store_fragment(call: StoreCall) -> (r: (StoreFlow, StoreAction))
        ensures
            r.0.call == call,
            r.0.query == answer_of(None),
            r.1 == if call.dispatched {
                StoreAction::TryAcquire
            } else {
                StoreAction::Query
            },
            r == Self::beginning(call),
    {
        let flow = StoreFlow { call, query: query_match_full(None) };
        if call.dispatched {
            (flow, StoreAction::TryAcquire)
        } else {
            (flow, StoreAction::Query)
        }
    }

    /// What is done after an event.
    pub fn step(&mut self, event: StoreEvent) -> (r: StoreAction)
        ensures
            r == old(self).next(event),
            final(self).call == old(self).call,
            final(self).query == match event {
                StoreEvent::Queried(found) => answer_of(found),
                _ => old(self).query,
            },
            *final(self) == old(self).after(event),
    {
        match event {
            StoreEvent::Queried(found) => {
                self.query = query_match_full(found);
                if is_fully_satisfied(&self.query, self.call.cache_local, self.call.remote) {
                    return StoreAction::Return(
                        StoreResult {
                            address: self.call.address,
                            fragment: self.query.fragment,
                            deduplicated: true,
                        },
                    );
                }
                if self.call.dispatched {
                    return StoreAction::SpawnLeader(
                        self.query,
                        StoreResult {
                            address: self.call.address,
                            fragment: self.call.fragment,
                            deduplicated: self.query.match_made != StoreMatch::MatchNone,
                        },
                    );
                }
                if self.call.remote {
                    StoreAction::AcquireOrWait
                } else {
                    StoreAction::Lead(self.query)
                }
            },
            StoreEvent::Acquired => if self.call.dispatched {
                StoreAction::Query
            } else {
                StoreAction::Lead(self.query)
            },
            StoreEvent::Busy => {
                let fragment = if !self.call.dispatched && self.query.match_made
                    == StoreMatch::MatchFull {
                    self.query.fragment
                } else {
                    self.call.fragment
                };
                let answer = StoreResult {
                    address: self.call.address,
                    fragment,
                    deduplicated: true,
                };
                if self.call.dispatched {
                    StoreAction::Follow(answer)
                } else {
                    StoreAction::Return(answer)
                }
            },
            StoreEvent::Led(fragment) => StoreAction::Return(
                StoreResult {
                    address: self.call.address,
                    fragment,
                    deduplicated: self.query.match_made != StoreMatch::MatchNone,
                },
            ),
            StoreEvent::LeadFailed(e) => StoreAction::Fail(e),
        }
    }
}

/// What the leader does next.
#[derive(Clone, Copy, Debug, PartialEq, Eq, Structural)]
pub enum LeaderAction {
    /// Load the payload that the store holds, and hash its content.
    LoadExisting,
    /// Compress the payload.
    Compress,
    /// Upload the payload with this fragment.
    Upload(Fragment),
    /// Record the fragment, with or without its payload.
    Write { fragment: Fragment, with_payload: bool },
}

/// What became of the leader's last action.
#[derive(Clone, Copy, Debug, PartialEq, Eq, Structural)]
pub enum LeaderEvent {
    /// The payload was loaded: its fragment, and the hash of its content. It takes the place of the
    /// payload that was given if the hash is right.
    Loaded(Fragment, crate::types::Hash),
    /// The payload could not be loaded.
    NotLoaded,
    /// The payload was compressed: its new fragment. It takes the place of the payload that there
    /// was.
    Compressed(Fragment),
    /// The payload could not be compressed.
    NotCompressed,
    /// The upload ended, well or not.
    Uploaded(bool),
}

/// A leader at work.
#[derive(Clone, Copy, Debug, PartialEq, Eq, Structural)]
pub struct Leader {
    pub address: Address,
    pub fragment: Fragment,
    pub cache_local: bool,
    pub remote: bool,
    /// Whether payloads are compressed at all.
    pub compresses: bool,
    /// How much of the address the query matched.
    pub match_made: StoreMatch,
    /// Whether the payload at hand is the one that the store holds.
    pub stored_local: bool,
    /// Whether the fragment is held durably.
    pub stored_durable: bool,
}

impl Leader {
    /// The fragment to record: the durable flag says whether it is held durably.
    pub open spec fn terminal(self) -> Fragment {
        Fragment {
            flags: if self.stored_durable {
                self.fragment.flags | PAYLOAD_STORED_DURABLE
            } else {
                self.fragment.flags & !PAYLOAD_STORED_DURABLE
            },
            ..self.fragment
        }
    }

    /// What is left once there is nothing to upload any more.
    pub open spec fn writing(self) -> LeaderAction {
        LeaderAction::Write {
            fragment: self.terminal(),
            with_payload: !self.stored_durable || self.cache_local,
        }
    }

    /// What is left once the payload is ready.
    pub open spec fn uploading(self) -> LeaderAction {
        if !self.stored_durable && self.remote {
            LeaderAction::Upload(self.fragment)
        } else {
            self.writing()
        }
    }

    /// What is left once the payload that the store holds was looked at.
    pub open spec fn compressing(self) -> LeaderAction {
        if !self.stored_local && self.compresses {
            LeaderAction::Compress
        } else {
            self.uploading()
        }
    }

    /// The leader after an event.
    pub open spec fn after(self, event: LeaderEvent) -> Leader {
        match event {
            LeaderEvent::Loaded(fragment, hash) => Leader {
                fragment: if hash == self.address.hash {
                    fragment
                } else {
                    self.fragment
                },
                stored_local: self.stored_local && hash == self.address.hash,
                stored_durable: self.stored_durable && self.match_made == StoreMatch::MatchFull,
                ..self
            },
            LeaderEvent::NotLoaded => Leader { stored_local: false, ..self },
            LeaderEvent::Compressed(fragment) => Leader { fragment, ..self },
            LeaderEvent::NotCompressed => self,
            LeaderEvent::Uploaded(ok) => Leader { stored_durable: ok, ..self },
        }
    }

    /// What is done after an event.
    pub open spec fn action_on(self, event: LeaderEvent) -> LeaderAction {
        let now = self.after(event);
        match event {
            LeaderEvent::Uploaded(_) => now.writing(),
            LeaderEvent::Compressed(_) | LeaderEvent::NotCompressed => now.uploading(),
            _ => now.compressing(),
        }
    }

    /// How the work on a call begins, from what a query said.
    pub open spec fn beginning(call: StoreCall, query: StoreQueryResult, compresses: bool) -> (
        Leader,
        LeaderAction,
    ) {
        let leader = Leader {
            address: call.address,
            fragment: call.fragment,
            cache_local: call.cache_local,
            remote: call.remote,
            compresses,
            match_made: query.match_made,
            stored_local: found_local(query),
            stored_durable: found_durable(query),
        };
        let action = if leader.stored_local {
            LeaderAction::LoadExisting
        } else {
            leader.compressing()
        };
        (leader, action)
    }

    /// Starts the leader's work, from what the query said.
    pub fn leader_body(call: &StoreCall, query: &StoreQueryResult, compresses: bool) -> (r: (
        Leader,
        LeaderAction,
    ))
        ensures
            r.0 == (Leader {
                address: call.address,
                fragment: call.fragment,
                cache_local: call.cache_local,
                remote: call.remote,
                compresses,
                match_made: query.match_made,
                stored_local: found_local(*query),
                stored_durable: found_durable(*query),
            }),
            r.1 == if found_local(*query) {
                LeaderAction::LoadExisting
            } else {
                r.0.compressing()
            },
            (r.0, r.1) == Self::beginning(*call, *query, compresses),
    {
        let (stored_local, stored_durable) = stored_flags(query);
        let leader = Leader {
            address: call.address,
            fragment: call.fragment,
            cache_local: call.cache_local,
            remote: call.remote,
            compresses,
            match_made: query.match_made,
            stored_local,
            stored_durable,
        };
        if stored_local {
            (leader, LeaderAction::LoadExisting)
        } else {
            let action = leader.compress_next();
            (leader, action)
        }
    }

    /// What is left once there is nothing to upload any more.
    fn write_next(&self) -> (r: LeaderAction)
        ensures
            r == self.writing(),
    {
        let mut fragment = self.fragment;
        if self.stored_durable {
            fragment.flags = fragment.flags | PAYLOAD_STORED_DURABLE;
        } else {
            fragment.flags = fragment.flags & !PAYLOAD_STORED_DURABLE;
        }
        LeaderAction::Write { fragment, with_payload: !self.stored_durable || self.cache_local }
    }

    /// What is left once the payload is ready.
    fn upload_next(&self) -> (r: LeaderAction)
        ensures
            r == self.uploading(),
    {
        if !self.stored_durable && self.remote {
            LeaderAction::Upload(self.fragment)
        } else {
            self.write_next()
        }
    }

    /// What is left once the payload that the store holds was looked at.
    fn compress_next(&self) -> (r: LeaderAction)
        ensures
            r == self.compressing(),
    {
        if !self.stored_local && self.compresses {
            LeaderAction::Compress
        } else {
            self.upload_next()
        }
    }

    /// What is done after an event. A payload that the store holds is used again if its content has
    /// the right hash; otherwise the payload that was given is compressed. An upload that fails
    /// leaves the fragment not durable, and its payload is then held locally.
    pub fn step(&mut self, event: LeaderEvent) -> (r: LeaderAction)
        ensures
            *final(self) == old(self).after(event),
            r == match event {
                LeaderEvent::Loaded(_, _) | LeaderEvent::NotLoaded => final(self).compressing(),
                LeaderEvent::Compressed(_) | LeaderEvent::NotCompressed => final(self).uploading(),
                LeaderEvent::Uploaded(_) => final(self).writing(),
            },
            r == old(self).action_on(event),
    {
        match event {
            LeaderEvent::Loaded(fragment, hash) => {
                if hash == self.address.hash {
                    self.fragment = fragment;
                } else {
                    self.stored_local = false;
                }
                if self.match_made != StoreMatch::MatchFull {
                    self.stored_durable = false;
                }
                self.compress_next()
            },
            LeaderEvent::NotLoaded => {
                self.stored_local = false;
                self.compress_next()
            },
            LeaderEvent::Compressed(fragment) => {
                self.fragment = fragment;
                self.upload_next()
            },
            LeaderEvent::NotCompressed => self.upload_next(),
            LeaderEvent::Uploaded(ok) => {
                self.stored_durable = ok;
                self.write_next()
            },
        }
    }
}

/// What a follower answers once its leader has ended, from what the store then says.
pub open spec fn followed(address: Address, query: Option<StoreQueryResult>) -> Result<
    (Address, Fragment),
    StorageError,
> {
    match query {
        Some(found) => if found.match_made == StoreMatch::MatchFull && found.fragment.flags & (
        PAYLOAD_STORED_DURABLE | PAYLOAD_STORED_LOCAL) != 0 {
            Ok((address, found.fragment))
        } else {
            Err(StorageError::Internal(InternalError::LeaderFailed))
        },
        None => Err(StorageError::Internal(InternalError::LeaderFailed)),
    }
}

/// What a follower answers once its leader has ended: what the store holds now, if that is the very
/// fragment and it is held anywhere.
pub fn follower_future(address: Address, query: Option<StoreQueryResult>) -> (r: Result<
    (Address, Fragment),
    StorageError,
>)
    ensures
        r == followed(address, query),
{
    match query {
        Some(found) => if found.match_made == StoreMatch::MatchFull && found.fragment.flags & (
        PAYLOAD_STORED_DURABLE | PAYLOAD_STORED_LOCAL) != 0 {
            Ok((address, found.fragment))
        } else {
            Err(StorageError::Internal(InternalError::LeaderFailed))
        },
        None => Err(StorageError::Internal(InternalError::LeaderFailed)),
    }
}

/// How content is written.
pub enum ContentPlan {
    /// As one fragment, which needs no list.
    Single(Fragment),
    /// In chunks, and a list of them.
    Chunks(Vec<ChunkPlan>),
}

/// Whether content is written as one fragment.
pub open spec fn written_whole(
    content: Seq<u8>,
    fixed_size_chunk: usize,
    sizes: ChunkSizes,
) -> bool {
    content.len() <= sizes.threshold || one_chunk(chunk_bounds(content, fixed_size_chunk, sizes, 0))
}

/// Plans how content is written: as one fragment where it fits or is not cut, and in chunks
/// otherwise.
pub fn write_content(buffer: &[u8], flags: u32, fixed_size_chunk: usize, sizes: &ChunkSizes) -> (r:
    ContentPlan)
    requires
        sizes.valid(),
        fixed_size_chunk <= u32::MAX,
    ensures
        match r {
            ContentPlan::Single(fragment) => {
                &&& buffer@.len() <= sizes.threshold || one_chunk(
                    chunk_bounds(buffer@, fixed_size_chunk, *sizes, 0),
                )
                &&& fragment == (Fragment {
                    flags,
                    size_payload: buffer@.len() as u32,
                    size_content: buffer@.len() as u64,
                })
            },
            ContentPlan::Chunks(chunks) => {
                &&& buffer@.len() > sizes.threshold
                &&& !one_chunk(chunk_bounds(buffer@, fixed_size_chunk, *sizes, 0))
                &&& chunks@ == chunk_plans(
                    flags,
                    chunk_bounds(buffer@, fixed_size_chunk, *sizes, 0),
                )
                &&& covers(chunks@, buffer@.len() as int, flags)
            },
        },
        r is Single <==> written_whole(buffer@, fixed_size_chunk, *sizes),
{
    let size: usize = buffer.len();
    if size <= sizes.threshold as usize {
        return ContentPlan::Single(
            Fragment { flags, size_payload: size as u32, size_content: size as u64 },
        );
    }
    match write_fragmented(buffer, flags, fixed_size_chunk, sizes) {
        FragmentedPlan::Single(fragment) => ContentPlan::Single(fragment),
        FragmentedPlan::Listed(chunks) => ContentPlan::Chunks(chunks),
    }
}

/// How a file is written.
#[derive(Clone, Copy, Debug, PartialEq, Eq, Structural)]
pub enum FilePlan {
    /// An empty file is not stored: this is its address and its fragment.
    Empty(Address, Fragment),
    /// The file is written as content, with or without a copy of its bytes.
    Content { clone_buffer: bool },
}

/// How a file of some size is written.
pub open spec fn file_plan(
    context: Context,
    size: usize,
    is_mapped: bool,
    clone_buffer: bool,
) -> FilePlan {
    if size > 0 {
        FilePlan::Content { clone_buffer: is_mapped || clone_buffer }
    } else {
        FilePlan::Empty(
            Address { hash: crate::types::Hash { high: 0, low: 0 }, context },
            Fragment { flags: 0, size_payload: 0, size_content: 0 },
        )
    }
}

/// Plans how a file is written. Only bytes that are mapped from the file can change below the
/// writer, and are copied.
pub fn write_from_file(context: Context, size: usize, is_mapped: bool, clone_buffer: bool) -> (r:
    FilePlan)
    ensures
        r == if size == 0 {
            FilePlan::Empty(
                Address { hash: crate::types::Hash { high: 0, low: 0 }, context },
                Fragment { flags: 0, size_payload: 0, size_content: 0 },
            )
        } else {
            FilePlan::Content { clone_buffer: clone_buffer || is_mapped }
        },
        r == file_plan(context, size, is_mapped, clone_buffer),
{
    if size == 0 {
        FilePlan::Empty(
            Address { hash: crate::types::Hash::zero(), context },
            Fragment { flags: 0, size_payload: 0, size_content: 0 },
        )
    } else {
        FilePlan::Content { clone_buffer: clone_buffer || is_mapped }
    }
}

/// A fragment is recorded as held durably exactly if it was found so or the upload went well, and its
/// payload is recorded with it unless it is held durably and not wanted locally: a payload that is
/// held nowhere else is never dropped.
pub proof fn law_leader_never_drops_the_only_copy(leader: Leader)
    ensures
        leader.writing() is Write,
        leader.writing()->fragment.flags & PAYLOAD_STORED_DURABLE != 0 <==> leader.stored_durable,
        leader.writing()->fragment.flags & PAYLOAD_STORED_DURABLE == 0
            ==> leader.writing()->with_payload,
        leader.cache_local ==> leader.writing()->with_payload,
{
    let f = leader.fragment.flags;
    assert((f | 0x0000_0200u32) & 0x0000_0200u32 != 0) by (bit_vector);
    assert((f & !0x0000_0200u32) & 0x0000_0200u32 == 0) by (bit_vector);
}

/// A fragment that is there as asked for is not written again, whoever asks.
pub proof fn law_satisfied_calls_write_nothing(flow: StoreFlow, found: StoreQueryResult)
    requires
        satisfied(found, flow.call.cache_local, flow.call.remote),
    ensures
        flow.next(StoreEvent::Queried(Some(found))) == StoreAction::Return(
            StoreResult {
                address: flow.call.address,
                fragment: found.fragment,
                deduplicated: true,
            },
        ),
{
}

/// What a writer is told by the table of writes that are on their way.
pub open spec fn told(answer: Result<StoreInFlightGuard, u64>) -> StoreEvent {
    match answer {
        Ok(_) => StoreEvent::Acquired,
        Err(_) => StoreEvent::Busy,
    }
}

/// Of many writers of one fragment that the store does not have, all with a tracker, exactly one
/// leads: it asks the store, has its work done in the background, and reports that the fragment was
/// not there. Every other one follows it, and reports a duplicate.
pub proof fn law_one_of_many_calls_leads(
    before: Seq<InFlight>,
    after: Seq<InFlight>,
    key: StoreInFlightKey,
    answers: Seq<Result<StoreInFlightGuard, u64>>,
    flow: StoreFlow,
    found: Option<StoreQueryResult>,
    i: int,
)
    requires
        ask_in_turn(before, after, key, answers),
        0 <= i < answers.len(),
        !before[0].tickets().contains_key(key.numbers()),
        flow.call.dispatched,
        answer_of(found).match_made == StoreMatch::MatchNone,
    ensures
        i == 0 ==> {
            &&& flow.next(told(answers[i])) == StoreAction::Query
            &&& flow.next(StoreEvent::Queried(found)) == StoreAction::SpawnLeader(
                answer_of(found),
                StoreResult {
                    address: flow.call.address,
                    fragment: flow.call.fragment,
                    deduplicated: false,
                },
            )
        },
        i > 0 ==> flow.next(told(answers[i])) == StoreAction::Follow(
            StoreResult {
                address: flow.call.address,
                fragment: flow.call.fragment,
                deduplicated: true,
            },
        ),
{
    law_one_of_many_writers_leads(before, after, key, answers, i);
}

/// After the leader has recorded a fragment, with its payload, a query that finds it satisfies the
/// same call: it is held locally where that was asked for, and durably where there is a remote store
/// and the upload went well.
pub proof fn law_recorded_fragment_satisfies_the_call(
    leader: Leader,
    found: StoreQueryResult,
)
    requires
        leader.stored_durable || !leader.remote,
        found.match_made == StoreMatch::MatchFull,
        found.fragment.flags & PAYLOAD_STORED_DURABLE == leader.terminal().flags
            & PAYLOAD_STORED_DURABLE,
        leader.writing()->with_payload ==> found.fragment.flags & PAYLOAD_STORED_LOCAL != 0,
    ensures
        satisfied(found, leader.cache_local, leader.remote),
{
    law_leader_never_drops_the_only_copy(leader);
}

/// A fragment is there as asked for exactly if the very address is known, with the payload held
/// locally where that is wanted, and durably where there is a remote store.
pub proof fn law_satisfied_means_stored_as_asked(
    query: StoreQueryResult,
    cache_local: bool,
    remote: bool,
)
    ensures
        satisfied(query, cache_local, remote) <==> query.match_made == StoreMatch::MatchFull && (
        !cache_local || query.fragment.flags & PAYLOAD_STORED_LOCAL != 0) && (!remote
            || query.fragment.flags & PAYLOAD_STORED_DURABLE != 0),
        found_local(query) <==> query.match_made != StoreMatch::MatchNone && query.fragment.flags
            & PAYLOAD_STORED_LOCAL != 0,
        found_durable(query) <==> query.match_made == StoreMatch::MatchFull
            && query.fragment.flags & PAYLOAD_STORED_DURABLE != 0,
{
}

/// A call that is not satisfied is led by someone: by a task, by whoever gets the right to write
/// where there is a remote store, or by the caller. It never returns before that.
pub proof fn law_unsatisfied_calls_are_led(flow: StoreFlow, found: Option<StoreQueryResult>)
    requires
        found is None || !(found->0.match_made == StoreMatch::MatchFull && (!flow.call.cache_local
            || found->0.fragment.flags & PAYLOAD_STORED_LOCAL != 0) && (!flow.call.remote
            || found->0.fragment.flags & PAYLOAD_STORED_DURABLE != 0)),
    ensures
        ({
            let action = flow.next(StoreEvent::Queried(found));
            let known = found is Some && found->0.match_made != StoreMatch::MatchNone;
            &&& flow.call.dispatched ==> action is SpawnLeader && action->SpawnLeader_1 == (
            StoreResult {
                address: flow.call.address,
                fragment: flow.call.fragment,
                deduplicated: known,
            }) && (found is Some ==> action->SpawnLeader_0 == found->0)
            &&& !flow.call.dispatched && flow.call.remote ==> action == StoreAction::AcquireOrWait
            &&& !flow.call.dispatched && !flow.call.remote ==> action is Lead && (found is Some
                ==> action->Lead_0 == found->0)
            &&& found is None && action is Lead ==> action->Lead_0.match_made
                == StoreMatch::MatchNone && action->Lead_0.fragment.flags == 0
            &&& found is None && action is SpawnLeader ==> action->SpawnLeader_0.match_made
                == StoreMatch::MatchNone && action->SpawnLeader_0.fragment.flags == 0
        }),
{
    assert(0u32 & 0x100u32 == 0 && 0u32 & 0x200u32 == 0) by (bit_vector);
}

/// Whatever a call is answered, it is answered for its own address. Whoever gets the right to write
/// goes on to write, and whoever does not follows the one who has it and reports a duplicate. A call
/// reports a duplicate after its own work exactly if something of the hash was known before.
pub proof fn law_calls_are_answered_for_their_address(flow: StoreFlow, event: StoreEvent)
    ensures
        ({
            let action = flow.next(event);
            &&& action is Return ==> action->Return_0.address == flow.call.address
            &&& action is Follow ==> action->Follow_0.address == flow.call.address
            &&& action is SpawnLeader ==> action->SpawnLeader_1.address == flow.call.address
            &&& event is Acquired ==> action == if flow.call.dispatched {
                StoreAction::Query
            } else {
                StoreAction::Lead(flow.query)
            }
            &&& event is Busy && flow.call.dispatched ==> action == StoreAction::Follow(
                StoreResult {
                    address: flow.call.address,
                    fragment: flow.call.fragment,
                    deduplicated: true,
                },
            )
            &&& event is Busy && !flow.call.dispatched ==> action is Return
                && action->Return_0.deduplicated && action->Return_0.fragment == if
                flow.query.match_made == StoreMatch::MatchFull {
                flow.query.fragment
            } else {
                flow.call.fragment
            }
            &&& event is Led ==> action == StoreAction::Return(
                StoreResult {
                    address: flow.call.address,
                    fragment: event->Led_0,
                    deduplicated: flow.query.match_made != StoreMatch::MatchNone,
                },
            )
            &&& event is LeadFailed ==> action == StoreAction::Fail(event->LeadFailed_0)
        }),
{
}

/// A leader loads the payload that the store holds, or compresses the one that it was given; then it
/// uploads, and then it writes. It compresses only what is not held locally, and only where payloads
/// are compressed at all. It uploads exactly if there is a remote store and the fragment is not held
/// durably. It always writes in the end.
pub proof fn law_leader_goes_through_its_phases(leader: Leader, event: LeaderEvent)
    ensures
        ({
            let now = leader.after(event);
            let action = leader.action_on(event);
            &&& action !is LoadExisting
            &&& action is Compress <==> (event is Loaded || event is NotLoaded) && !now.stored_local
                && leader.compresses
            &&& action is Upload ==> event !is Uploaded && action->Upload_0 == now.fragment
            &&& action is Upload <==> event !is Uploaded && action !is Compress && leader.remote
                && !now.stored_durable
            &&& event is Uploaded ==> action is Write
            &&& action is Write ==> (action->fragment.flags & PAYLOAD_STORED_DURABLE != 0 <==>
                now.stored_durable) && action->fragment.flags & !PAYLOAD_STORED_DURABLE
                == now.fragment.flags & !PAYLOAD_STORED_DURABLE && action->fragment.size_payload
                == now.fragment.size_payload && action->fragment.size_content
                == now.fragment.size_content && (action->with_payload <==> !now.stored_durable
                || leader.cache_local)
        }),
{
    law_leader_never_drops_the_only_copy(leader.after(event));
    lemma_other_flags(leader.after(event).fragment.flags);
}

/// Setting or clearing the durable flag changes no other.
proof fn lemma_other_flags(f: u32)
    by (bit_vector)
    ensures
        (f | 0x200u32) & !0x200u32 == f & !0x200u32,
        (f & !0x200u32) & !0x200u32 == f & !0x200u32,
{
}

/// What a leader learns: a payload that was loaded takes the place of the one that it was given only
/// if it has the hash of the address, and otherwise counts as not held locally. A payload that was
/// compressed takes that place too. A fragment is held durably after an upload exactly if the upload
/// went well, and only what the very address says counts as held durably.
pub proof fn law_leader_trusts_only_the_right_hash(leader: Leader, event: LeaderEvent)
    ensures
        ({
            let now = leader.after(event);
            &&& now.address == leader.address && now.cache_local == leader.cache_local && now.remote
                == leader.remote && now.compresses == leader.compresses && now.match_made
                == leader.match_made
            &&& event is Loaded && event->Loaded_1 == leader.address.hash ==> now.fragment
                == event->Loaded_0 && now.stored_local == leader.stored_local
            &&& event is Loaded && event->Loaded_1 != leader.address.hash ==> now.fragment
                == leader.fragment && !now.stored_local
            &&& event is Loaded ==> (now.stored_durable <==> leader.stored_durable
                && leader.match_made == StoreMatch::MatchFull)
            &&& event is NotLoaded ==> now.fragment == leader.fragment && !now.stored_local
                && now.stored_durable == leader.stored_durable
            &&& event is Compressed ==> now == (Leader { fragment: event->Compressed_0, ..leader })
            &&& event is NotCompressed ==> now == leader
            &&& event is Uploaded ==> now == (Leader { stored_durable: event->Uploaded_0, ..leader })
        }),
{
}

/// A leader begins with the fragment of the call. It takes what the query found into account: what is
/// held locally is loaded first, whatever entry of the hash has it, and what the very address says is
/// held durably is not uploaded.
pub proof fn law_leader_begins_with_what_was_found(
    call: StoreCall,
    query: StoreQueryResult,
    compresses: bool,
)
    ensures
        ({
            let (leader, action) = Leader::beginning(call, query, compresses);
            let local = query.match_made != StoreMatch::MatchNone && query.fragment.flags
                & PAYLOAD_STORED_LOCAL != 0;
            let durable = query.match_made == StoreMatch::MatchFull && query.fragment.flags
                & PAYLOAD_STORED_DURABLE != 0;
            &&& leader.address == call.address && leader.fragment == call.fragment
                && leader.cache_local == call.cache_local && leader.remote == call.remote
                && leader.compresses == compresses && leader.match_made == query.match_made
            &&& leader.stored_local == local && leader.stored_durable == durable
            &&& action == if local {
                LeaderAction::LoadExisting
            } else if compresses {
                LeaderAction::Compress
            } else if call.remote && !durable {
                LeaderAction::Upload(call.fragment)
            } else {
                leader.writing()
            }
        }),
{
}

/// A follower succeeds exactly if the very address is held somewhere once its leader has ended, and
/// then answers with what the store says of it.
pub proof fn law_followers_see_what_was_stored(address: Address, query: Option<StoreQueryResult>)
    ensures
        followed(address, query) is Ok <==> query is Some && query->0.match_made
            == StoreMatch::MatchFull && (query->0.fragment.flags & PAYLOAD_STORED_LOCAL != 0
            || query->0.fragment.flags & PAYLOAD_STORED_DURABLE != 0),
        followed(address, query) is Ok ==> followed(address, query)->Ok_0 == (
            address,
            query->0.fragment,
        ),
        followed(address, query) is Err ==> followed(address, query)->Err_0
            == StorageError::Internal(InternalError::LeaderFailed),
{
    let f = answer_of(query).fragment.flags;
    assert(f & (0x200u32 | 0x100u32) != 0 <==> f & 0x100u32 != 0 || f & 0x200u32 != 0)
        by (bit_vector);
}

/// A fragment passes its check exactly if it has a hash, is not empty, is no larger than a fragment
/// may be, and says how long its payload is. What is empty is not called oversized, and what is
/// oversized is not called wrong.
pub proof fn law_sound_fragments_pass(
    address: Address,
    fragment: Fragment,
    buffer_len: usize,
    threshold: u32,
)
    ensures
        ({
            let fault = fragment_fault(address, fragment, buffer_len, threshold);
            let no_hash = address.hash == (crate::types::Hash { high: 0, low: 0 });
            &&& fault is None <==> !no_hash && 0 < fragment.size_payload <= threshold
                && fragment.size_payload == buffer_len
            &&& no_hash || buffer_len == 0 || fragment.size_payload == 0 <==> fault == Some(
                StorageError::Internal(InternalError::EmptyFragment),
            )
            &&& !no_hash && buffer_len > 0 && fragment.size_payload > threshold ==> fault == Some(
                StorageError::Oversized,
            )
        }),
{
}

/// Content that fits one fragment is written as one. Larger content that is cut at fixed sizes is
/// written as one only if it is no larger than the size.
pub proof fn law_only_large_content_is_cut(
    content: Seq<u8>,
    fixed_size_chunk: usize,
    sizes: ChunkSizes,
)
    requires
        0 < content.len() <= usize::MAX,
    ensures
        content.len() <= sizes.threshold ==> written_whole(content, fixed_size_chunk, sizes),
        fixed_size_chunk > 0 && content.len() > sizes.threshold ==> (written_whole(
            content,
            fixed_size_chunk,
            sizes,
        ) <==> content.len() <= fixed_size_chunk),
{
    if fixed_size_chunk > 0 {
        let bounds = chunk_bounds(content, fixed_size_chunk, sizes, 0);
        reveal_with_fuel(chunk_bounds, 3);
        crate::fragment_engine::law_fixed_chunks_have_their_size(
            content,
            fixed_size_chunk,
            sizes,
            0,
            0,
        );
    }
}

/// A put is tried again only where the store is busy. Any other failure is final, and says what the
/// store said.
pub proof fn law_only_busy_stores_are_tried_again(attempt: Result<(), StoreError>)
    ensures
        put_step(attempt) is Wait <==> attempt is Err && attempt->Err_0 == StoreError::SlowDown,
        put_step(attempt) is Done <==> attempt is Ok,
        put_step(attempt) is Fail ==> put_step(attempt)->Fail_0 == attempt->Err_0.forwarded(),
{
}

/// An empty file is not stored: it has the hash of zero bytes, in its context, and no content. The
/// bytes of a file that is mapped are always copied.
pub proof fn law_empty_files_are_not_stored(
    context: Context,
    size: usize,
    is_mapped: bool,
    clone_buffer: bool,
)
    ensures
        ({
            let plan = file_plan(context, size, is_mapped, clone_buffer);
            &&& plan is Empty <==> size == 0
            &&& plan is Empty ==> plan->Empty_0.hash.high == 0 && plan->Empty_0.hash.low == 0
                && plan->Empty_0.context == context && plan->Empty_1.size_content == 0
                && plan->Empty_1.size_payload == 0 && plan->Empty_1.flags == 0
            &&& plan is Content ==> (plan->clone_buffer <==> is_mapped || clone_buffer)
        }),
{
}

/// A call that is handed to a tracker asks for the right to write first, and queries once it has it.
/// Another one queries first. What the query said is remembered: once the work was done, a duplicate
/// is reported exactly if the query knew the hash, whatever came in between.
pub proof fn law_calls_remember_what_was_found(
    call: StoreCall,
    found: StoreQueryResult,
    fragment: Fragment,
)
    ensures
        ({
            let (flow, first) = StoreFlow::beginning(call);
            let asked = flow.after(StoreEvent::Acquired);
            let queried = flow.after(StoreEvent::Queried(Some(found)));
            let led = queried.after(StoreEvent::Acquired).next(StoreEvent::Led(fragment));
            &&& call.dispatched ==> first == StoreAction::TryAcquire && flow.next(
                StoreEvent::Acquired,
            ) == StoreAction::Query
            &&& !call.dispatched ==> first == StoreAction::Query
            &&& flow.call == call && asked.call == call && queried.call == call
            &&& !call.dispatched ==> queried.next(StoreEvent::Acquired) == StoreAction::Lead(found)
            &&& led == StoreAction::Return(
                StoreResult {
                    address: call.address,
                    fragment,
                    deduplicated: found.match_made != StoreMatch::MatchNone,
                },
            )
        }),
{
}

} // verus!

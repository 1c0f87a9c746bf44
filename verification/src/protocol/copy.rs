//! The message that copies a fragment to another partition or context.
use vstd::prelude::*;

use crate::encoding::{be_bytes, be_value, law_be_round_trip, lemma_spans, push_be, read_be};
use crate::error::StoreError;
use crate::local::bucket::{data_at, sorted};
use crate::local::copy::CopyRequest;
use crate::local::data::ImmutableStoreEntry;
use crate::types::{Address, Context, Partition, PAYLOAD_STORED_DURABLE};

verus! {

/// Why a message could not be read.
#[derive(Clone, Copy, Debug, PartialEq, Eq, Structural)]
pub enum MessageParseError {
    InvalidFieldLength,
}

/// Why a message could not be carried out.
#[derive(Clone, Copy, Debug, PartialEq, Eq, Structural)]
pub enum MessageHandleError {
    NotConnected,
    AuthorizationFailure,
    FragmentNotFound,
    StoreFailure,
}

/// A fragment to copy. The destination has the hash of the source and a context of its own, in the
/// repository that the connection is for.
#[derive(Clone, Copy, Debug, PartialEq, Eq, Structural)]
pub struct Copy {
    pub source_repository: Partition,
    pub source_address: Address,
    pub target_context: Context,
}

/// The answer to a copy that was made. It has no data.
#[derive(Clone, Copy, Debug, PartialEq, Eq, Structural)]
pub struct CopyResponse {}

impl Default for CopyResponse {
    fn default() -> (r: CopyResponse)
        ensures
            r == (CopyResponse {  }),
    {
        CopyResponse {  }
    }
}

impl CopyResponse {
    /// The data of the answer: none.
    pub fn data(&self) -> (r: Vec<Vec<u8>>)
        ensures
            r@.len() == 0,
    {
        Vec::new()
    }
}

/// The sixteen bytes at a place in a message, as a number.
pub open spec fn field(bytes: Seq<u8>, at: int) -> u128 {
    be_value(bytes.subrange(at, at + 16)) as u128
}

/// What the bytes of a message say, whose target context stands at a place.
pub open spec fn message(bytes: Seq<u8>, target_at: int) -> Copy {
    Copy {
        source_repository: Partition { value: field(bytes, 0) },
        source_address: Address {
            hash: crate::types::Hash { high: field(bytes, 16), low: field(bytes, 32) },
            context: Context { value: field(bytes, 48) },
        },
        target_context: Context { value: field(bytes, target_at) },
    }
}

impl Copy {
    /// The bytes of the message in its first form: without the target context.
    pub open spec fn bytes(self) -> Seq<u8> {
        be_bytes(self.source_repository.value as nat, 16) + be_bytes(
            self.source_address.hash.high as nat,
            16,
        ) + be_bytes(self.source_address.hash.low as nat, 16) + be_bytes(
            self.source_address.context.value as nat,
            16,
        )
    }

    /// The bytes of the message in its later form.
    pub open spec fn bytes_v4(self) -> Seq<u8> {
        self.bytes() + be_bytes(self.target_context.value as nat, 16)
    }

    /// Reads a message of 64 bytes. It has no target context: the destination keeps the context of
    /// the source.
    pub fn parse(bytes: &[u8]) -> (r: Result<Copy, MessageParseError>)
        ensures
            r == if bytes@.len() == 64 {
                Ok::<Copy, MessageParseError>(message(bytes@, 48))
            } else {
                Err(MessageParseError::InvalidFieldLength)
            },
    {
        if bytes.len() != 64 {
            return Err(MessageParseError::InvalidFieldLength);
        }
        let context = Context { value: read_be(bytes, 48) };
        Ok(
            Copy {
                source_repository: Partition { value: read_be(bytes, 0) },
                source_address: Address {
                    hash: crate::types::Hash { high: read_be(bytes, 16), low: read_be(bytes, 32) },
                    context,
                },
                target_context: context,
            },
        )
    }

    /// Reads a message of 80 bytes, with the target context at its end.
    pub fn parse_v4(bytes: &[u8]) -> (r: Result<Copy, MessageParseError>)
        ensures
            r == if bytes@.len() == 80 {
                Ok::<Copy, MessageParseError>(message(bytes@, 64))
            } else {
                Err(MessageParseError::InvalidFieldLength)
            },
    {
        if bytes.len() != 80 {
            return Err(MessageParseError::InvalidFieldLength);
        }
        Ok(
            Copy {
                source_repository: Partition { value: read_be(bytes, 0) },
                source_address: Address {
                    hash: crate::types::Hash { high: read_be(bytes, 16), low: read_be(bytes, 32) },
                    context: Context { value: read_be(bytes, 48) },
                },
                target_context: Context { value: read_be(bytes, 64) },
            },
        )
    }

    /// The bytes of the message in its later form.
    pub fn encode_v4(&self) -> (r: Vec<u8>)
        ensures
            r@ == self.bytes_v4(),
    {
        let mut bytes: Vec<u8> = Vec::new();
        push_be(&mut bytes, self.source_repository.value);
        push_be(&mut bytes, self.source_address.hash.high);
        push_be(&mut bytes, self.source_address.hash.low);
        push_be(&mut bytes, self.source_address.context.value);
        push_be(&mut bytes, self.target_context.value);
        assert(bytes@ =~= self.bytes_v4());
        bytes
    }

    /// What the store is asked to do for a copy to a repository. The destination counts as durable:
    /// the store that serves the message is the durable one.
    pub fn copy_request(&self, destination: Partition, now: u64) -> (r: CopyRequest)
        ensures
            r == (CopyRequest {
                source_partition: self.source_repository,
                source_address: self.source_address,
                destination_partition: destination,
                destination_context: self.target_context,
                durable: true,
                now,
            }),
            r == self.request_in(destination, now),
    {
        CopyRequest {
            source_partition: self.source_repository,
            source_address: self.source_address,
            destination_partition: destination,
            destination_context: self.target_context,
            durable: true,
            now,
        }
    }

    /// Which repository a copy may go to, on a connection to a repository and with a token.
    pub open spec fn allowed(destination: Option<Partition>, token_allows: Option<bool>) -> Result<
        Partition,
        MessageHandleError,
    > {
        match destination {
            None => Err(MessageHandleError::NotConnected),
            Some(repository) => if token_allows is Some && !token_allows->0 {
                Err(MessageHandleError::AuthorizationFailure)
            } else {
                Ok(repository)
            },
        }
    }

    /// The copy that a message asks for.
    pub open spec fn request_in(self, destination: Partition, now: u64) -> CopyRequest {
        CopyRequest {
            source_partition: self.source_repository,
            source_address: self.source_address,
            destination_partition: destination,
            destination_context: self.target_context,
            durable: true,
            now,
        }
    }

    /// Decides whether a copy may be made: the connection must be for a repository, and where it has
    /// a token, the token must allow the source. Gives the repository that is copied to.
    pub fn handle(&self, destination: Option<Partition>, token_allows: Option<bool>) -> (r: Result<
        Partition,
        MessageHandleError,
    >)
        ensures
            r == if destination is None {
                Err::<Partition, MessageHandleError>(MessageHandleError::NotConnected)
            } else if token_allows == Some(false) {
                Err(MessageHandleError::AuthorizationFailure)
            } else {
                Ok(destination->0)
            },
            r == Self::allowed(destination, token_allows),
    {
        match destination {
            None => Err(MessageHandleError::NotConnected),
            Some(repository) => match token_allows {
                Some(false) => Err(MessageHandleError::AuthorizationFailure),
                _ => Ok(repository),
            },
        }
    }
}

/// Decides whether the source of a copy may be used on a connection with sessions: it must have had
/// one. Connections without sessions have made their own check.
pub fn check_session(session_allows: Option<bool>) -> (r: Result<(), MessageHandleError>)
    ensures
        r is Ok <==> session_allows != Some(false),
        r is Err ==> r->Err_0 == MessageHandleError::AuthorizationFailure,
{
    match session_allows {
        Some(false) => Err(MessageHandleError::AuthorizationFailure),
        _ => Ok(()),
    }
}

/// What the sender of a copy is told.
pub open spec fn copy_answer(outcome: Result<(), StoreError>) -> Result<
    CopyResponse,
    MessageHandleError,
> {
    if outcome is Ok {
        Ok(CopyResponse {  })
    } else if outcome->Err_0 is AddressNotFound {
        Err(MessageHandleError::FragmentNotFound)
    } else {
        Err(MessageHandleError::StoreFailure)
    }
}

/// The answer to a copy, from what the store said.
pub fn handle_copy(outcome: Result<(), StoreError>) -> (r: Result<CopyResponse, MessageHandleError>)
    ensures
        r == match outcome {
            Ok(()) => Ok::<CopyResponse, MessageHandleError>(CopyResponse {  }),
            Err(StoreError::AddressNotFound(_)) => Err(MessageHandleError::FragmentNotFound),
            Err(_) => Err(MessageHandleError::StoreFailure),
        },
        r == copy_answer(outcome),
{
    match outcome {
        Ok(()) => Ok(CopyResponse {  }),
        Err(StoreError::AddressNotFound(_)) => Err(MessageHandleError::FragmentNotFound),
        Err(_) => Err(MessageHandleError::StoreFailure),
    }
}

/// A message is read back from its bytes, in both forms: the first keeps the context of the source.
pub proof fn law_copy_message_round_trip(copy: Copy)
    ensures
        copy.bytes().len() == 64,
        copy.bytes_v4().len() == 80,
        message(copy.bytes_v4(), 64) == copy,
        message(copy.bytes(), 48) == (Copy {
            target_context: copy.source_address.context,
            ..copy
        }),
{
    lemma_spans();
    law_be_round_trip(copy.source_repository.value as nat, 16);
    law_be_round_trip(copy.source_address.hash.high as nat, 16);
    law_be_round_trip(copy.source_address.hash.low as nat, 16);
    law_be_round_trip(copy.source_address.context.value as nat, 16);
    law_be_round_trip(copy.target_context.value as nat, 16);
    let a = be_bytes(copy.source_repository.value as nat, 16);
    let b = be_bytes(copy.source_address.hash.high as nat, 16);
    let c = be_bytes(copy.source_address.hash.low as nat, 16);
    let d = be_bytes(copy.source_address.context.value as nat, 16);
    let e = be_bytes(copy.target_context.value as nat, 16);
    let short = copy.bytes();
    let long = copy.bytes_v4();
    assert(short.subrange(0, 16) =~= a && long.subrange(0, 16) =~= a);
    assert(short.subrange(16, 32) =~= b && long.subrange(16, 32) =~= b);
    assert(short.subrange(32, 48) =~= c && long.subrange(32, 48) =~= c);
    assert(short.subrange(48, 64) =~= d && long.subrange(48, 64) =~= d);
    assert(long.subrange(64, 80) =~= e);
}

/// A message in its later form whose target context is the source's says what the first form says.
pub proof fn law_forms_of_the_message_agree(bytes: Seq<u8>)
    requires
        bytes.len() == 80,
        bytes.subrange(64, 80) == bytes.subrange(48, 64),
    ensures
        message(bytes, 64) == message(bytes.subrange(0, 64), 48),
{
    let short = bytes.subrange(0, 64);
    assert(short.subrange(0, 16) =~= bytes.subrange(0, 16));
    assert(short.subrange(16, 32) =~= bytes.subrange(16, 32));
    assert(short.subrange(32, 48) =~= bytes.subrange(32, 48));
    assert(short.subrange(48, 64) =~= bytes.subrange(48, 64));
}

/// A message is fields of sixteen bytes, the most significant byte first: the repository of the
/// source, the two halves of its hash, its context, and in the later form the context of the target.
pub proof fn law_fields_of_the_message_have_their_places(copy: Copy)
    ensures
        be_value(copy.bytes_v4().subrange(0, 16)) == copy.source_repository.value,
        be_value(copy.bytes_v4().subrange(16, 32)) == copy.source_address.hash.high,
        be_value(copy.bytes_v4().subrange(32, 48)) == copy.source_address.hash.low,
        be_value(copy.bytes_v4().subrange(48, 64)) == copy.source_address.context.value,
        be_value(copy.bytes_v4().subrange(64, 80)) == copy.target_context.value,
        copy.bytes() == copy.bytes_v4().subrange(0, 64),
{
    law_copy_message_round_trip(copy);
    crate::encoding::lemma_spans();
    let b = copy.bytes_v4();
    crate::encoding::law_be_round_trip(copy.source_repository.value as nat, 16);
    crate::encoding::law_be_round_trip(copy.source_address.hash.high as nat, 16);
    crate::encoding::law_be_round_trip(copy.source_address.hash.low as nat, 16);
    crate::encoding::law_be_round_trip(copy.source_address.context.value as nat, 16);
    crate::encoding::law_be_round_trip(copy.target_context.value as nat, 16);
    assert(b.subrange(0, 16) =~= be_bytes(copy.source_repository.value as nat, 16));
    assert(b.subrange(16, 32) =~= be_bytes(copy.source_address.hash.high as nat, 16));
    assert(b.subrange(32, 48) =~= be_bytes(copy.source_address.hash.low as nat, 16));
    assert(b.subrange(48, 64) =~= be_bytes(copy.source_address.context.value as nat, 16));
    assert(b.subrange(64, 80) =~= be_bytes(copy.target_context.value as nat, 16));
    assert(b.subrange(0, 64) =~= copy.bytes());
}

/// A copy goes to the repository of its connection, and to no other. It is refused without one, and
/// where the token does not allow it.
pub proof fn law_copies_go_to_the_connected_repository(
    destination: Option<Partition>,
    token_allows: Option<bool>,
)
    ensures
        Copy::allowed(destination, token_allows) is Ok <==> destination is Some && token_allows
            != Some(false),
        Copy::allowed(destination, token_allows) is Ok ==> Copy::allowed(
            destination,
            token_allows,
        )->Ok_0 == destination->0,
        destination is None ==> Copy::allowed(destination, token_allows) == Err::<
            Partition,
            MessageHandleError,
        >(MessageHandleError::NotConnected),
        destination is Some && token_allows == Some(false) ==> Copy::allowed(
            destination,
            token_allows,
        ) == Err::<Partition, MessageHandleError>(MessageHandleError::AuthorizationFailure),
{
}

/// The copy that a message asks for leaves the fragment of its source, with the same hash, durable in
/// the repository of the connection, in the context that the message names. The sender is told that
/// the fragment was not found exactly if the source is not recorded.
pub proof fn law_copy_message_is_carried_out(
    copy: Copy,
    destination: Partition,
    now: u64,
    s: Seq<ImmutableStoreEntry>,
)
    requires
        sorted(s),
    ensures
        ({
            let (outcome, after) = copy.request_in(destination, now).result(s);
            let source = data_at(s, copy.source_repository, copy.source_address);
            let target = data_at(
                after,
                destination,
                Address { hash: copy.source_address.hash, context: copy.target_context },
            );
            &&& copy_answer(outcome) is Ok <==> source is Some
            &&& source is None ==> copy_answer(outcome) == Err::<CopyResponse, MessageHandleError>(
                MessageHandleError::FragmentNotFound,
            )
            &&& source is Some ==> target is Some && target->0.flags & PAYLOAD_STORED_DURABLE != 0
                && target->0.pack_file == source->0.pack_file && target->0.pack_offset
                == source->0.pack_offset && target->0.size_content == source->0.size_content
        }),
{
    crate::local::entry_laws::law_copy_takes_the_source(copy.request_in(destination, now), s);
}

} // verus!

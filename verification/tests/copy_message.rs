//! The message that copies a fragment.
use lore::error::{InternalError, StoreError};
use lore::local::copy::CopyRequest;
use lore::protocol::copy::{
    check_session, handle_copy, CopyResponse, MessageHandleError, MessageParseError,
};
use lore::types::{Address, Context, Partition};

fn make_copy_message() -> lore::protocol::copy::Copy {
    let context = Context::from_bytes(&[0x5a; 16]);
    let mut hash = [0u8; 32];
    for (i, byte) in hash.iter_mut().enumerate() {
        *byte = i as u8;
    }
    lore::protocol::copy::Copy {
        source_repository: Partition::from_bytes(&[0x17; 16]),
        source_address: Address {
            hash: lore::types::Hash::from_bytes(&hash),
            context,
        },
        target_context: context,
    }
}

fn make_copy_bytes() -> Vec<u8> {
    let mut bytes = vec![0x17u8; 16];
    for i in 0..32u8 {
        bytes.push(i);
    }
    for _ in 0..16 {
        bytes.push(0x5a);
    }
    bytes
}

#[test]
fn test_parse_valid() {
    let message = make_copy_message();
    let bytes = make_copy_bytes();
    assert_eq!(lore::protocol::copy::Copy::parse(&bytes), Ok(message));
}

#[test]
fn test_parse_too_short() {
    assert_eq!(
        lore::protocol::copy::Copy::parse(&vec![0u8; 32]),
        Err(MessageParseError::InvalidFieldLength)
    );
}

#[test]
fn test_parse_too_long() {
    assert_eq!(
        lore::protocol::copy::Copy::parse(&vec![0u8; 65]),
        Err(MessageParseError::InvalidFieldLength)
    );
}

#[test]
fn the_later_form_has_its_own_target_context() {
    let mut bytes = make_copy_bytes();
    for _ in 0..16 {
        bytes.push(0x99);
    }
    let mut message = make_copy_message();
    message.target_context = Context::from_bytes(&[0x99; 16]);
    assert_eq!(lore::protocol::copy::Copy::parse_v4(&bytes), Ok(message));
    assert_eq!(message.encode_v4(), bytes);
    assert_eq!(
        lore::protocol::copy::Copy::parse_v4(&bytes[..64]),
        Err(MessageParseError::InvalidFieldLength)
    );
}

#[test]
fn both_forms_agree_on_the_context_of_the_source() {
    let mut bytes = make_copy_bytes();
    let short = lore::protocol::copy::Copy::parse(&bytes);
    for _ in 0..16 {
        bytes.push(0x5a);
    }
    assert_eq!(lore::protocol::copy::Copy::parse_v4(&bytes), short);
}

#[test]
fn test_handle_not_connected() {
    let message = make_copy_message();
    assert_eq!(
        message.handle(None, Some(true)),
        Err(MessageHandleError::NotConnected)
    );
}

#[test]
fn test_handle_authorization_failure() {
    let message = make_copy_message();
    let destination = Partition { value: 3 };
    assert_eq!(
        message.handle(Some(destination), Some(false)),
        Err(MessageHandleError::AuthorizationFailure)
    );
    assert_eq!(message.handle(Some(destination), Some(true)), Ok(destination));
    assert_eq!(message.handle(Some(destination), None), Ok(destination));
    assert_eq!(
        check_session(Some(false)),
        Err(MessageHandleError::AuthorizationFailure)
    );
    assert_eq!(check_session(Some(true)), Ok(()));
    assert_eq!(check_session(None), Ok(()));
}

/// What a message asks of the store once it was let through.
fn let_through(message: &lore::protocol::copy::Copy) -> CopyRequest {
    let destination = Partition { value: 3 };
    let repository = message.handle(Some(destination), None).unwrap();
    assert_eq!(repository, destination);
    check_session(None).unwrap();
    message.copy_request(repository, 1)
}

#[test]
fn test_handle_fragment_not_found() {
    let asked = let_through(&make_copy_message());
    assert_eq!(
        handle_copy(Err(StoreError::AddressNotFound(asked.source_address))),
        Err(MessageHandleError::FragmentNotFound)
    );
    assert_eq!(
        handle_copy(Err(StoreError::Internal(InternalError::HashCollision))),
        Err(MessageHandleError::StoreFailure)
    );
}

#[test]
fn test_handle_success() {
    let message = make_copy_message();
    let asked = let_through(&message);
    assert_eq!(asked.source_partition, message.source_repository);
    assert_eq!(asked.source_address, message.source_address);
    assert_eq!(asked.destination_partition, Partition { value: 3 });
    assert_eq!(asked.destination_context, message.target_context);
    assert!(asked.durable);
    let response = handle_copy(Ok(())).unwrap();
    assert_eq!(response, CopyResponse::default());
    assert!(response.data().is_empty());
}

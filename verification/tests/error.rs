use dependency_injector::error::DiError;
use std::any::TypeId;

#[allow(dead_code)]
struct MissingService;

#[test]
fn test_not_found_message_contains_type_name_and_hint() {
    let err = DiError::not_found::<MissingService>("MissingService");
    let message = err.message();

    // Names the missing type
    assert!(message.contains("MissingService"));
    // Explains the likely causes
    assert!(message.contains("different scope"));
    assert!(message.contains("clear()"));
    // Points at the diagnostic helper
    assert!(message.contains("Container::debug_registrations()"));
}

#[test]
fn test_not_found_carries_type_id() {
    let err = DiError::not_found::<MissingService>("MissingService");
    match err {
        DiError::NotFound { type_id, .. } => {
            assert_eq!(type_id, TypeId::of::<MissingService>());
        }
        other => panic!("expected NotFound, got: {}", other.message()),
    }
}

#[test]
fn messages_of_every_variant() {
    assert_eq!(
        DiError::circular::<MissingService>("Cycle").message(),
        "Circular dependency detected while resolving: Cycle"
    );
    assert_eq!(
        DiError::creation_failed::<MissingService>("Db", "timeout".to_string()).message(),
        "Failed to create service Db: timeout"
    );
    assert_eq!(
        DiError::Locked.message(),
        "Container is locked - cannot register new services"
    );
    assert_eq!(
        DiError::already_registered::<MissingService>("Db").message(),
        "Service already registered: Db"
    );
    assert_eq!(DiError::ParentDropped.message(), "Parent scope has been dropped");
    assert_eq!(
        DiError::Internal("boom".to_string()).message(),
        "Internal DI error: boom"
    );
    assert_eq!(
        DiError::not_found::<MissingService>("X").message(),
        "Service not found: X (not registered in this scope chain; was it registered in a different scope, or removed by clear()? Container::debug_registrations() lists what is registered)"
    );
}

#[test]
fn clone_keeps_every_field() {
    let err = DiError::creation_failed::<MissingService>("Db", "why".to_string());
    let copy = err.clone();
    assert_eq!(copy.message(), err.message());
    let nf = DiError::not_found::<MissingService>("M");
    match nf.clone() {
        DiError::NotFound { service, type_id } => {
            assert_eq!(service, "M");
            assert_eq!(type_id, TypeId::of::<MissingService>());
        }
        other => panic!("expected NotFound, got: {}", other.message()),
    }
}

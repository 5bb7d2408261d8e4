use dependency_injector::ffi::{
    contains_nul, is_control_char, null_container, reject_json_payload, sanitize, set_last_error,
    DiContainer, DiErrorCode, LastError,
};

#[test]
fn test_container_lifecycle() {
    let container = DiContainer::new();
    assert_eq!(container.service_count(), 0);
    drop(container);
}

#[test]
fn test_register_and_resolve() {
    let mut container = DiContainer::new();
    let mut errors = LastError::new();
    let data = b"hello world";

    let result = container.register_singleton(&mut errors, Some(b"TestService"), Some(data), data.len());
    assert_eq!(result, DiErrorCode::Success);

    let resolve_result = container.resolve(&mut errors, Some(b"TestService"));
    assert_eq!(resolve_result.code, DiErrorCode::Success);
    assert!(resolve_result.service.is_some());

    let service = resolve_result.service.unwrap();
    assert_eq!(service.data_len(), 11);
    assert_eq!(service.data(), b"hello world");
}

#[test]
fn ffi_test_not_found() {
    let container = DiContainer::new();
    let mut errors = LastError::new();

    let result = container.resolve(&mut errors, Some(b"NonExistent"));
    assert_eq!(result.code, DiErrorCode::NotFound);
    assert!(result.service.is_none());
}

#[test]
fn test_contains() {
    let mut container = DiContainer::new();
    let mut errors = LastError::new();

    assert_eq!(container.contains(&mut errors, Some(b"TestService")), 0);

    let data = b"test";
    container.register_singleton(&mut errors, Some(b"TestService"), Some(data), data.len());

    assert_eq!(container.contains(&mut errors, Some(b"TestService")), 1);
}

#[test]
fn test_scope() {
    let mut parent = DiContainer::new();
    let mut errors = LastError::new();
    let data = b"parent";

    parent.register_singleton(&mut errors, Some(b"ParentService"), Some(data), data.len());

    let child = parent.scope();

    // Child should inherit parent's services
    assert_eq!(child.contains(&mut errors, Some(b"ParentService")), 1);
}

#[test]
fn test_duplicate_registration() {
    let mut container = DiContainer::new();
    let mut errors = LastError::new();
    let data = b"data";

    let first = container.register_singleton(&mut errors, Some(b"Duplicate"), Some(data), data.len());
    assert_eq!(first, DiErrorCode::Success);

    let second = container.register_singleton(&mut errors, Some(b"Duplicate"), Some(data), data.len());
    assert_eq!(second, DiErrorCode::AlreadyRegistered);
}

#[test]
fn test_json_register_and_resolve() {
    let mut container = DiContainer::new();
    let mut errors = LastError::new();
    let json = "{\"name\":\"test\"}";

    let result = container.register_singleton_json(&mut errors, Some(b"JsonService"), Some(json.as_bytes()));
    assert_eq!(result, DiErrorCode::Success);

    let resolved = container.resolve_json(&mut errors, Some(b"JsonService"));
    assert!(resolved.is_some());
    assert_eq!(resolved.unwrap(), "{\"name\":\"test\"}");
}

#[test]
fn test_resolve_json_not_found() {
    let container = DiContainer::new();
    let mut errors = LastError::new();

    errors.clear();
    let resolved = container.resolve_json(&mut errors, Some(b"Missing"));
    assert!(resolved.is_none());

    let error = errors.message();
    assert!(error.is_some());
    assert!(error.unwrap().contains("not found"));
}

#[test]
fn test_service_type_name() {
    let mut container = DiContainer::new();
    let mut errors = LastError::new();
    let data = b"data";

    container.register_singleton(&mut errors, Some(b"NamedService"), Some(data), data.len());

    let result = container.resolve(&mut errors, Some(b"NamedService"));
    assert_eq!(result.code, DiErrorCode::Success);

    let name = result.service.unwrap().name();
    assert!(name.is_some());
    assert_eq!(name.unwrap(), "NamedService");
}

#[test]
fn test_error_message_set_and_clear() {
    let container = DiContainer::new();
    let mut errors = LastError::new();

    let result = container.resolve(&mut errors, Some(b"Missing"));
    assert_eq!(result.code, DiErrorCode::NotFound);

    let error = errors.message();
    assert!(error.is_some());

    errors.clear();
    assert!(errors.message().is_none());
}

#[test]
fn test_service_count() {
    let mut container = DiContainer::new();
    let mut errors = LastError::new();
    assert_eq!(container.service_count(), 0);

    let data = b"data";
    container.register_singleton(&mut errors, Some(b"First"), Some(data), data.len());
    assert_eq!(container.service_count(), 1);

    container.register_singleton(&mut errors, Some(b"Second"), Some(data), data.len());
    assert_eq!(container.service_count(), 2);
}

// ---------------------------------------------------------------------------
// Argument validation, messages and error codes
// ---------------------------------------------------------------------------

#[test]
fn invalid_arguments_are_rejected_with_their_messages() {
    let mut container = DiContainer::new();
    let mut errors = LastError::new();

    assert_eq!(
        container.register_singleton(&mut errors, None, Some(b"x"), 1),
        DiErrorCode::InvalidArgument
    );
    assert_eq!(errors.message().unwrap(), "Type name is null");

    assert_eq!(
        container.register_singleton(&mut errors, Some(&[0xff, 0xfe]), Some(b"x"), 1),
        DiErrorCode::InvalidArgument
    );
    assert_eq!(errors.message().unwrap(), "Type name is not valid UTF-8");

    assert_eq!(
        container.register_singleton(&mut errors, Some(b"Svc"), None, 4),
        DiErrorCode::InvalidArgument
    );
    assert_eq!(errors.message().unwrap(), "Data pointer is null but length is non-zero");
    assert_eq!(container.service_count(), 0);

    // A null data pointer with zero length registers empty data.
    assert_eq!(
        container.register_singleton(&mut errors, Some(b"Empty"), None, 0),
        DiErrorCode::Success
    );
    let svc = container.resolve(&mut errors, Some(b"Empty")).service.unwrap();
    assert_eq!(svc.data_len(), 0);

    assert_eq!(null_container(&mut errors), DiErrorCode::InvalidArgument);
    assert_eq!(errors.message().unwrap(), "Container pointer is null");
}

#[test]
fn duplicate_message_names_the_service_and_keeps_first_data() {
    let mut container = DiContainer::new();
    let mut errors = LastError::new();
    container.register_singleton(&mut errors, Some(b"Dup"), Some(b"first"), 5);
    container.register_singleton(&mut errors, Some(b"Dup"), Some(b"second"), 6);
    assert_eq!(errors.message().unwrap(), "Service 'Dup' is already registered");
    let svc = container.resolve(&mut errors, Some(b"Dup")).service.unwrap();
    assert_eq!(svc.data(), b"first");
}

#[test]
fn messages_are_sanitized() {
    let container = DiContainer::new();
    let mut errors = LastError::new();
    let r = container.resolve(&mut errors, Some(b"Evil\nName\r\0"));
    assert_eq!(r.code, DiErrorCode::NotFound);
    assert_eq!(errors.message().unwrap(), "Service 'Evil Name  ' not found");
    set_last_error(&mut errors, "tab\there\u{7f}\u{85}ok");
    assert_eq!(errors.message().unwrap(), "tab here  ok");
    assert_eq!(sanitize("plain"), "plain");
    assert!(is_control_char('\u{9f}'));
    assert!(!is_control_char('\u{a0}'));
    assert!(!is_control_char('a'));
}

#[test]
fn json_paths_reject_bad_text() {
    let mut container = DiContainer::new();
    let mut errors = LastError::new();
    assert_eq!(
        container.register_singleton_json(&mut errors, Some(b"J"), None),
        DiErrorCode::InvalidArgument
    );
    assert_eq!(errors.message().unwrap(), "JSON data is null");
    assert_eq!(
        container.register_singleton_json(&mut errors, Some(b"J"), Some(&[0xc3])),
        DiErrorCode::InvalidArgument
    );
    assert_eq!(errors.message().unwrap(), "JSON data is not valid UTF-8");
    assert_eq!(reject_json_payload(&mut errors, Some(b"{}")), None);

    // Raw data that is not text, or that holds a zero byte, cannot be
    // returned as a C string.
    container.register_singleton(&mut errors, Some(b"Bin"), Some(&[0x80, 0x81]), 2);
    assert!(container.resolve_json(&mut errors, Some(b"Bin")).is_none());
    assert_eq!(errors.message().unwrap(), "Service data is not valid UTF-8");
    container.register_singleton(&mut errors, Some(b"Nul"), Some(b"a\0b"), 3);
    assert!(container.resolve_json(&mut errors, Some(b"Nul")).is_none());
    assert_eq!(errors.message().unwrap(), "JSON string contains null bytes");
    assert!(contains_nul(b"a\0b"));
    assert!(!contains_nul(b"ab"));
}

#[test]
fn contains_reports_bad_names() {
    let container = DiContainer::new();
    let mut errors = LastError::new();
    assert_eq!(container.contains(&mut errors, None), -1);
    assert_eq!(errors.message().unwrap(), "Type name is null");
    assert_eq!(container.contains(&mut errors, Some(&[0xff])), -1);
    assert_eq!(errors.message().unwrap(), "Type name is not valid UTF-8");
    errors.clear();
    assert_eq!(container.contains(&mut errors, Some(b"Nothing")), 0);
    assert!(errors.message().is_none());
}

#[test]
fn scope_is_a_snapshot() {
    let mut parent = DiContainer::new();
    let mut errors = LastError::new();
    parent.register_singleton(&mut errors, Some(b"A"), Some(b"1"), 1);
    let mut child = parent.scope();
    parent.register_singleton(&mut errors, Some(b"B"), Some(b"2"), 1);
    child.register_singleton(&mut errors, Some(b"C"), Some(b"3"), 1);
    assert_eq!(child.contains(&mut errors, Some(b"B")), 0);
    assert_eq!(parent.contains(&mut errors, Some(b"C")), 0);
    assert_eq!(child.contains(&mut errors, Some(b"A")), 1);
    assert_eq!(DiErrorCode::AlreadyRegistered.value(), 3);
    assert_eq!(DiErrorCode::Success.value(), 0);
}

#[test]
fn first_registration_of_a_name_wins() {
    let mut container = DiContainer::new();
    let mut errors = LastError::new();
    let mut codes = Vec::new();
    for round in 0..8u8 {
        let data = [b'a' + round];
        codes.push(container.register_singleton(&mut errors, Some(b"race"), Some(&data), 1));
    }
    assert_eq!(codes[0], DiErrorCode::Success);
    assert!(codes[1..].iter().all(|c| *c == DiErrorCode::AlreadyRegistered));
    assert_eq!(container.service_count(), 1);
    let got = container.resolve(&mut errors, Some(b"race"));
    assert_eq!(got.service.unwrap().data(), b"a");
}

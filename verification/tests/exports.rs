use isyswasfa::exports::{is_poll_name, load_poll_names, poll_export_names, LoadError};

/// A component binary with one export section holding the given exports,
/// each a name and a kind byte (1 for a function, 5 for an instance).
fn component_with_exports(exports: &[(&str, u8)]) -> Vec<u8> {
    let mut section = vec![exports.len() as u8];
    for (name, kind) in exports {
        section.push(0x00);
        section.push(name.len() as u8);
        section.extend_from_slice(name.as_bytes());
        section.push(*kind);
        section.push(0x00);
        section.push(0x00);
    }
    let mut bytes = vec![0x00, 0x61, 0x73, 0x6d, 0x0d, 0x00, 0x01, 0x00];
    bytes.push(11);
    bytes.push(section.len() as u8);
    bytes.extend_from_slice(&section);
    bytes
}

#[test]
fn poll_names_are_the_prefixed_function_exports_in_order() {
    let component = component_with_exports(&[
        ("isyswasfa-poll-abc123", 1),
        ("foo", 1),
        ("isyswasfa-poll-instance", 5),
        ("isyswasfa-poll-2", 1),
    ]);
    let names = load_poll_names(&component).ok().unwrap();
    assert_eq!(names, vec![String::from("isyswasfa-poll-abc123"), String::from("isyswasfa-poll-2")]);
}

#[test]
fn component_without_poll_functions_is_refused() {
    let component = component_with_exports(&[("foo", 1), ("isyswasfa-poll", 5)]);
    assert!(matches!(load_poll_names(&component), Err(LoadError::NoPollFunctions)));
    let empty = component_with_exports(&[]);
    assert!(matches!(load_poll_names(&empty), Err(LoadError::NoPollFunctions)));
}

#[test]
fn unreadable_component_is_refused() {
    assert!(matches!(load_poll_names(&[1, 2, 3, 4]), Err(LoadError::Parse(_))));
    let mut truncated = component_with_exports(&[("isyswasfa-poll-a", 1)]);
    truncated.truncate(truncated.len() - 3);
    assert!(matches!(load_poll_names(&truncated), Err(LoadError::Parse(_))));
}

#[test]
fn poll_prefix_is_matched_exactly() {
    assert!(is_poll_name("isyswasfa-poll"));
    assert!(is_poll_name("isyswasfa-poll-abc123"));
    assert!(!is_poll_name("isyswasfa-pol"));
    assert!(!is_poll_name("xisyswasfa-poll"));
    assert!(!is_poll_name("ISYSWASFA-POLL"));
    assert!(!is_poll_name(""));
}

#[test]
fn export_names_are_filtered_by_kind_and_prefix() {
    let exports = vec![
        (String::from("isyswasfa-poll-1"), true),
        (String::from("isyswasfa-poll-2"), false),
        (String::from("other"), true),
    ];
    assert_eq!(poll_export_names(&exports), vec![String::from("isyswasfa-poll-1")]);
}

use saorsa_gossip::config::TraversalMethod;
use saorsa_gossip::roles::{parse_roles, role_from_name, roles_from_names, split_on_commas, trim, Role};

#[test]
fn test_parse_roles_coordinator_only() {
    let roles = parse_roles("coordinator").expect("should parse");
    assert!(roles.coordinator);
    assert!(!roles.reflector);
    assert!(!roles.relay);
    assert!(!roles.rendezvous);
}

#[test]
fn test_parse_roles_multiple() {
    let roles = parse_roles("coordinator,reflector,relay").expect("should parse");
    assert!(roles.coordinator);
    assert!(roles.reflector);
    assert!(roles.relay);
    assert!(!roles.rendezvous);
}

#[test]
fn test_parse_roles_all() {
    let roles = parse_roles("coordinator,reflector,relay,rendezvous").expect("should parse");
    assert!(roles.coordinator);
    assert!(roles.reflector);
    assert!(roles.relay);
    assert!(roles.rendezvous);
}

#[test]
fn test_parse_roles_case_insensitive() {
    let roles = parse_roles("COORDINATOR,Reflector,RELAY").expect("should parse");
    assert!(roles.coordinator);
    assert!(roles.reflector);
    assert!(roles.relay);
}

#[test]
fn test_parse_roles_with_spaces() {
    let roles = parse_roles("coordinator, reflector , relay").expect("should parse");
    assert!(roles.coordinator);
    assert!(roles.reflector);
    assert!(roles.relay);
}

#[test]
fn test_parse_roles_unknown_fails() {
    let result = parse_roles("coordinator,unknown");
    assert!(result.is_err());
    assert!(result.unwrap_err().to_string().contains("Unknown role"));
}

#[test]
fn test_parse_roles_empty_string() {
    let roles = parse_roles("").expect("should parse empty");
    assert!(!roles.coordinator);
    assert!(!roles.reflector);
    assert!(!roles.relay);
    assert!(!roles.rendezvous);
}

#[test]
fn test_traversal_method_ordering() {
    assert!(TraversalMethod::Direct < TraversalMethod::Reflexive);
    assert!(TraversalMethod::Reflexive < TraversalMethod::Relay);
    assert!(TraversalMethod::Direct < TraversalMethod::Relay);
}

#[test]
fn traversal_rank_follows_preference() {
    assert_eq!(TraversalMethod::Direct.rank(), 0);
    assert_eq!(TraversalMethod::Reflexive.rank(), 1);
    assert_eq!(TraversalMethod::Relay.rank(), 2);
}

#[test]
fn unknown_role_message_names_the_role() {
    let err = parse_roles("relay,,Bogus ").unwrap_err();
    assert_eq!(err.to_string(), "Unknown role: bogus");
}

#[test]
fn first_unknown_role_is_reported() {
    let err = parse_roles("alpha,beta").unwrap_err();
    assert_eq!(err.to_string(), "Unknown role: alpha");
}

#[test]
fn empty_pieces_are_skipped() {
    let roles = parse_roles(",,rendezvous,").expect("should parse");
    assert!(roles.rendezvous);
    assert!(!roles.coordinator);
}

#[test]
fn split_keeps_empty_pieces() {
    let pieces = split_on_commas("a,,b c,");
    assert_eq!(pieces, vec!["a", "", "b c", ""]);
    assert_eq!(split_on_commas(""), vec![""]);
}

#[test]
fn trim_strips_unicode_whitespace() {
    assert_eq!(trim("  relay\t\n"), "relay");
    assert_eq!(trim("\u{2003}relay\u{00a0}"), "relay");
    assert_eq!(trim("   "), "");
    assert_eq!(trim("a b"), "a b");
}

#[test]
fn role_names_are_exact_lowercase() {
    assert_eq!(role_from_name("coordinator"), Some(Role::Coordinator));
    assert_eq!(role_from_name("reflector"), Some(Role::Reflector));
    assert_eq!(role_from_name("relay"), Some(Role::Relay));
    assert_eq!(role_from_name("rendezvous"), Some(Role::Rendezvous));
    assert_eq!(role_from_name("Relay"), None);
    assert_eq!(role_from_name("relays"), None);
}

#[test]
fn roles_from_lowercased_names() {
    let names = vec!["relay".to_string(), "".to_string(), "coordinator".to_string()];
    let roles = roles_from_names(&names).expect("known names");
    assert!(roles.relay && roles.coordinator && !roles.reflector && !roles.rendezvous);
    let bad = vec!["relay".to_string(), "RELAY".to_string()];
    assert_eq!(roles_from_names(&bad).unwrap_err().to_string(), "Unknown role: RELAY");
}

#[test]
fn lowercasing_is_unicode_aware() {
    let roles = parse_roles("RENDEZVOUS").expect("should parse");
    assert!(roles.rendezvous);
    let err = parse_roles("ÉCLAIR").unwrap_err();
    assert_eq!(err.to_string(), "Unknown role: éclair");
}

#[test]
fn whitespace_matches_std() {
    for u in 0..=0x10ffffu32 {
        if let Some(c) = char::from_u32(u) {
            assert_eq!(saorsa_gossip::roles::is_whitespace(c), c.is_whitespace(), "U+{:04X}", u);
        }
    }
}

use line_broadcast::ClientRegistry;

#[test]
fn identifiers_are_distinct_and_increasing() {
    let mut reg = ClientRegistry::new();
    let mut ids = Vec::new();
    for _ in 0..5 {
        ids.push(reg.register());
    }
    assert_eq!(ids, vec![0, 1, 2, 3, 4]);
    assert_eq!(reg.len(), 5);
}

#[test]
fn identifiers_are_not_reused_after_unregister() {
    let mut reg = ClientRegistry::new();
    let a = reg.register();
    let b = reg.register();
    assert_eq!(reg.unregister(a), Some(0));
    let c = reg.register();
    assert_eq!((a, b, c), (0, 1, 2));
    assert!(!reg.contains(a));
    assert!(reg.contains(b));
    assert!(reg.contains(c));
    assert_eq!(reg.position(c), Some(1));
}

#[test]
fn unregister_unknown_identifier_changes_nothing() {
    let mut reg = ClientRegistry::new();
    reg.register();
    assert_eq!(reg.unregister(7), None);
    assert_eq!(reg.len(), 1);
}

#[test]
fn fresh_registry_is_not_exhausted() {
    let reg = ClientRegistry::new();
    assert!(!reg.is_exhausted());
    assert_eq!(reg.len(), 0);
}

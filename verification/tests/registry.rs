use memstapler::namespace::NamespaceToken;
use memstapler::registry::Registry;

fn named(link: &str) -> NamespaceToken {
    NamespaceToken::Named(link.to_string())
}

#[test]
fn new_registry_has_no_workers() {
    let registry = Registry::new();
    assert_eq!(registry.len(), 0);
    assert!(registry.ids().is_empty());
    assert_eq!(registry.lookup(&NamespaceToken::Own), None);
}

#[test]
fn worker_is_found_by_its_namespace() {
    let mut registry = Registry::new();
    assert!(registry.register(NamespaceToken::Own, 11));
    assert!(registry.register(named("mnt:[7]"), 12));
    assert_eq!(registry.lookup(&NamespaceToken::Own), Some(11));
    assert_eq!(registry.lookup(&named("mnt:[7]")), Some(12));
    assert_eq!(registry.lookup(&named("mnt:[8]")), None);
    assert_eq!(registry.lookup(&named("-")), None);
    assert_eq!(registry.len(), 2);
    assert_eq!(registry.ids(), vec![11, 12]);
}

#[test]
fn namespace_keeps_the_worker_it_has() {
    let mut registry = Registry::new();
    assert!(registry.register(named("mnt:[7]"), 12));
    assert!(!registry.register(named("mnt:[7]"), 13));
    assert_eq!(registry.lookup(&named("mnt:[7]")), Some(12));
    assert_eq!(registry.len(), 1);
}

#[test]
fn dead_workers_are_removed() {
    let mut registry = Registry::new();
    registry.register(NamespaceToken::Own, 11);
    registry.register(named("mnt:[7]"), 12);
    registry.register(named("mnt:[8]"), 13);
    registry.reap(&vec![12, 99]);
    assert_eq!(registry.lookup(&NamespaceToken::Own), Some(11));
    assert_eq!(registry.lookup(&named("mnt:[7]")), None);
    assert_eq!(registry.lookup(&named("mnt:[8]")), Some(13));
    assert_eq!(registry.ids(), vec![11, 13]);
    registry.reap(&Vec::new());
    assert_eq!(registry.len(), 2);
    registry.reap(&vec![13, 11, 13]);
    assert_eq!(registry.len(), 0);
}

#[test]
fn namespace_gets_a_new_worker_after_its_worker_died() {
    let mut registry = Registry::new();
    registry.register(named("mnt:[7]"), 12);
    registry.reap(&vec![12]);
    assert_eq!(registry.lookup(&named("mnt:[7]")), None);
    assert!(registry.register(named("mnt:[7]"), 40));
    assert_eq!(registry.lookup(&named("mnt:[7]")), Some(40));
}

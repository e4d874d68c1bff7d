use memstapler::namespace::{JoinSearch, NamespaceToken};

#[test]
fn dash_stands_for_the_own_namespace() {
    assert_eq!(NamespaceToken::from_arg("-"), NamespaceToken::Own);
    assert_eq!(NamespaceToken::Own.to_arg(), "-");
}

#[test]
fn any_other_argument_is_a_link_target() {
    for arg in ["mnt:[4026531840]", "", "--", "- ", "self", "."] {
        assert_eq!(NamespaceToken::from_arg(arg), NamespaceToken::Named(arg.to_string()));
        assert_eq!(NamespaceToken::Named(arg.to_string()).to_arg(), arg);
    }
}

#[test]
fn token_survives_the_way_to_the_worker() {
    for token in [NamespaceToken::Own, NamespaceToken::Named("mnt:[4026532500]".to_string())] {
        assert_eq!(NamespaceToken::from_arg(&token.to_arg()), token);
    }
}

#[test]
fn tokens_compare_by_what_they_name() {
    let a = NamespaceToken::Named("mnt:[1]".to_string());
    let b = NamespaceToken::Named("mnt:[2]".to_string());
    assert!(a.same(&a.clone()));
    assert!(!a.same(&b));
    assert!(!a.same(&NamespaceToken::Own));
    assert!(!NamespaceToken::Own.same(&a));
    assert!(NamespaceToken::Own.same(&NamespaceToken::Own));
    assert_eq!(a.clone(), a);
}

#[test]
fn token_for_a_link() {
    assert_eq!(
        NamespaceToken::for_link(Some("mnt:[1]"), "mnt:[1]"),
        NamespaceToken::Own
    );
    assert_eq!(
        NamespaceToken::for_link(Some("mnt:[1]"), "mnt:[2]"),
        NamespaceToken::Named("mnt:[2]".to_string())
    );
    assert_eq!(
        NamespaceToken::for_link(None, "mnt:[1]"),
        NamespaceToken::Named("mnt:[1]".to_string())
    );
}

#[test]
fn only_named_namespaces_are_joined() {
    assert!(!NamespaceToken::Own.needs_join());
    assert!(NamespaceToken::Named("mnt:[1]".to_string()).needs_join());
    assert!(!NamespaceToken::from_arg("-").needs_join());
}

#[test]
fn link_is_matched_by_its_text() {
    let token = NamespaceToken::Named("mnt:[1]".to_string());
    assert!(token.names_link("mnt:[1]"));
    assert!(!token.names_link("mnt:[10]"));
    assert!(!token.names_link(""));
    assert!(!NamespaceToken::Own.names_link("-"));
    assert!(!NamespaceToken::Own.names_link("mnt:[1]"));
}

#[test]
fn worker_for_the_own_namespace_never_joins() {
    let mut search = JoinSearch::new(NamespaceToken::from_arg("-"));
    assert!(search.is_settled());
    for link in ["-", "mnt:[1]", ""] {
        assert!(!search.wants(link));
    }
    search.record(false);
    assert!(search.is_settled());
    assert!(!search.wants("mnt:[1]"));
}

#[test]
fn worker_joins_through_the_first_candidate_that_lets_it() {
    let mut search = JoinSearch::new(NamespaceToken::from_arg("mnt:[7]"));
    assert!(!search.is_settled());
    assert!(!search.wants("mnt:[1]"));
    assert!(search.wants("mnt:[7]"));
    search.record(false);
    assert!(!search.is_settled());
    assert!(search.wants("mnt:[7]"));
    search.record(true);
    assert!(search.is_settled());
    assert!(!search.wants("mnt:[7]"));
    search.record(false);
    assert!(search.is_settled());
}

#[test]
fn worker_without_a_candidate_gives_up() {
    let mut search = JoinSearch::new(NamespaceToken::from_arg("mnt:[7]"));
    for link in ["mnt:[1]", "mnt:[2]", "mnt:[70]"] {
        assert!(!search.wants(link));
    }
    assert!(!search.is_settled());
    search.record(false);
    search.record(false);
    assert!(!search.is_settled());
}

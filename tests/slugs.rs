use memexpert::slugs::{SlugDirectory, SlugError};

fn s(x: &str) -> String {
    x.to_string()
}

#[test]
fn slug_redirect_round_trip() {
    let mut d = SlugDirectory::new();
    assert_eq!(d.add_document(s("old-cat"), 1), Ok(()));
    assert_eq!(d.add_document(s("dog"), 2), Ok(()));
    assert_eq!(d.rename(1, s("new-cat")), Ok(()));
    assert_eq!(d.resolve(&s("old-cat")), Some(1));
    assert_eq!(d.resolve(&s("new-cat")), Some(1));
    assert_eq!(d.get_slug_redirect(&s("old-cat")), Some(s("new-cat")));
    assert_eq!(d.resolve(&s("never")), None);
    assert_eq!(d.get_slug_redirect(&s("never")), None);
    assert_eq!(d.resolve(&s("dog")), Some(2));
}

#[test]
fn redirects_follow_later_renames() {
    let mut d = SlugDirectory::new();
    d.add_document(s("a"), 1).unwrap();
    d.rename(1, s("b")).unwrap();
    d.rename(1, s("c")).unwrap();
    assert_eq!(d.get_slug_redirect(&s("a")), Some(s("c")));
    assert_eq!(d.get_slug_redirect(&s("b")), Some(s("c")));
    assert_eq!(d.resolve(&s("c")), Some(1));
}

#[test]
fn former_slug_taken_by_another_document() {
    let mut d = SlugDirectory::new();
    d.add_document(s("a"), 1).unwrap();
    d.rename(1, s("b")).unwrap();
    // The freed slug goes to a new document: direct addressing wins over the redirect.
    d.add_document(s("a"), 2).unwrap();
    assert_eq!(d.resolve(&s("a")), Some(2));
    // Renaming 2 away makes "a" redirect to 2 from now on.
    d.rename(2, s("z")).unwrap();
    assert_eq!(d.resolve(&s("a")), Some(2));
}

#[test]
fn rename_errors() {
    let mut d = SlugDirectory::new();
    d.add_document(s("a"), 1).unwrap();
    d.add_document(s("b"), 2).unwrap();
    assert_eq!(d.rename(1, s("b")), Err(SlugError::SlugTaken));
    assert_eq!(d.rename(9, s("q")), Err(SlugError::UnknownDocument));
    assert_eq!(d.rename(1, s("a")), Ok(()));
    assert_eq!(d.get_slug_redirect(&s("a")), None);
    assert_eq!(d.add_document(s("a"), 3), Err(SlugError::SlugTaken));
    assert_eq!(d.add_document(s("c"), 2), Err(SlugError::DuplicateDocument));
}

#[test]
fn available_slug_appends_first_free_number() {
    let mut d = SlugDirectory::new();
    d.add_document(s("cat"), 1).unwrap();
    d.add_document(s("cat-1"), 2).unwrap();
    d.add_document(s("cat-3"), 3).unwrap();
    assert_eq!(d.available_slug("cat"), "cat-2");
    assert_eq!(d.available_slug("dog"), "dog");
    assert_eq!(d.available_slug("cat-1"), "cat-1-1");
    // A renamed-away slug is free again for direct use.
    d.rename(2, s("kitten")).unwrap();
    assert_eq!(d.available_slug("cat"), "cat-1");
}

#[test]
fn update_slug_takes_first_free_and_redirects() {
    let mut d = SlugDirectory::new();
    d.add_document(s("cat"), 1).unwrap();
    d.add_document(s("dog"), 2).unwrap();
    // "cat" is held by document 1, so document 2 gets "cat-1".
    assert_eq!(d.update_slug(2, "cat"), Ok(s("cat-1")));
    assert_eq!(d.resolve(&s("cat-1")), Some(2));
    assert_eq!(d.resolve(&s("dog")), Some(2));
    assert_eq!(d.get_slug_redirect(&s("dog")), Some(s("cat-1")));
    // A free slug is taken as asked.
    assert_eq!(d.update_slug(1, "kitten"), Ok(s("kitten")));
    assert_eq!(d.resolve(&s("cat")), Some(1));
    // Asking for the current slug changes nothing.
    assert_eq!(d.update_slug(1, "kitten"), Ok(s("kitten")));
    assert_eq!(d.get_slug_redirect(&s("kitten")), None);
    assert_eq!(d.update_slug(7, "x"), Err(SlugError::UnknownDocument));
}

#[test]
fn add_document_succeeds_when_free() {
    let mut d = SlugDirectory::new();
    assert_eq!(d.add_document(s("fresh"), 5), Ok(()));
    assert_eq!(d.resolve(&s("fresh")), Some(5));
}

#[test]
fn recorded_redirects_resolve() {
    let mut d = SlugDirectory::new();
    d.add_document(s("now"), 3).unwrap();
    d.record_redirect(s("then"), 3);
    assert_eq!(d.resolve(&s("then")), Some(3));
    assert_eq!(d.get_slug_redirect(&s("then")), Some(s("now")));
    // A redirect to an unknown document reaches nothing.
    d.record_redirect(s("gone"), 9);
    assert_eq!(d.resolve(&s("gone")), None);
    // A later redirect of the same slug replaces the earlier one.
    d.add_document(s("other"), 4).unwrap();
    d.record_redirect(s("then"), 4);
    assert_eq!(d.get_slug_redirect(&s("then")), Some(s("other")));
}

use crawler::url::Url;
use crawler::url::UrlError;

#[test]
fn test_urls_with_paths() {
    let url = Url::parse("https://example.com/foo/bar/").unwrap();
    assert_eq!(url.scheme.render(), "https");
    assert_eq!(url.host, "example.com");
    assert_eq!(url.path, Some("foo/bar".to_string()));
    assert_eq!(url.render(), "https://example.com/foo/bar");
}

#[test]
fn test_urls_with_fragments() {
    let url = Url::parse("https://example.com/foo/bar#section1").unwrap();
    assert_eq!(url.path, Some("foo/bar".to_string()));
    assert_eq!(url.render(), "https://example.com/foo/bar");

    let url = Url::parse("https://example.com/#top").unwrap();
    assert!(url.path.is_none());
    assert_eq!(url.render(), "https://example.com");
}

#[test]
fn test_new_with_base_absolute_path() {
    let base = Url::parse("https://example.com/").unwrap();

    let url = Url::new_with_base(&base, "/foo/bar").unwrap();
    assert_eq!(url.render(), "https://example.com/foo/bar");

    let url = Url::new_with_base(&base, "https://example.com/foo/bar").unwrap();
    assert_eq!(url.render(), "https://example.com/foo/bar");
}

#[test]
fn test_display_format() {
    let url = Url::parse("https://example.com/foo/bar").unwrap();
    assert_eq!(url.render(), "https://example.com/foo/bar");
}

#[test]
fn parse_round_trip_examples() {
    for text in [
        "https://example.com",
        "https://example.com/a",
        "http://example.com/foo/bar",
        "https://a.b.c/x/y/z",
    ] {
        let url = Url::parse(text).unwrap();
        assert_eq!(url.render(), text);
    }
}

#[test]
fn parse_errors() {
    assert!(matches!(Url::parse("example.com"), Err(UrlError::MissingScheme)));
    assert!(matches!(Url::parse("ftp://example.com/x"), Err(UrlError::InvalidScheme)));
    assert!(matches!(Url::parse("https:///x"), Err(UrlError::MissingHost)));
    assert!(matches!(Url::parse("https://"), Err(UrlError::MissingHost)));
}

#[test]
fn scope_confinement() {
    let base = Url::parse("https://example.com").unwrap();

    let a = Url::new_with_base(&base, "/foo/bar").unwrap();
    let b = Url::new_with_base(&base, "https://example.com/foo/bar").unwrap();
    assert_eq!(a, b);

    assert!(matches!(
        Url::new_with_base(&base, "https://other.com/x"),
        Err(UrlError::DifferentSchemeOrHost)
    ));
    assert!(matches!(
        Url::new_with_base(&base, "ftp://example.com/x"),
        Err(UrlError::UnexpectedFormat)
    ));
    assert!(matches!(
        Url::new_with_base(&base, "mailto:someone@example.com"),
        Err(UrlError::UnexpectedFormat)
    ));
    assert!(matches!(
        Url::new_with_base(&base, "relative/path"),
        Err(UrlError::UnexpectedFormat)
    ));
    assert!(matches!(
        Url::new_with_base(&base, "//example.com/x"),
        Err(UrlError::UnexpectedFormat)
    ));

    let root = Url::new_with_base(&base, "/").unwrap();
    assert!(root.path.is_none());
    assert_eq!(root.render(), "https://example.com");
}

use mihomosh::download::{
    download_candidates, keeps_geoip_db, Attempts, FetchStep, GEOIP_METADB_URL,
    MIHOMO_LATEST_RELEASE_API, WEB_UI_TARBALL_URLS,
};

/// The addresses that are tried when every attempt fails.
fn tried(mut attempts: Attempts) -> Vec<String> {
    let mut urls = Vec::new();
    while let FetchStep::Fetch(url) = attempts.step() {
        urls.push(url);
        attempts.fail();
    }
    attempts.fail();
    assert!(matches!(attempts.step(), FetchStep::GiveUp));
    urls
}

#[test]
fn github_has_mirrors() {
    assert_eq!(
        download_candidates("https://github.com/a"),
        vec![
            "https://github.com/a",
            "https://gh-proxy.com/https://github.com/a",
            "https://ghproxy.net/https://github.com/a",
        ]
    );
    assert_eq!(
        download_candidates("https://codeload.github.com/a").len(),
        3
    );
    assert_eq!(download_candidates(GEOIP_METADB_URL).len(), 3);
}

#[test]
fn other_places_have_no_mirrors() {
    for url in [
        "https://example.com/https://github.com/",
        "http://github.com/a",
        "https://github.com",
        MIHOMO_LATEST_RELEASE_API,
    ] {
        assert_eq!(download_candidates(url), vec![url]);
    }
}

#[test]
fn addresses_are_tried_three_times_each() {
    let a = "https://github.com/a";
    let b = "https://gh-proxy.com/https://github.com/a";
    let c = "https://ghproxy.net/https://github.com/a";
    assert_eq!(
        tried(Attempts::download(a)),
        vec![a, a, a, b, b, b, c, c, c]
    );
    assert_eq!(tried(Attempts::download("x")), vec!["x", "x", "x"]);
    assert_eq!(Attempts::download("x").delay_seconds(), 2);
}

#[test]
fn web_interface_is_tried_once_at_each_place() {
    assert_eq!(tried(Attempts::web_ui()), WEB_UI_TARBALL_URLS.to_vec());
    assert_eq!(Attempts::web_ui().delay_seconds(), 0);
}

#[test]
fn database_with_something_in_it_stays() {
    assert!(keeps_geoip_db(true, Some(1)));
    assert!(!keeps_geoip_db(true, Some(0)));
    assert!(!keeps_geoip_db(true, None));
    assert!(!keeps_geoip_db(false, Some(1)));
}

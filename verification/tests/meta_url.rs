use mihomosh::meta_url::{checked_meta_url, make_meta_url, meta_pairs};
use url::Url;

fn meta(text: &str) -> String {
    make_meta_url(Url::parse(text).unwrap()).as_str().to_owned()
}

fn pairs(list: &[(&str, &str)]) -> Vec<(String, String)> {
    list.iter()
        .map(|(key, value)| (key.to_string(), value.to_string()))
        .collect()
}

#[test]
fn make_meta_url_adds_flag() {
    let url = Url::parse("https://example.com/api/v1/client/subscribe?token=abc&foo=bar").unwrap();

    assert_eq!(
        make_meta_url(url).as_str(),
        "https://example.com/api/v1/client/subscribe?token=abc&foo=bar&flag=meta"
    );
}

#[test]
fn make_meta_url_replaces_existing_flag() {
    let url =
        Url::parse("https://example.com/api/v1/client/subscribe?token=abc&flag=clash").unwrap();

    assert_eq!(
        make_meta_url(url).as_str(),
        "https://example.com/api/v1/client/subscribe?token=abc&flag=meta"
    );
}

#[test]
fn address_without_a_query_gets_one() {
    assert_eq!(meta("https://example.com"), "https://example.com/?flag=meta");
    assert_eq!(
        meta("https://example.com/a?"),
        "https://example.com/a?flag=meta"
    );
}

#[test]
fn fragment_stays_behind_the_query() {
    assert_eq!(
        meta("https://example.com/a?b=c#d"),
        "https://example.com/a?b=c&flag=meta#d"
    );
    assert_eq!(
        meta("https://example.com/a#d"),
        "https://example.com/a?flag=meta#d"
    );
}

#[test]
fn pairs_are_written_as_a_form_is() {
    assert_eq!(
        meta("https://example.com/?a=b%20c&d=%E9%9B%AA&e=f+g&h&i==&j=*-._~"),
        "https://example.com/?a=b+c&d=%E9%9B%AA&e=f+g&h=&i=%3D&j=*-._%7E&flag=meta"
    );
}

#[test]
fn every_flag_goes() {
    assert_eq!(
        meta("https://example.com/?flag=a&x=1&fl%61g=b&Flag=c&flag"),
        "https://example.com/?x=1&Flag=c&flag=meta"
    );
}

#[test]
fn opaque_address_loses_its_last_spaces() {
    assert_eq!(meta("mailto:someone"), "mailto:someone?flag=meta");
    assert_eq!(meta("data:a?b=c"), "data:a?b=c&flag=meta");
    for text in ["data:a b  ?c=d", "data:a  #e", "data:a  ?c=d#e", "data:a  ?#"] {
        let mut expected = Url::parse(text).unwrap();
        let kept: Vec<(String, String)> = expected.query_pairs().into_owned().collect();
        expected.set_query(None);
        for (key, value) in &kept {
            expected.query_pairs_mut().append_pair(key, value);
        }
        expected.query_pairs_mut().append_pair("flag", "meta");
        assert_eq!(meta(text), expected.as_str());
    }
}

#[test]
fn meta_address_stays_as_it_is() {
    for text in [
        "https://example.com",
        "https://example.com/?a=b%20c&flag=x#f",
        "https://example.com/?%00=%ff",
    ] {
        let once = meta(text);
        assert_eq!(meta(&once), once);
    }
}

#[test]
fn checked_address_is_the_same() {
    let url = Url::parse("https://example.com/?token=a&flag=b").unwrap();
    assert_eq!(
        checked_meta_url(url).unwrap().as_str(),
        "https://example.com/?token=a&flag=meta"
    );
}

#[test]
fn flag_comes_once_and_last() {
    assert_eq!(meta_pairs(&pairs(&[])), pairs(&[("flag", "meta")]));
    assert_eq!(
        meta_pairs(&pairs(&[("flag", "a"), ("x", "1"), ("flag", "meta"), ("y", "flag")])),
        pairs(&[("x", "1"), ("y", "flag"), ("flag", "meta")])
    );
    let once = meta_pairs(&pairs(&[("b", "1"), ("flag", "0"), ("a", "2")]));
    assert_eq!(meta_pairs(&once), once);
}

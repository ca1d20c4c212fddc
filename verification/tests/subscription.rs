use mihomosh::merge::merge_sections;
use mihomosh::reading::is_readable;
use mihomosh::sections::find_top_level_section_range;
use mihomosh::subscription::{
    close_text, get_subscription_section, parse_subscription, render_section,
    replace_subscription_sections, SubscriptionError,
};
use mihomosh::writing::is_writable;
use serde_yml::value::{Tag, TaggedValue};
use serde_yml::{Mapping, Value};

fn yaml(input: &str) -> Value {
    serde_yml::from_str(input).unwrap()
}

fn get<'a>(value: &'a Value, key: &str) -> &'a Value {
    let key = Value::String(key.to_owned());
    value.as_mapping().unwrap().get(&key).unwrap()
}

#[test]
fn replace_subscription_sections_only_updates_subscription_keys() {
    let current = r#"
mixed-port: 7890
allow-lan: true
dns:
  enable: true
# keep before proxies
proxies:
  - name: old
    type: direct
proxy-groups:
  - name: old-group
    type: select
    proxies:
      - old
rules:
  - MATCH,old
profile:
  store-selected: true
"#;
    let subscription = yaml(
        r#"
mixed-port: 9999
allow-lan: false
dns:
  enable: false
proxies:
  - name: new
    type: direct
proxy-groups:
  - name: new-group
    type: select
    proxies:
      - new
rules:
  - MATCH,new
"#,
    );

    let updated = replace_subscription_sections(current, &subscription).unwrap();
    let updated_value = yaml(&updated);

    assert!(updated.contains("mixed-port: 7890\n"));
    assert!(updated.contains("allow-lan: true\n"));
    assert!(updated.contains("dns:\n  enable: true\n"));
    assert!(updated.contains("# keep before proxies\n"));
    assert!(updated.contains("profile:\n  store-selected: true\n"));
    assert!(!updated.contains("mixed-port: 9999\n"));
    assert_eq!(
        get(&updated_value, "mixed-port"),
        &Value::Number(7890.into())
    );
    assert_eq!(get(&updated_value, "allow-lan"), &Value::Bool(true));
    assert_eq!(
        get(&updated_value, "dns"),
        get(&yaml("dns:\n  enable: true\n"), "dns")
    );
    assert_eq!(
        get(&updated_value, "proxies"),
        get(&subscription, "proxies")
    );
    assert_eq!(
        get(&updated_value, "proxy-groups"),
        get(&subscription, "proxy-groups")
    );
    assert_eq!(get(&updated_value, "rules"), get(&subscription, "rules"));
}

#[test]
fn replace_subscription_sections_requires_all_sections() {
    let current = "{}";
    let subscription = yaml(
        r#"
proxies: []
proxy-groups: []
"#,
    );

    assert!(replace_subscription_sections(current, &subscription).is_err());
}

fn blocks() -> [String; 3] {
    [
        "proxies:\n- p\n".to_owned(),
        "proxy-groups:\n- g\n".to_owned(),
        "rules:\n- r\n".to_owned(),
    ]
}

#[test]
fn merging_into_nothing_starts_with_a_line_feed() {
    assert_eq!(
        merge_sections("", &blocks()),
        "\nproxies:\n- p\nproxy-groups:\n- g\nrules:\n- r\n"
    );
}

#[test]
fn missing_sections_go_to_the_end_in_order() {
    assert_eq!(
        merge_sections("mode: rule\nproxy-groups: [x]\nport: 1", &blocks()),
        "mode: rule\nproxy-groups:\n- g\nport: 1\nproxies:\n- p\nrules:\n- r\n"
    );
}

#[test]
fn sections_are_replaced_where_they_stand() {
    assert_eq!(
        merge_sections(
            "rules:\n  - a\n\n# note\nproxies: []\r\n  x\nmode: rule\nproxy-groups:# c\n- d\n",
            &blocks()
        ),
        "rules:\n- r\nproxies:\n- p\nmode: rule\nproxy-groups:\n- g\n"
    );
}

#[test]
fn only_the_first_of_two_sections_is_replaced() {
    assert_eq!(
        merge_sections(
            "rules: []\nrules: [z]\nproxies: []\nproxy-groups: []\n",
            &blocks()
        ),
        "rules:\n- r\nrules: [z]\nproxies:\n- p\nproxy-groups:\n- g\n"
    );
}

#[test]
fn an_indented_section_is_none() {
    assert_eq!(
        merge_sections("a:\n  rules: []\nproxies: []\nproxy-groups: []\n", &blocks()),
        "a:\n  rules: []\nproxies:\n- p\nproxy-groups:\n- g\nrules:\n- r\n"
    );
}

#[test]
fn merging_twice_changes_no_more() {
    for current in [
        "",
        "x",
        "mode: rule\n",
        "rules: []\nmode: rule\nproxies: []\n",
        "é: ü\nproxy-groups: []\nrules: [ß]\n",
    ] {
        let once = merge_sections(current, &blocks());
        assert_eq!(merge_sections(&once, &blocks()), once);
    }
}

#[test]
fn replacing_twice_changes_no_more() {
    let subscription = yaml("rules: [a, b]\nproxies:\n- name: one\n  port: 1\nproxy-groups: []\n");
    let once = replace_subscription_sections("mode: rule\nrules: []", &subscription).unwrap();
    let twice = replace_subscription_sections(&once, &subscription).unwrap();
    assert_eq!(once, twice);
    assert_eq!(
        once,
        "mode: rule\nrules:\n- a\n- b\nproxies:\n- name: one\n  port: 1\nproxy-groups: []\n"
    );
}

#[test]
fn last_merge_counts() {
    let other = [
        "proxies: []\n".to_owned(),
        "proxy-groups:\n- x\n- y\n".to_owned(),
        "rules:\n- z\n".to_owned(),
    ];
    for current in [
        "",
        "x",
        "mode: rule\n",
        "rules: []\nmode: rule\nproxies: []",
        "rules: []\nrules: [q]\nproxy-groups: []\n",
    ] {
        let first = merge_sections(current, &other);
        assert_eq!(
            merge_sections(&first, &blocks()),
            merge_sections(current, &blocks())
        );
    }
}

#[test]
fn last_subscription_counts() {
    let first = yaml("rules: [a, b]\nproxies: [c]\nproxy-groups: []\n");
    let last = yaml("rules: []\nproxies: [d, e]\nproxy-groups: [f]\n");
    for current in ["mode: rule\nrules: []", "{}", "proxies:\n- old\nmode: rule\n"] {
        let once = replace_subscription_sections(current, &first).unwrap();
        assert_eq!(
            replace_subscription_sections(&once, &last).unwrap(),
            replace_subscription_sections(current, &last).unwrap()
        );
    }
}

#[test]
fn separator_in_a_text_breaks_its_section_off() {
    let mut subscription = yaml("proxies: []\nproxy-groups: []\nrules: []\n");
    subscription["rules"] = Value::Sequence(vec![Value::String("a\n\u{2028}b: c".to_owned())]);
    let once = replace_subscription_sections("mode: rule\n", &subscription).unwrap();
    assert_eq!(
        once,
        "mode: rule\nproxies: []\nproxy-groups: []\nrules:\n- |-\n  a\n\u{2028}  b: c\n"
    );
    let twice = replace_subscription_sections(&once, &subscription).unwrap();
    assert_eq!(twice, format!("{once}\u{2028}  b: c\n"));
}

#[test]
fn only_the_sections_of_a_subscription_count() {
    let plain = yaml("rules: [a]\nproxies: []\nproxy-groups: []\n");
    let more = yaml("mode: x\nproxy-groups: []\nproxies: []\nrules: [a]\nport: 9\n");
    assert_eq!(
        replace_subscription_sections("mode: rule\n", &plain).unwrap(),
        replace_subscription_sections("mode: rule\n", &more).unwrap()
    );
}

#[test]
fn refusals_say_what_is_wrong() {
    let refused = |text: &str| {
        replace_subscription_sections("mode: rule\n", &yaml(text))
            .unwrap_err()
            .message()
    };
    assert_eq!(
        refused("- rules\n"),
        "Subscription config must be a YAML object"
    );
    assert_eq!(
        refused("rules: []\n"),
        "Subscription config does not contain `proxies`"
    );
    assert_eq!(
        refused("proxies: []\nproxy-groups: x\n"),
        "Subscription config `proxy-groups` must be a list"
    );
    assert_eq!(
        refused("proxies: []\nproxy-groups: []\n"),
        "Subscription config does not contain `rules`"
    );
}

#[test]
fn sections_are_looked_up_as_lists() {
    let value = yaml("rules: [a]\nproxies: 7\n");
    let mapping = value.as_mapping().unwrap();
    assert_eq!(
        get_subscription_section(mapping, "rules").unwrap(),
        &yaml("[a]")
    );
    assert!(matches!(
        get_subscription_section(mapping, "proxies"),
        Err(SubscriptionError::NotAList(_))
    ));
    assert!(matches!(
        get_subscription_section(mapping, "proxy-groups"),
        Err(SubscriptionError::MissingSection(_))
    ));
}

#[test]
fn subscription_has_to_be_yaml() {
    assert_eq!(
        parse_subscription("rules: [a]\n").unwrap(),
        yaml("rules: [a]\n")
    );
    let error = parse_subscription("rules: [a\n").unwrap_err();
    assert!(matches!(error, SubscriptionError::Unreadable(_)));
    assert_eq!(
        error.message(),
        "Fail to parse subscription as Mihomo config"
    );
}

#[test]
fn rendered_section_is_one_block() {
    assert_eq!(
        render_section("rules", &yaml("[a, b]")).unwrap(),
        "rules:\n- a\n- b\n"
    );
    assert_eq!(render_section("rules", &yaml("[]")).unwrap(), "rules: []\n");
}

#[test]
fn value_that_cannot_be_written_is_refused() {
    let inner = Box::new(TaggedValue {
        tag: Tag::new("a"),
        value: Value::Tagged(Box::new(TaggedValue {
            tag: Tag::new("b"),
            value: Value::Null,
        })),
    });
    let error = render_section("rules", &Value::Sequence(vec![Value::Tagged(inner)])).unwrap_err();
    assert!(matches!(error, SubscriptionError::Unwritten(_)));
    assert_eq!(error.message(), "Fail to serialize subscription section");
    assert_eq!(
        SubscriptionError::TooLarge.message(),
        "Subscription section is too large"
    );
}

#[test]
fn blanks_and_breaks_in_scalars_are_read() {
    let text = |scalar: &str| {
        parse_subscription(&format!("k: {scalar}\n"))
            .unwrap()
            .as_mapping()
            .unwrap()
            .get("k")
            .unwrap()
            .as_str()
            .unwrap()
            .to_owned()
    };
    let wide = format!("a{}b", " ".repeat(16));
    let eleven = format!("abcdefghijk{}l", " ".repeat(6));
    let emoji = format!("abcdefghij\u{1f600}{}k", " ".repeat(3));
    for scalar in [&wide, &eleven, &emoji] {
        assert_eq!(&text(scalar), scalar);
        assert_eq!(&text(&format!("'{scalar}'")), scalar);
        assert_eq!(&text(&format!("\"{scalar}\"")), scalar);
    }
    let breaks = "\n".repeat(40);
    assert_eq!(text(&format!("a{breaks} b")), format!("a{}b", "\n".repeat(39)));
    assert_eq!(text(&format!("'a{breaks} b'")), format!("a{}b", "\n".repeat(39)));
    assert_eq!(text(&format!("|\n  a{breaks}  b\n")), format!("a{breaks}b\n"));
    assert_eq!(
        text(&format!(">\n  a{breaks}  b\n")),
        format!("a{}b\n", "\n".repeat(39))
    );
    let long = format!("a{}b", " ".repeat(100_000));
    assert_eq!(text(&long), long);
}

#[test]
fn directive_before_a_subscription_is_read_over() {
    assert_eq!(
        parse_subscription("%YAML 1.2\n---\nrules: [a]\n").unwrap(),
        yaml("rules: [a]\n")
    );
}

#[test]
fn strange_texts_are_read_or_refused() {
    for text in [
        "! a\n", "!<!> a\n", "!! a\n", "a: &a [*a]\n", "[&a 1, &a 2, &b 3, *a]\n", "*a\n", "&\n",
        "--- a\n--- b\n", "%YAML 1.1\n---\n", "\u{0}", "\u{feff}a: b\n", "\t", "? a\n: b\n", "{", "]",
        "'", "\"\\x\"", "\"\\ud800\"", "\"\\U0001f600\"", "|9\n", ">-\n", "- - - -\n",
        "99999999999999999999999999999999999999999999\n", "-170141183460469231731687303715884105729\n",
        "0x\n", "1e999\n", ".nan\n",
    ] {
        let _ = parse_subscription(text);
    }
}

fn text(text: &str) -> Value {
    Value::String(text.to_owned())
}

fn list(texts: &[&str]) -> Value {
    Value::Sequence(texts.iter().map(|item| text(item)).collect())
}

fn tagged(tag: &str, value: Value) -> Value {
    Value::Tagged(Box::new(TaggedValue {
        tag: Tag::new(tag),
        value,
    }))
}

fn object(keys: &[String]) -> Value {
    let mut mapping = Mapping::new();
    for key in keys {
        mapping.insert(text(key), Value::Null);
    }
    Value::Mapping(mapping)
}

/// `limit` is the least within which `value` can be written.
fn takes(value: &Value, limit: i32) {
    assert!(is_writable(value, limit));
    assert!(!is_writable(value, limit - 1));
}

#[test]
fn columns_of_texts_are_counted() {
    takes(&text("abc"), 64 + 3);
    takes(&text("aéb"), 64 + 3);
    takes(&text("a\u{1f600}b"), 64 + 3);
    takes(&text("a\"b\\"), 64 + 4);
    takes(&text("a'b"), 64 + 4);
    takes(&text("a\tb"), 64 + 4);
    takes(&text("a\nb"), 64 + 4);
    takes(&text("a\u{2028}b"), 64 + 4);
    takes(&text("a'b\t"), 64 + 5);
    takes(&text("a\u{1}b"), 64 + 6);
    takes(&text("a\u{feff}b"), 64 + 8);
    takes(&Value::Null, 64);
    takes(&Value::Bool(true), 64);
    assert!(!is_writable(&Value::Null, -1));
}

#[test]
fn columns_of_values_are_counted() {
    takes(&list(&["abc"]), 1024 + 64 + 3);
    takes(&list(&["abc", "abcd"]), 1024 + 64 + 4);
    takes(&yaml("a: {b: abc}"), 2048 + 64 + 3);
    takes(&yaml("{abcd: 1}"), 1024 + 64 + 4);
    takes(&tagged("tag", text("abc")), 1024 + 3 + 64 + 3);
    takes(&tagged("a b", text("abc")), 1024 + 5 + 64 + 3);
    takes(&tagged("aéb", text("abc")), 1024 + 8 + 64 + 3);
    takes(&tagged("a\u{1f600}b", text("abc")), 1024 + 14 + 64 + 3);
}

#[test]
fn bytes_of_texts_are_counted() {
    takes(&text(&"é".repeat(1000)), 2001);
    takes(&text(&"a".repeat(1000)), 1064);
}

#[test]
fn lines_are_counted() {
    takes(&list(&vec!["a"; 3000]), 3008);
    takes(&list(&vec!["\n"; 3000]), 9008);
    let keys = |length: usize| -> Vec<String> {
        (0..3000).map(|n| format!("{n:0length$}")).collect()
    };
    takes(&object(&keys(128)), 3008);
    takes(&object(&keys(129)), 6008);
    takes(&Value::Sequence(vec![tagged("a", Value::Null); 3000]), 27008);
}

#[test]
fn what_is_written_stays_within() {
    let nested = list(&["a: b", "#", "'\"", "é\u{2029}x", "a\n\n b\n", "\u{7f}\u{feff}\t"]);
    let mut keys = Mapping::new();
    keys.insert(nested.clone(), nested.clone());
    keys.insert(text(&"k\n".repeat(100)), tagged("t", nested.clone()));
    keys.insert(text(&"'".repeat(3000)), text(&"'".repeat(3000)));
    keys.insert(tagged("x", text("a")), Value::Null);
    let values = vec![
        list(&vec!["a\nb"; 2000]),
        list(&["\u{1}".repeat(2000).as_str()]),
        list(&["'".repeat(2000).as_str(), "\"\n".repeat(2000).as_str()]),
        tagged(&" ".repeat(2000), list(&["a"])),
        Value::Sequence(vec![tagged("t", list(&["a", "b"])); 2000]),
        Value::Sequence(vec![Value::Mapping(keys); 2000]),
        object(&(0..2000).map(|n| format!("{n}\n")).collect::<Vec<_>>()),
    ];
    for value in values {
        let written = serde_yml::to_string(&value).unwrap();
        let widest = written.split('\n').map(|line| line.chars().count()).max();
        let breaks = ['\n', '\r', '\u{85}', '\u{2028}', '\u{2029}'];
        let count = written.matches(breaks).count();
        let needed = widest.unwrap().max(count);
        assert!(!is_writable(&value, needed as i32 - 1));
        assert!(is_writable(&value, i32::MAX));
    }
}

#[test]
fn long_lines_are_not_read() {
    assert!(is_readable("", -1));
    assert!(is_readable("abc\ndefgh", 15));
    assert!(!is_readable("abc\ndefgh", 14));
    assert!(is_readable("abcd\n\né", 15));
    assert!(!is_readable("abcd\n\né", 14));
    assert!(is_readable("ééé", 16));
    assert!(!is_readable("ééé", 15));
    assert_eq!(
        SubscriptionError::LineTooLong.message(),
        "Fail to parse subscription as Mihomo config"
    );
}

#[test]
fn one_whole_section_is_read_back() {
    let content = [
        "other: 1\n  proxies: 2\nx: 3\n".to_owned(),
        "proxy-groups:\n- g\n\n# note\n- h\n".to_owned(),
        "rules: []\nport: 1\n".to_owned(),
    ];
    for current in ["", "mode: rule", "proxy-groups: [x]\n- y\nrules: []\n", "rules: []\n"] {
        let merged = merge_sections(current, &content);
        let (start, end) = find_top_level_section_range(&merged, "proxy-groups").unwrap();
        assert_eq!(&merged[start..end], content[1]);
    }
}

#[test]
fn content_without_an_entry_is_read_into_the_section_before() {
    let content = [
        "proxies: []\n".to_owned(),
        "proxy-groups:\n- g\n".to_owned(),
        "- x\n".to_owned(),
    ];
    let merged = merge_sections("proxy-groups: []\nrules: []\n", &content);
    assert_eq!(merged, "proxy-groups:\n- g\n- x\nproxies: []\n");
    let (start, end) = find_top_level_section_range(&merged, "proxy-groups").unwrap();
    assert_eq!(&merged[start..end], "proxy-groups:\n- g\n- x\n");
}

#[test]
fn last_merge_counts_whatever_it_is() {
    let last = [
        "- a\n".to_owned(),
        "rules: []\nproxies: []\n".to_owned(),
        "\n".to_owned(),
    ];
    for current in ["", "x", "rules: []\nmode: rule\nproxies: []", "proxy-groups: []\n"] {
        let first = merge_sections(current, &blocks());
        assert_eq!(merge_sections(&first, &last), merge_sections(current, &last));
    }
}

#[test]
fn text_is_closed_with_one_line_feed() {
    assert_eq!(close_text("a".to_owned()), "a\n");
    assert_eq!(close_text("a\n".to_owned()), "a\n");
    assert_eq!(close_text(String::new()), "\n");
}

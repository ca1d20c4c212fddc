use mihomosh::config::{
    check_current_config, complete_config, normalize_subscription_sections, start_config,
    ConfigError,
};
use mihomosh::subscription::SubscriptionError;
use serde_yml::Value;

fn yaml(input: &str) -> Value {
    serde_yml::from_str(input).unwrap()
}

fn get<'a>(value: &'a Value, key: &str) -> &'a Value {
    let key = Value::String(key.to_owned());
    value.as_mapping().unwrap().get(&key).unwrap()
}

#[test]
fn normalize_subscription_sections_keeps_only_subscription_sections() {
    let config = yaml(
        r#"
mixed-port: 7890
proxies:
  - name: keep
    type: direct
proxy-groups:
  - name: group
    type: select
    proxies:
      - keep
rules:
  - MATCH,keep
"#,
    );

    let sections = normalize_subscription_sections(&config).unwrap();

    assert!(get(&sections, "proxies").is_sequence());
    assert!(get(&sections, "proxy-groups").is_sequence());
    assert!(get(&sections, "rules").is_sequence());
    assert!(!sections
        .as_mapping()
        .unwrap()
        .contains_key(&Value::String("mixed-port".to_owned())));
}

#[test]
fn normalize_subscription_sections_uses_empty_lists_when_missing() {
    let sections = normalize_subscription_sections(&yaml("{}")).unwrap();

    assert_eq!(get(&sections, "proxies"), &Value::Sequence(Vec::new()));
    assert_eq!(get(&sections, "proxy-groups"), &Value::Sequence(Vec::new()));
    assert_eq!(get(&sections, "rules"), &Value::Sequence(Vec::new()));
}

#[test]
fn kept_sections_are_the_lists_themselves() {
    let config = yaml("rules:\n- A\n- B\nproxies: none\nproxy-groups: {}\n");
    let sections = normalize_subscription_sections(&config).unwrap();
    assert_eq!(get(&sections, "rules"), get(&config, "rules"));
    assert_eq!(get(&sections, "proxies"), &Value::Sequence(Vec::new()));
    assert_eq!(get(&sections, "proxy-groups"), &Value::Sequence(Vec::new()));
    assert_eq!(sections.as_mapping().unwrap().len(), 3);
}

#[test]
fn keeping_twice_keeps_the_same() {
    let config = yaml("rules: [A]\nproxies: 7\nother: 1\n");
    let once = normalize_subscription_sections(&config).unwrap();
    let twice = normalize_subscription_sections(&once).unwrap();
    assert_eq!(once, twice);
}

#[test]
fn tagged_object_is_an_object() {
    let config = yaml("!config\nrules: !order [A]\n");
    let sections = normalize_subscription_sections(&config).unwrap();
    assert!(matches!(get(&sections, "rules"), Value::Tagged(_)));
}

#[test]
fn normalizing_wants_an_object() {
    for text in ["- a\n", "a\n", "7\n", "~\n"] {
        let error = normalize_subscription_sections(&yaml(text)).unwrap_err();
        assert!(matches!(error, ConfigError::NotAnObject));
        assert_eq!(
            error.message("c", "Prepared"),
            "Current Mihomo config must be a YAML object"
        );
    }
}

#[test]
fn current_configuration_has_to_be_an_object() {
    assert!(check_current_config("mode: rule\n").is_ok());
    assert!(check_current_config("{}").is_ok());
    assert!(matches!(
        check_current_config("- mode\n"),
        Err(ConfigError::NotAnObject)
    ));
    let error = check_current_config("mode: [rule\n").unwrap_err();
    assert!(matches!(error, ConfigError::Unreadable(_)));
    assert_eq!(
        error.message("/etc/mihomo/config.yaml", "Merged"),
        "Fail to parse current Mihomo config `/etc/mihomo/config.yaml`"
    );
}

#[test]
fn long_lines_are_told() {
    assert_eq!(
        ConfigError::CurrentTooLong.message("/c", "Merged"),
        "Fail to parse current Mihomo config `/c`"
    );
    assert_eq!(
        ConfigError::ResultTooLong.message("/c", "Merged"),
        "Merged Mihomo config is not valid YAML"
    );
}

#[test]
fn template_is_the_start_without_a_current_configuration() {
    assert_eq!(start_config("mode: rule\n", None).unwrap(), "mode: rule\n");
}

#[test]
fn start_takes_the_sections_of_the_current_configuration() {
    let template = "mode: rule\nproxies: []\nproxy-groups: []\nrules: []\n";
    let current = "mode: global\nrules:\n- MATCH,DIRECT\n";
    assert_eq!(
        start_config(template, Some(current)).unwrap(),
        "mode: rule\nproxies: []\nproxy-groups: []\nrules:\n- MATCH,DIRECT\n"
    );
}

#[test]
fn start_refuses_what_is_no_configuration() {
    assert!(matches!(
        start_config("a: 1\n", Some("a: [\n")),
        Err(ConfigError::Unreadable(_))
    ));
    assert!(matches!(
        start_config("a: 1\n", Some("- a\n")),
        Err(ConfigError::NotAnObject)
    ));
}

#[test]
fn completed_configuration_takes_the_subscription() {
    let subscription = yaml("proxies: [a]\nproxy-groups: []\nrules: [b]\nmode: global\n");
    assert_eq!(
        complete_config("mode: rule\nrules: []\n", Some(&subscription)).unwrap(),
        "mode: rule\nrules:\n- b\nproxies:\n- a\nproxy-groups: []\n"
    );
    assert_eq!(complete_config("mode: rule", None).unwrap(), "mode: rule");
}

#[test]
fn completed_configuration_has_to_be_yaml() {
    let error = complete_config("mode: [rule\n", None).unwrap_err();
    assert!(matches!(error, ConfigError::Invalid(_)));
    assert_eq!(
        error.message("c", "Prepared"),
        "Prepared Mihomo config is not valid YAML"
    );
    assert_eq!(
        error.message("c", "Merged"),
        "Merged Mihomo config is not valid YAML"
    );
}

#[test]
fn completing_passes_a_refused_subscription_on() {
    let error = complete_config("mode: rule\n", Some(&yaml("rules: []\n"))).unwrap_err();
    assert!(matches!(
        error,
        ConfigError::Subscription(SubscriptionError::MissingSection(_))
    ));
    assert_eq!(
        error.message("c", "Merged"),
        "Subscription config does not contain `proxies`"
    );
}

#[test]
fn current_configuration_does_not_count_beside_a_subscription() {
    let template = "mode: rule\nproxies: []\nrules: []\n";
    let subscription = yaml("proxies: [a]\nproxy-groups: []\nrules: [b]\n");
    let plain = start_config(template, None).unwrap();
    let expected = complete_config(&plain, Some(&subscription)).unwrap();
    for current in ["{}", "rules: [x, y]\nproxy-groups: [z]\n", "mode: global\n"] {
        let started = start_config(template, Some(current)).unwrap();
        assert_eq!(
            complete_config(&started, Some(&subscription)).unwrap(),
            expected
        );
    }
}

//! The Mihomo configuration: what is kept of the current one, and what the next one is.

use vstd::prelude::*;
use serde_yml::Value;
use crate::merge_laws;
use crate::reading;
use crate::sections;
use crate::sections::SUBSCRIPTION_SECTIONS;
use crate::subscription;
use crate::subscription::{SubscriptionError, SubscriptionFault};
use crate::text;
use crate::yaml;
use crate::yaml::Yaml;

verus! {

/// Why a configuration cannot be prepared.
#[derive(Debug)]
pub enum ConfigError {
    /// The current configuration is not YAML.
    Unreadable(serde_yml::Error),
    /// A line of the current configuration is too long to be read.
    CurrentTooLong,
    /// The current configuration is not an object.
    NotAnObject,
    /// The sections cannot be taken over.
    Subscription(SubscriptionError),
    /// The configuration that came out is not YAML.
    Invalid(serde_yml::Error),
    /// A line of the configuration that came out is too long to be read.
    ResultTooLong,
}

/// What a [`ConfigError`] says.
pub enum ConfigFault {
    Unreadable,
    CurrentTooLong,
    NotAnObject,
    Subscription(SubscriptionFault),
    Invalid,
    ResultTooLong,
}

impl View for ConfigError {
    type V = ConfigFault;

    open spec fn view(&self) -> ConfigFault {
        match *self {
            ConfigError::Unreadable(_) => ConfigFault::Unreadable,
            ConfigError::CurrentTooLong => ConfigFault::CurrentTooLong,
            ConfigError::NotAnObject => ConfigFault::NotAnObject,
            ConfigError::Subscription(error) => ConfigFault::Subscription(error@),
            ConfigError::Invalid(_) => ConfigFault::Invalid,
            ConfigError::ResultTooLong => ConfigFault::ResultTooLong,
        }
    }
}

/// What a message about `fault` reads, where `path` is the file of the current configuration
/// and `stage` tells which configuration came out.
pub open spec fn config_message(
    fault: ConfigFault,
    path: Seq<char>,
    stage: Seq<char>,
) -> Seq<char> {
    match fault {
        ConfigFault::Unreadable => "Fail to parse current Mihomo config `"@ + path + "`"@,
        ConfigFault::CurrentTooLong => "Fail to parse current Mihomo config `"@ + path + "`"@,
        ConfigFault::NotAnObject => "Current Mihomo config must be a YAML object"@,
        ConfigFault::Subscription(inner) => subscription::subscription_message(inner),
        ConfigFault::Invalid => stage + " Mihomo config is not valid YAML"@,
        ConfigFault::ResultTooLong => stage + " Mihomo config is not valid YAML"@,
    }
}

impl ConfigError {
    /// The message for the user, where `path` is the file of the current configuration and
    /// `stage` tells which configuration came out.
    pub fn message(&self, path: &str, stage: &str) -> (r: String)
        ensures
            r@ == config_message(self@, path@, stage@),
    {
        match self {
            ConfigError::Unreadable(_) | ConfigError::CurrentTooLong => {
                let mut r = "Fail to parse current Mihomo config `".to_owned();
                r.append(path);
                r.append("`");
                r
            },
            ConfigError::NotAnObject => "Current Mihomo config must be a YAML object".to_owned(),
            ConfigError::Subscription(error) => error.message(),
            ConfigError::Invalid(_) | ConfigError::ResultTooLong => {
                stage.to_owned().concat(" Mihomo config is not valid YAML")
            },
        }
    }
}

/// What is kept of the entry under `section`: a list as it is, and an empty list for anything
/// else.
pub open spec fn kept_section(entries: Seq<(Yaml, Yaml)>, section: Seq<char>) -> Yaml {
    match yaml::entry(entries, section) {
        Some(value) => if yaml::untagged(value) is List {
            value
        } else {
            Yaml::List(Seq::empty())
        },
        None => Yaml::List(Seq::empty()),
    }
}

/// The object that holds the three sections that are kept of `entries`, and nothing else.
pub open spec fn kept_sections(entries: Seq<(Yaml, Yaml)>) -> Yaml {
    let names = sections::section_names();
    Yaml::Object(
        seq![
            (Yaml::Text(names[0]), kept_section(entries, names[0])),
            (Yaml::Text(names[1]), kept_section(entries, names[1])),
            (Yaml::Text(names[2]), kept_section(entries, names[2])),
        ],
    )
}

/// The sections that are kept of the configuration `config`, if it is an object.
pub open spec fn normalized(config: Yaml) -> Option<Yaml> {
    match yaml::untagged(config) {
        Yaml::Object(entries) => Some(kept_sections(entries)),
        _ => None,
    }
}

/// The entries of the current configuration in `text`, or why there are none.
pub open spec fn current_config(text: Seq<char>) -> Result<Seq<(Yaml, Yaml)>, ConfigFault> {
    if !reading::readable(text, i32::MAX as int) {
        Err(ConfigFault::CurrentTooLong)
    } else {
        match yaml::parsed_yaml(text) {
            None => Err(ConfigFault::Unreadable),
            Some(config) => match yaml::untagged(config) {
                Yaml::Object(entries) => Ok(entries),
                _ => Err(ConfigFault::NotAnObject),
            },
        }
    }
}

/// The configuration to start from: `template`, with the sections of the current configuration
/// if there is one.
pub open spec fn started(template: Seq<char>, current: Option<Seq<char>>) -> Result<
    Seq<char>,
    ConfigFault,
> {
    match current {
        None => Ok(template),
        Some(text) => match current_config(text) {
            Err(fault) => Err(fault),
            Ok(config) => match subscription::replaced(template, kept_sections(config)) {
                Ok(r) => Ok(r),
                Err(fault) => Err(ConfigFault::Subscription(fault)),
            },
        },
    }
}

/// `config` with the sections of `subscription` if there is one, provided that YAML comes out.
pub open spec fn completed(config: Seq<char>, subscription: Option<Yaml>) -> Result<
    Seq<char>,
    ConfigFault,
> {
    let merged = match subscription {
        None => Ok(config),
        Some(value) => subscription::replaced(config, value),
    };
    match merged {
        Err(fault) => Err(ConfigFault::Subscription(fault)),
        Ok(text) => if !reading::readable(text, i32::MAX as int) {
            Err(ConfigFault::ResultTooLong)
        } else if yaml::parsed_yaml(text) is Some {
            Ok(text)
        } else {
            Err(ConfigFault::Invalid)
        },
    }
}

/// The whole preparation: the configuration to start from, completed.
pub open spec fn prepared(
    template: Seq<char>,
    current: Option<Seq<char>>,
    subscription: Option<Yaml>,
) -> Result<Seq<char>, ConfigFault> {
    match started(template, current) {
        Ok(config) => completed(config, subscription),
        Err(fault) => Err(fault),
    }
}

/// The sections that are kept of `config`: an object with the three sections, each a list.
pub fn normalize_subscription_sections(config: &Value) -> (r: Result<Value, ConfigError>)
    ensures
        match r {
            Ok(kept) => normalized(yaml::yaml_of(*config)) == Some(yaml::yaml_of(kept)),
            Err(error) => normalized(yaml::yaml_of(*config)) is None && error@
                == ConfigFault::NotAnObject,
        },
{
    let mapping = match yaml::as_mapping(config) {
        Some(mapping) => mapping,
        None => {
            return Err(ConfigError::NotAnObject);
        },
    };
    let ghost entries = yaml::entries_of(*mapping);
    let ghost names = sections::section_names();
    let mut kept = yaml::new_mapping();
    let mut k: usize = 0;
    while k < 3
        invariant
            k <= 3,
            entries == yaml::entries_of(*mapping),
            names == sections::section_names(),
            yaml::entries_of(kept).len() == k,
            forall|i: int|
                0 <= i < k ==> #[trigger] yaml::entries_of(kept)[i] == (
                    Yaml::Text(names[i]),
                    kept_section(entries, names[i]),
                ),
        decreases 3 - k,
    {
        let section = SUBSCRIPTION_SECTIONS[k];
        let value = match yaml::get(mapping, section) {
            Some(value) => if yaml::is_sequence(value) {
                yaml::clone_value(value)
            } else {
                yaml::empty_list()
            },
            None => yaml::empty_list(),
        };
        proof {
            sections::lemma_section_names();
            yaml::lemma_absent(yaml::entries_of(kept), section@);
        }
        yaml::insert(&mut kept, section, value);
        k = k + 1;
    }
    assert(yaml::entries_of(kept) =~= kept_sections(entries)->Object_0);
    Ok(yaml::mapping_value(kept))
}

/// Whether `text` can stand as the current configuration: it has to be a YAML object.
pub fn check_current_config(text: &str) -> (r: Result<(), ConfigError>)
    ensures
        match r {
            Ok(()) => current_config(text@) is Ok,
            Err(error) => current_config(text@) == Err::<Seq<(Yaml, Yaml)>, ConfigFault>(error@),
        },
{
    if !reading::is_readable(text, i32::MAX) {
        return Err(ConfigError::CurrentTooLong);
    }
    match yaml::read(text) {
        Err(error) => Err(ConfigError::Unreadable(error)),
        Ok(config) => match yaml::as_mapping(&config) {
            Some(_) => Ok(()),
            None => Err(ConfigError::NotAnObject),
        },
    }
}

/// The configuration to start from: `template`, with the sections of the current configuration
/// if there is one.
pub fn start_config(template: &str, current: Option<&str>) -> (r: Result<String, ConfigError>)
    ensures
        ({
            let expected = started(
                template@,
                match current {
                    Some(text) => Some(text@),
                    None => None,
                },
            );
            match r {
                Ok(text) => expected == Ok::<Seq<char>, ConfigFault>(text@),
                Err(error) => expected == Err::<Seq<char>, ConfigFault>(error@),
            }
        }),
{
    let text = match current {
        None => {
            return Ok(template.to_owned());
        },
        Some(text) => text,
    };
    if !reading::is_readable(text, i32::MAX) {
        return Err(ConfigError::CurrentTooLong);
    }
    let config = match yaml::read(text) {
        Ok(config) => config,
        Err(error) => {
            return Err(ConfigError::Unreadable(error));
        },
    };
    let kept = match normalize_subscription_sections(&config) {
        Ok(kept) => kept,
        Err(error) => {
            return Err(error);
        },
    };
    match subscription::replace_subscription_sections(template, &kept) {
        Ok(text) => Ok(text),
        Err(error) => Err(ConfigError::Subscription(error)),
    }
}

/// `config` with the sections of `subscription` if there is one, provided that YAML comes out.
pub fn complete_config(config: &str, subscription: Option<&Value>) -> (r: Result<
    String,
    ConfigError,
>)
    ensures
        ({
            let expected = completed(
                config@,
                match subscription {
                    Some(value) => Some(yaml::yaml_of(*value)),
                    None => None,
                },
            );
            match r {
                Ok(text) => expected == Ok::<Seq<char>, ConfigFault>(text@),
                Err(error) => expected == Err::<Seq<char>, ConfigFault>(error@),
            }
        }),
{
    let merged = match subscription {
        None => config.to_owned(),
        Some(value) => match subscription::replace_subscription_sections(config, value) {
            Ok(text) => text,
            Err(error) => {
                return Err(ConfigError::Subscription(error));
            },
        },
    };
    if !reading::is_readable(merged.as_str(), i32::MAX) {
        return Err(ConfigError::ResultTooLong);
    }
    match yaml::read(merged.as_str()) {
        Ok(_) => Ok(merged),
        Err(error) => Err(ConfigError::Invalid(error)),
    }
}

/// The entries of the object that holds the kept sections.
proof fn lemma_kept_entries(entries: Seq<(Yaml, Yaml)>, k: int)
    requires
        0 <= k < 3,
    ensures
        kept_sections(entries) is Object,
        yaml::entry(kept_sections(entries)->Object_0, sections::section_names()[k]) == Some(
            kept_section(entries, sections::section_names()[k]),
        ),
{
    let names = sections::section_names();
    let kept = kept_sections(entries)->Object_0;
    sections::lemma_section_names();
    reveal_with_fuel(yaml::position, 4);
    assert(kept.drop_first()[0] == kept[1]);
    assert(kept.drop_first().drop_first()[0] == kept[2]);
    assert(names[0] != names[1] && names[0] != names[2] && names[1] != names[2]);
    assert(kept[0].0 == Yaml::Text(names[0]));
    assert(kept[1].0 == Yaml::Text(names[1]));
    assert(kept[2].0 == Yaml::Text(names[2]));
}

/// The sections kept of a configuration lack nothing that a subscription has to bring: taking
/// them over fails only where they cannot be written.
pub proof fn kept_sections_are_complete(template: Seq<char>, config: Yaml)
    requires
        normalized(config) is Some,
    ensures
        match subscription::replaced(template, normalized(config)->0) {
            Ok(_) => true,
            Err(fault) => subscription::is_unwritable(fault),
        },
{
    let entries = yaml::untagged(config)->Object_0;
    lemma_kept_entries(entries, 0);
    lemma_kept_entries(entries, 1);
    lemma_kept_entries(entries, 2);
}

/// Keeping the sections of what was kept keeps the same.
pub proof fn keeping_twice_is_keeping_once(config: Yaml)
    requires
        normalized(config) is Some,
    ensures
        normalized(normalized(config)->0) == normalized(config),
{
    let entries = yaml::untagged(config)->Object_0;
    lemma_kept_entries(entries, 0);
    lemma_kept_entries(entries, 1);
    lemma_kept_entries(entries, 2);
}

/// A configuration that was prepared is YAML.
pub proof fn prepared_config_is_yaml(
    template: Seq<char>,
    current: Option<Seq<char>>,
    subscription: Option<Yaml>,
)
    ensures
        prepared(template, current, subscription) matches Ok(text) ==> yaml::parsed_yaml(
            text,
        ) is Some,
{
}

/// With a current configuration that is an object, preparing does not fail for anything that
/// is missing in it.
pub proof fn current_object_is_enough(template: Seq<char>, current: Seq<char>)
    requires
        current_config(current) is Ok,
    ensures
        match started(template, Some(current)) {
            Ok(_) => true,
            Err(ConfigFault::Subscription(fault)) => subscription::is_unwritable(fault),
            Err(_) => false,
        },
{
    kept_sections_are_complete(template, yaml::parsed_yaml(current)->0);
}

/// The configuration to start from has a section that is kept of the current one, where it is
/// written as a whole section and the other two can be told from it.
pub proof fn started_config_has_the_kept_sections(
    template: Seq<char>,
    current: Seq<char>,
    k: int,
)
    requires
        started(template, Some(current)) is Ok,
        0 <= k < 3,
        merge_laws::stands_apart(
            subscription::subscription_contents(kept_sections(current_config(current)->Ok_0))->Ok_0,
            k,
        ),
    ensures
        ({
            let name = sections::section_names()[k];
            let kept = kept_section(current_config(current)->Ok_0, name);
            let text = started(template, Some(current))->Ok_0;
            subscription::rendered_section(name, kept) == Ok::<Seq<char>, SubscriptionFault>(
                merge_laws::section_text(text, name),
            )
        }),
{
    let entries = current_config(current)->Ok_0;
    lemma_kept_entries(entries, 0);
    lemma_kept_entries(entries, 1);
    lemma_kept_entries(entries, 2);
    subscription::replaced_section_reads_back(template, kept_sections(entries), k);
}

/// Where a subscription is taken over, a section is its own, whatever was there before, provided
/// that it is written as a whole section and the other two can be told from it.
pub proof fn prepared_config_has_the_subscription(
    template: Seq<char>,
    current: Option<Seq<char>>,
    subscription: Yaml,
    k: int,
)
    requires
        prepared(template, current, Some(subscription)) is Ok,
        0 <= k < 3,
        merge_laws::stands_apart(subscription::subscription_contents(subscription)->Ok_0, k),
    ensures
        merge_laws::section_text(
            prepared(template, current, Some(subscription))->Ok_0,
            sections::section_names()[k],
        ) == subscription::subscription_contents(subscription)->Ok_0[k],
{
    let config = started(template, current)->Ok_0;
    subscription::replaced_section_reads_back(config, subscription, k);
}

/// Where a subscription is taken over, the current configuration does not count, once it has been
/// read: the outcome is what it is without one, provided that the sections that are kept of it are
/// written as whole sections.
pub proof fn subscription_outweighs_current(
    template: Seq<char>,
    current: Option<Seq<char>>,
    subscription: Yaml,
)
    requires
        started(template, current) is Ok,
        current matches Some(text) ==> merge_laws::are_section_blocks(
            subscription::subscription_contents(kept_sections(current_config(text)->Ok_0))->Ok_0,
        ),
    ensures
        prepared(template, current, Some(subscription)) == prepared(
            template,
            None,
            Some(subscription),
        ),
{
    if let Some(text) = current {
        let kept = kept_sections(current_config(text)->Ok_0);
        subscription::last_subscription_wins(template, kept, subscription);
    }
}

/// A list of a configuration is kept as it is, under its name.
pub proof fn list_is_kept(config: Yaml, value: Yaml, k: int)
    requires
        0 <= k < 3,
        yaml::untagged(config) is Object,
        yaml::entry(yaml::untagged(config)->Object_0, sections::section_names()[k]) == Some(value),
        yaml::untagged(value) is List,
    ensures
        normalized(config) matches Some(Yaml::Object(kept)) && yaml::entry(
            kept,
            sections::section_names()[k],
        ) == Some(value),
{
    lemma_kept_entries(yaml::untagged(config)->Object_0, k);
}

/// A section that is missing, or is not a list, is kept as an empty list.
pub proof fn nothing_is_kept_as_an_empty_list(config: Yaml, k: int)
    requires
        0 <= k < 3,
        yaml::untagged(config) is Object,
        yaml::entry(
            yaml::untagged(config)->Object_0,
            sections::section_names()[k],
        ) matches Some(value) ==> !(yaml::untagged(value) is List),
    ensures
        normalized(config) matches Some(Yaml::Object(kept)) && yaml::entry(
            kept,
            sections::section_names()[k],
        ) == Some(Yaml::List(Seq::empty())),
{
    lemma_kept_entries(yaml::untagged(config)->Object_0, k);
}

/// Nothing but the three sections is kept, in the order of their names.
pub proof fn nothing_else_is_kept(config: Yaml)
    requires
        yaml::untagged(config) is Object,
    ensures
        normalized(config) matches Some(Yaml::Object(kept)) && kept.len() == 3 && forall|k: int|
            0 <= k < 3 ==> (#[trigger] kept[k]).0 == Yaml::Text(sections::section_names()[k]),
{
}

/// Nothing is kept of what is no object.
pub proof fn nothing_is_kept_of_no_object(config: Yaml)
    requires
        !(yaml::untagged(config) is Object),
    ensures
        normalized(config) is None,
{
}

/// A current configuration is taken for what is read from it, and refused where nothing is read
/// or no object. This holds of every text that is short enough for any line of it to be read.
pub proof fn current_config_is_what_is_read(text: Seq<char>)
    requires
        text::byte_len(text) + 10 <= i32::MAX,
    ensures
        match yaml::parsed_yaml(text) {
            None => current_config(text) == Err::<Seq<(Yaml, Yaml)>, ConfigFault>(
                ConfigFault::Unreadable,
            ),
            Some(config) => match yaml::untagged(config) {
                Yaml::Object(entries) => current_config(text) == Ok::<
                    Seq<(Yaml, Yaml)>,
                    ConfigFault,
                >(entries),
                _ => current_config(text) == Err::<Seq<(Yaml, Yaml)>, ConfigFault>(
                    ConfigFault::NotAnObject,
                ),
            },
        },
{
    reading::short_text_is_readable(text, i32::MAX as int);
}

/// Without a current configuration the start is the template.
pub proof fn start_without_current_is_the_template(template: Seq<char>)
    ensures
        started(template, None) == Ok::<Seq<char>, ConfigFault>(template),
{
}

/// What cannot stand as the current configuration stops the start.
pub proof fn start_needs_a_current_object(template: Seq<char>, current: Seq<char>)
    requires
        text::byte_len(current) + 10 <= i32::MAX,
    ensures
        yaml::parsed_yaml(current) is None ==> started(template, Some(current)) == Err::<
            Seq<char>,
            ConfigFault,
        >(ConfigFault::Unreadable),
        yaml::parsed_yaml(current) matches Some(config) ==> !(yaml::untagged(config) is Object)
            ==> started(template, Some(current)) == Err::<Seq<char>, ConfigFault>(
            ConfigFault::NotAnObject,
        ),
{
    current_config_is_what_is_read(current);
}

/// The start takes the lists of the current configuration over into the template, as it takes
/// over any subscription `carrier` that has these lists, and empty ones for those that are
/// missing.
pub proof fn start_carries_the_lists_over(
    template: Seq<char>,
    current: Seq<char>,
    config: Yaml,
    carrier: Yaml,
)
    requires
        text::byte_len(current) + 10 <= i32::MAX,
        yaml::parsed_yaml(current) == Some(config),
        yaml::untagged(config) is Object,
        yaml::untagged(carrier) is Object,
        forall|k: int|
            0 <= k < 3 ==> {
                let name = #[trigger] sections::section_names()[k];
                let found = yaml::entry(yaml::untagged(config)->Object_0, name);
                yaml::entry(yaml::untagged(carrier)->Object_0, name) == Some(
                    if found is Some && yaml::untagged(found->0) is List {
                        found->0
                    } else {
                        Yaml::List(Seq::empty())
                    },
                )
            },
    ensures
        match subscription::replaced(template, carrier) {
            Ok(text) => started(template, Some(current)) == Ok::<Seq<char>, ConfigFault>(text),
            Err(fault) => started(template, Some(current)) == Err::<Seq<char>, ConfigFault>(
                ConfigFault::Subscription(fault),
            ),
        },
{
    let entries = yaml::untagged(config)->Object_0;
    current_config_is_what_is_read(current);
    lemma_kept_entries(entries, 0);
    lemma_kept_entries(entries, 1);
    lemma_kept_entries(entries, 2);
    let names = sections::section_names();
    assert forall|k: int| 0 <= k < 3 implies yaml::entry(
        yaml::untagged(kept_sections(entries))->Object_0,
        #[trigger] names[k],
    ) == yaml::entry(yaml::untagged(carrier)->Object_0, names[k]) by {
        lemma_kept_entries(entries, k);
    }
    subscription::only_the_sections_count(template, kept_sections(entries), carrier);
}

/// A configuration without a subscription stays as it is, provided that it is YAML.
pub proof fn completing_without_a_subscription_changes_nothing(config: Seq<char>)
    requires
        text::byte_len(config) + 10 <= i32::MAX,
    ensures
        completed(config, None) == if yaml::parsed_yaml(config) is Some {
            Ok::<Seq<char>, ConfigFault>(config)
        } else {
            Err::<Seq<char>, ConfigFault>(ConfigFault::Invalid)
        },
{
    reading::short_text_is_readable(config, i32::MAX as int);
}

/// A configuration is completed by taking the subscription over, provided that YAML comes out:
/// what is refused there is refused here.
pub proof fn completing_takes_the_subscription_over(config: Seq<char>, subscription: Yaml)
    ensures
        match subscription::replaced(config, subscription) {
            Err(fault) => completed(config, Some(subscription)) == Err::<Seq<char>, ConfigFault>(
                ConfigFault::Subscription(fault),
            ),
            Ok(text) => text::byte_len(text) + 10 <= i32::MAX ==> completed(
                config,
                Some(subscription),
            ) == if yaml::parsed_yaml(text) is Some {
                Ok::<Seq<char>, ConfigFault>(text)
            } else {
                Err::<Seq<char>, ConfigFault>(ConfigFault::Invalid)
            },
        },
{
    if let Ok(text) = subscription::replaced(config, subscription) {
        if text::byte_len(text) + 10 <= i32::MAX {
            reading::short_text_is_readable(text, i32::MAX as int);
        }
    }
}

/// A message about the current configuration has its path in it, one about what came out tells
/// which configuration that was, and one about a subscription is that of the subscription.
pub proof fn message_tells_what_it_is_about(
    path: Seq<char>,
    stage: Seq<char>,
    fault: SubscriptionFault,
)
    ensures
        config_message(ConfigFault::Unreadable, path, stage)
            == "Fail to parse current Mihomo config `"@ + path + "`"@,
        config_message(ConfigFault::Invalid, path, stage) == stage
            + " Mihomo config is not valid YAML"@,
        config_message(ConfigFault::Subscription(fault), path, stage)
            == subscription::subscription_message(fault),
{
}

} // verus!

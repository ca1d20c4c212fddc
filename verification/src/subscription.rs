//! Taking the sections of a subscription over into a configuration text.

use vstd::prelude::*;
use serde_yml::{Mapping, Value};
use crate::merge;
use crate::merge_laws;
use crate::reading;
use crate::sections;
use crate::sections::SUBSCRIPTION_SECTIONS;
use crate::writing;
use crate::yaml;
use crate::yaml::Yaml;

verus! {

/// Why a subscription cannot be taken over.
#[derive(Debug)]
pub enum SubscriptionError {
    /// The subscription is not YAML.
    Unreadable(serde_yml::Error),
    /// A line of the subscription is too long to be read.
    LineTooLong,
    /// The subscription is not an object.
    NotAnObject,
    /// The section of this name is missing.
    MissingSection(String),
    /// The section of this name is not a list.
    NotAList(String),
    /// A section could not be written as YAML.
    Unwritten(serde_yml::Error),
    /// A section is too large to be written as YAML.
    TooLarge,
}

/// What a [`SubscriptionError`] says.
pub enum SubscriptionFault {
    Unreadable,
    LineTooLong,
    NotAnObject,
    MissingSection(Seq<char>),
    NotAList(Seq<char>),
    Unwritten,
    TooLarge,
}

impl View for SubscriptionError {
    type V = SubscriptionFault;

    open spec fn view(&self) -> SubscriptionFault {
        match *self {
            SubscriptionError::Unreadable(_) => SubscriptionFault::Unreadable,
            SubscriptionError::LineTooLong => SubscriptionFault::LineTooLong,
            SubscriptionError::NotAnObject => SubscriptionFault::NotAnObject,
            SubscriptionError::MissingSection(name) => SubscriptionFault::MissingSection(name@),
            SubscriptionError::NotAList(name) => SubscriptionFault::NotAList(name@),
            SubscriptionError::Unwritten(_) => SubscriptionFault::Unwritten,
            SubscriptionError::TooLarge => SubscriptionFault::TooLarge,
        }
    }
}

/// What a message about `fault` reads.
pub open spec fn subscription_message(fault: SubscriptionFault) -> Seq<char> {
    match fault {
        SubscriptionFault::Unreadable => "Fail to parse subscription as Mihomo config"@,
        SubscriptionFault::LineTooLong => "Fail to parse subscription as Mihomo config"@,
        SubscriptionFault::NotAnObject => "Subscription config must be a YAML object"@,
        SubscriptionFault::MissingSection(name) => "Subscription config does not contain `"@ + name
            + "`"@,
        SubscriptionFault::NotAList(name) => "Subscription config `"@ + name
            + "` must be a list"@,
        SubscriptionFault::Unwritten => "Fail to serialize subscription section"@,
        SubscriptionFault::TooLarge => "Subscription section is too large"@,
    }
}

impl SubscriptionError {
    /// The message for the user.
    pub fn message(&self) -> (r: String)
        ensures
            r@ == subscription_message(self@),
    {
        match self {
            SubscriptionError::Unreadable(_) | SubscriptionError::LineTooLong => {
                "Fail to parse subscription as Mihomo config".to_owned()
            },
            SubscriptionError::NotAnObject => "Subscription config must be a YAML object".to_owned(),
            SubscriptionError::MissingSection(name) => {
                let mut r = "Subscription config does not contain `".to_owned();
                r.append(name.as_str());
                r.append("`");
                r
            },
            SubscriptionError::NotAList(name) => {
                let mut r = "Subscription config `".to_owned();
                r.append(name.as_str());
                r.append("` must be a list");
                r
            },
            SubscriptionError::Unwritten(_) => "Fail to serialize subscription section".to_owned(),
            SubscriptionError::TooLarge => "Subscription section is too large".to_owned(),
        }
    }
}

/// `text`, with a line feed at its end if it has none.
pub open spec fn closed_text(text: Seq<char>) -> Seq<char> {
    if text.len() > 0 && text.last() == '\n' {
        text
    } else {
        text.push('\n')
    }
}

/// The object that has `value` under the name `section` and nothing else.
pub open spec fn section_object(section: Seq<char>, value: Yaml) -> Yaml {
    Yaml::Object(seq![(Yaml::Text(section), value)])
}

/// The section `section` with the value `value` as YAML text, or why there is none.
pub open spec fn rendered_section(section: Seq<char>, value: Yaml) -> Result<
    Seq<char>,
    SubscriptionFault,
> {
    let object = section_object(section, value);
    if !writing::writable(object, i32::MAX as int) {
        Err(SubscriptionFault::TooLarge)
    } else {
        match yaml::yaml_text(object) {
            Some(text) => Ok(closed_text(text)),
            None => Err(SubscriptionFault::Unwritten),
        }
    }
}

/// Whether `fault` is about writing a section, not about what the subscription lacks.
pub open spec fn is_unwritable(fault: SubscriptionFault) -> bool {
    fault is Unwritten || fault is TooLarge
}

/// The list under the name `section`, or why there is none.
pub open spec fn listed_section(
    entries: Seq<(Yaml, Yaml)>,
    section: Seq<char>,
) -> Result<Yaml, SubscriptionFault> {
    match yaml::entry(entries, section) {
        None => Err(SubscriptionFault::MissingSection(section)),
        Some(value) => if yaml::untagged(value) is List {
            Ok(value)
        } else {
            Err(SubscriptionFault::NotAList(section))
        },
    }
}

/// The text of the section `section`, or why there is none.
pub open spec fn section_content(
    entries: Seq<(Yaml, Yaml)>,
    section: Seq<char>,
) -> Result<Seq<char>, SubscriptionFault> {
    match listed_section(entries, section) {
        Err(fault) => Err(fault),
        Ok(value) => rendered_section(section, value),
    }
}

/// The texts of the three sections in the order of their names, or the first reason why there
/// are none.
pub open spec fn subscription_contents(subscription: Yaml) -> Result<
    Seq<Seq<char>>,
    SubscriptionFault,
> {
    match yaml::untagged(subscription) {
        Yaml::Object(entries) => {
            let names = sections::section_names();
            match (
                section_content(entries, names[0]),
                section_content(entries, names[1]),
                section_content(entries, names[2]),
            ) {
                (Ok(a), Ok(b), Ok(c)) => Ok(seq![a, b, c]),
                (Err(fault), _, _) => Err(fault),
                (_, Err(fault), _) => Err(fault),
                (_, _, Err(fault)) => Err(fault),
            }
        },
        _ => Err(SubscriptionFault::NotAnObject),
    }
}

/// `current` with the three sections of `subscription`, or why they cannot be taken over.
pub open spec fn replaced(current: Seq<char>, subscription: Yaml) -> Result<
    Seq<char>,
    SubscriptionFault,
> {
    match subscription_contents(subscription) {
        Ok(content) => Ok(merge::merged_text(current, content)),
        Err(fault) => Err(fault),
    }
}

/// The subscription in the text `data`.
pub fn parse_subscription(data: &str) -> (r: Result<Value, SubscriptionError>)
    ensures
        match r {
            Ok(value) => reading::readable(data@, i32::MAX as int) && yaml::parsed_yaml(data@)
                == Some(yaml::yaml_of(value)),
            Err(error) => if reading::readable(data@, i32::MAX as int) {
                yaml::parsed_yaml(data@) is None && error@ == SubscriptionFault::Unreadable
            } else {
                error@ == SubscriptionFault::LineTooLong
            },
        },
{
    if !reading::is_readable(data, i32::MAX) {
        return Err(SubscriptionError::LineTooLong);
    }
    match yaml::read(data) {
        Ok(value) => Ok(value),
        Err(error) => Err(SubscriptionError::Unreadable(error)),
    }
}

/// The list under the name `section`.
pub fn get_subscription_section<'a>(subscription: &'a Mapping, section: &str) -> (r: Result<
    &'a Value,
    SubscriptionError,
>)
    ensures
        match r {
            Ok(value) => listed_section(yaml::entries_of(*subscription), section@) == Ok::<
                Yaml,
                SubscriptionFault,
            >(yaml::yaml_of(*value)),
            Err(error) => listed_section(yaml::entries_of(*subscription), section@) == Err::<
                Yaml,
                SubscriptionFault,
            >(error@),
        },
        match yaml::entry(yaml::entries_of(*subscription), section@) {
            Some(found) => if yaml::untagged(found) is List {
                r matches Ok(value) && yaml::yaml_of(*value) == found
            } else {
                r matches Err(SubscriptionError::NotAList(name)) && name@ == section@
            },
            None => r matches Err(SubscriptionError::MissingSection(name)) && name@ == section@,
        },
{
    match yaml::get(subscription, section) {
        None => Err(SubscriptionError::MissingSection(section.to_owned())),
        Some(value) => if yaml::is_sequence(value) {
            Ok(value)
        } else {
            Err(SubscriptionError::NotAList(section.to_owned()))
        },
    }
}

/// `text` with a line feed at its end, whether or not it came with one.
pub fn close_text(text: String) -> (r: String)
    ensures
        r@ == closed_text(text@),
{
    if merge::ends_line(&text) {
        text
    } else {
        proof {
            reveal_strlit("\n");
            assert(text@ + "\n"@ =~= text@.push('\n'));
        }
        text.concat("\n")
    }
}

/// The section `section` with the value `value` as YAML text that ends with a line feed.
pub fn render_section(section: &str, value: &Value) -> (r: Result<String, SubscriptionError>)
    ensures
        match r {
            Ok(text) => rendered_section(section@, yaml::yaml_of(*value)) == Ok::<
                Seq<char>,
                SubscriptionFault,
            >(text@),
            Err(error) => rendered_section(section@, yaml::yaml_of(*value)) == Err::<
                Seq<char>,
                SubscriptionFault,
            >(error@),
        },
{
    let mut mapping = yaml::new_mapping();
    yaml::insert(&mut mapping, section, yaml::clone_value(value));
    proof {
        let entries = yaml::entries_of(mapping);
        assert(entries =~= seq![(Yaml::Text(section@), yaml::yaml_of(*value))]);
    }
    let object = yaml::mapping_value(mapping);
    if !writing::is_writable(&object, i32::MAX) {
        return Err(SubscriptionError::TooLarge);
    }
    match yaml::write(&object) {
        Ok(text) => Ok(close_text(text)),
        Err(error) => Err(SubscriptionError::Unwritten(error)),
    }
}

/// The text of the section `section` of `subscription`.
fn content_of(subscription: &Mapping, section: &str) -> (r: Result<String, SubscriptionError>)
    ensures
        match r {
            Ok(text) => section_content(yaml::entries_of(*subscription), section@) == Ok::<
                Seq<char>,
                SubscriptionFault,
            >(text@),
            Err(error) => section_content(yaml::entries_of(*subscription), section@) == Err::<
                Seq<char>,
                SubscriptionFault,
            >(error@),
        },
{
    match get_subscription_section(subscription, section) {
        Ok(value) => render_section(section, value),
        Err(error) => Err(error),
    }
}

/// `current` with the three sections of `subscription`: each in the place of the section of that
/// name, or at the end.
pub fn replace_subscription_sections(current: &str, subscription: &Value) -> (r: Result<
    String,
    SubscriptionError,
>)
    ensures
        match r {
            Ok(text) => replaced(current@, yaml::yaml_of(*subscription)) == Ok::<
                Seq<char>,
                SubscriptionFault,
            >(text@),
            Err(error) => replaced(current@, yaml::yaml_of(*subscription)) == Err::<
                Seq<char>,
                SubscriptionFault,
            >(error@),
        },
{
    let mapping = match yaml::as_mapping(subscription) {
        Some(mapping) => mapping,
        None => {
            return Err(SubscriptionError::NotAnObject);
        },
    };
    let first = match content_of(mapping, SUBSCRIPTION_SECTIONS[0]) {
        Ok(text) => text,
        Err(error) => {
            return Err(error);
        },
    };
    let second = match content_of(mapping, SUBSCRIPTION_SECTIONS[1]) {
        Ok(text) => text,
        Err(error) => {
            return Err(error);
        },
    };
    let third = match content_of(mapping, SUBSCRIPTION_SECTIONS[2]) {
        Ok(text) => text,
        Err(error) => {
            return Err(error);
        },
    };
    let rendered = [first, second, third];
    assert(merge::contents(rendered) =~= seq![first@, second@, third@]);
    Ok(merge::merge_sections(current, &rendered))
}

/// Nothing of a subscription but its three sections counts.
pub proof fn only_the_sections_count(current: Seq<char>, a: Yaml, b: Yaml)
    requires
        yaml::untagged(a) is Object,
        yaml::untagged(b) is Object,
        forall|k: int|
            0 <= k < 3 ==> yaml::entry(
                yaml::untagged(a)->Object_0,
                #[trigger] sections::section_names()[k],
            ) == yaml::entry(yaml::untagged(b)->Object_0, sections::section_names()[k]),
    ensures
        replaced(current, a) == replaced(current, b),
{
    let names = sections::section_names();
    assert(names[0] == names[0] && names[1] == names[1] && names[2] == names[2]);
}

/// A subscription is refused unless it is an object in which all three sections are lists, and
/// what is then refused is only what cannot be written.
pub proof fn all_sections_are_required(current: Seq<char>, subscription: Yaml)
    ensures
        ({
            let complete = yaml::untagged(subscription) is Object && forall|k: int|
                0 <= k < 3 ==> listed_section(
                    yaml::untagged(subscription)->Object_0,
                    #[trigger] sections::section_names()[k],
                ) is Ok;
            &&& replaced(current, subscription) is Ok ==> complete
            &&& complete ==> match replaced(current, subscription) {
                Ok(_) => true,
                Err(fault) => is_unwritable(fault),
            }
        }),
{
    let names = sections::section_names();
    assert(names[0] == names[0] && names[1] == names[1] && names[2] == names[2]);
}

/// Whether a configuration is refused does not depend on the text it goes into.
pub proof fn refusal_is_up_to_the_subscription(a: Seq<char>, b: Seq<char>, subscription: Yaml)
    ensures
        replaced(a, subscription) is Ok == replaced(b, subscription) is Ok,
        replaced(a, subscription) is Err ==> replaced(a, subscription) == replaced(b, subscription),
{
}

/// The texts of the sections end with a line feed.
pub(crate) proof fn lemma_contents_are_closed(subscription: Yaml)
    requires
        subscription_contents(subscription) is Ok,
    ensures
        merge_laws::are_closed(subscription_contents(subscription)->Ok_0),
{
}

/// Of two subscriptions that are taken over one after the other the last one counts: it leaves
/// no trace of the first, where the sections of the first are written as whole sections.
pub proof fn last_subscription_wins(current: Seq<char>, first: Yaml, last: Yaml)
    requires
        subscription_contents(first) is Ok,
        merge_laws::are_section_blocks(subscription_contents(first)->Ok_0),
    ensures
        replaced(current, first) is Ok,
        replaced(replaced(current, first)->Ok_0, last) == replaced(current, last),
{
    if subscription_contents(last) is Ok {
        lemma_contents_are_closed(last);
        merge_laws::last_merge_wins(
            current,
            subscription_contents(first)->Ok_0,
            subscription_contents(last)->Ok_0,
        );
    }
}

/// Taking over the same subscription a second time changes nothing, where its sections are
/// written as whole sections.
pub proof fn replacing_twice_is_replacing_once(current: Seq<char>, subscription: Yaml)
    requires
        subscription_contents(subscription) is Ok,
        merge_laws::are_section_blocks(subscription_contents(subscription)->Ok_0),
    ensures
        replaced(current, subscription) is Ok,
        replaced(replaced(current, subscription)->Ok_0, subscription) == replaced(
            current,
            subscription,
        ),
{
    merge_laws::merging_twice_is_merging_once(current, subscription_contents(subscription)->Ok_0);
}

/// A section of the text that comes out is the section of the subscription, where it is written
/// as a whole section and the other two can be told from it.
pub proof fn replaced_section_reads_back(current: Seq<char>, subscription: Yaml, k: int)
    requires
        0 <= k < 3,
        subscription_contents(subscription) is Ok,
        merge_laws::stands_apart(subscription_contents(subscription)->Ok_0, k),
    ensures
        merge_laws::section_text(
            replaced(current, subscription)->Ok_0,
            sections::section_names()[k],
        ) == subscription_contents(subscription)->Ok_0[k],
{
    lemma_contents_are_closed(subscription);
    merge_laws::merged_section_reads_back(
        current,
        subscription_contents(subscription)->Ok_0,
        k,
    );
}

/// Closing a text adds a line feed at its end where there is none, and nothing else.
pub proof fn closing_adds_a_line_feed_at_most(text: Seq<char>)
    ensures
        closed_text(text).len() > 0,
        closed_text(text).last() == '\n',
        text.is_prefix_of(closed_text(text)),
        closed_text(text).len() <= text.len() + 1,
        text.len() > 0 && text.last() == '\n' ==> closed_text(text) == text,
{
}

/// A subscription with three lists is taken over, whatever else it holds: `texts` holds what
/// `serde_yml` writes for an object with a list under its name, and these texts are merged in,
/// each closed with a line feed.
pub proof fn three_lists_are_taken_over(
    current: Seq<char>,
    subscription: Yaml,
    values: Seq<Yaml>,
    texts: Seq<Seq<char>>,
)
    requires
        yaml::untagged(subscription) is Object,
        values.len() == 3,
        texts.len() == 3,
        forall|k: int|
            0 <= k < 3 ==> {
                let name = #[trigger] sections::section_names()[k];
                let object = Yaml::Object(seq![(Yaml::Text(name), values[k])]);
                &&& yaml::entry(yaml::untagged(subscription)->Object_0, name) == Some(values[k])
                &&& yaml::untagged(values[k]) is List
                &&& writing::weight(object) + 8 <= i32::MAX
                &&& yaml::yaml_text(object) == Some(texts[k])
            },
    ensures
        replaced(current, subscription) == Ok::<Seq<char>, SubscriptionFault>(
            merge::merged_text(current, Seq::new(3, |k: int| closed_text(texts[k]))),
        ),
{
    let names = sections::section_names();
    assert forall|k: int| 0 <= k < 3 implies section_content(
        yaml::untagged(subscription)->Object_0,
        #[trigger] names[k],
    ) == Ok::<Seq<char>, SubscriptionFault>(closed_text(texts[k])) by {
        let object = Yaml::Object(seq![(Yaml::Text(names[k]), values[k])]);
        writing::light_value_is_writable(object, i32::MAX as int);
    }
    assert(names[0] == names[0] && names[1] == names[1] && names[2] == names[2]);
    assert(seq![closed_text(texts[0]), closed_text(texts[1]), closed_text(texts[2])] =~= Seq::new(
        3,
        |k: int| closed_text(texts[k]),
    ));
}

/// A subscription that is no object is refused as such.
pub proof fn subscription_has_to_be_an_object(current: Seq<char>, subscription: Yaml)
    requires
        !(yaml::untagged(subscription) is Object),
    ensures
        replaced(current, subscription) == Err::<Seq<char>, SubscriptionFault>(
            SubscriptionFault::NotAnObject,
        ),
{
}

/// A subscription is refused for the first of its sections that is amiss, by the name of that
/// section: because it is missing, because it is not a list, or because it cannot be written.
pub proof fn first_section_amiss_is_told(current: Seq<char>, subscription: Yaml, k: int)
    requires
        yaml::untagged(subscription) is Object,
        0 <= k < 3,
        forall|m: int|
            0 <= m < k ==> {
                let name = #[trigger] sections::section_names()[m];
                let found = yaml::entry(yaml::untagged(subscription)->Object_0, name);
                let object = Yaml::Object(seq![(Yaml::Text(name), found->0)]);
                &&& found is Some
                &&& yaml::untagged(found->0) is List
                &&& writing::weight(object) + 8 <= i32::MAX
                &&& yaml::yaml_text(object) is Some
            },
    ensures
        ({
            let name = sections::section_names()[k];
            let found = yaml::entry(yaml::untagged(subscription)->Object_0, name);
            let object = Yaml::Object(seq![(Yaml::Text(name), found->0)]);
            let outcome = replaced(current, subscription);
            &&& found is None ==> outcome == Err::<Seq<char>, SubscriptionFault>(
                SubscriptionFault::MissingSection(name),
            )
            &&& found is Some && !(yaml::untagged(found->0) is List) ==> outcome == Err::<
                Seq<char>,
                SubscriptionFault,
            >(SubscriptionFault::NotAList(name))
            &&& found is Some && yaml::untagged(found->0) is List && writing::weight(object) + 8
                <= i32::MAX && yaml::yaml_text(object) is None ==> outcome == Err::<
                Seq<char>,
                SubscriptionFault,
            >(SubscriptionFault::Unwritten)
        }),
{
    let names = sections::section_names();
    let entries = yaml::untagged(subscription)->Object_0;
    assert forall|m: int| 0 <= m < k implies section_content(
        entries,
        #[trigger] names[m],
    ) is Ok by {
        let found = yaml::entry(entries, names[m]);
        let object = Yaml::Object(seq![(Yaml::Text(names[m]), found->0)]);
        writing::light_value_is_writable(object, i32::MAX as int);
    }
    assert(names[0] == names[0] && names[1] == names[1] && names[2] == names[2]);
    let object = Yaml::Object(seq![(Yaml::Text(names[k]), yaml::entry(entries, names[k])->0)]);
    if writing::weight(object) + 8 <= i32::MAX {
        writing::light_value_is_writable(object, i32::MAX as int);
    }
}

/// What is taken over had a list under each of the three names.
pub proof fn what_is_taken_over_has_three_lists(current: Seq<char>, subscription: Yaml, k: int)
    requires
        replaced(current, subscription) is Ok,
        0 <= k < 3,
    ensures
        yaml::untagged(subscription) is Object,
        yaml::entry(
            yaml::untagged(subscription)->Object_0,
            sections::section_names()[k],
        ) matches Some(value) && yaml::untagged(value) is List,
{
    let names = sections::section_names();
    assert(names[0] == names[0] && names[1] == names[1] && names[2] == names[2]);
}

/// A section is what `serde_yml` writes for an object with the value under its name, closed with
/// a line feed, whatever the name and the value are.
pub proof fn section_is_what_is_written(section: Seq<char>, value: Yaml)
    requires
        writing::weight(Yaml::Object(seq![(Yaml::Text(section), value)])) + 8 <= i32::MAX,
    ensures
        match yaml::yaml_text(Yaml::Object(seq![(Yaml::Text(section), value)])) {
            Some(text) => rendered_section(section, value) == Ok::<Seq<char>, SubscriptionFault>(
                closed_text(text),
            ),
            None => rendered_section(section, value) == Err::<Seq<char>, SubscriptionFault>(
                SubscriptionFault::Unwritten,
            ),
        },
{
    writing::light_value_is_writable(
        Yaml::Object(seq![(Yaml::Text(section), value)]),
        i32::MAX as int,
    );
}

/// A message about a section has its name in it.
pub proof fn message_names_the_section(name: Seq<char>)
    ensures
        subscription_message(SubscriptionFault::MissingSection(name))
            == "Subscription config does not contain `"@ + name + "`"@,
        subscription_message(SubscriptionFault::NotAList(name)) == "Subscription config `"@ + name
            + "` must be a list"@,
{
}

} // verus!

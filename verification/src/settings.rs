//! What a user can set on the injector, by property name.

use vstd::prelude::*;

use crate::amf::MessageName;

verus! {

/// What to do with a cue whose timestamp the FLV stream has already passed.
#[derive(Clone, Copy, Debug, PartialEq, Eq, Structural)]
pub enum LatePolicy {
    /// Emit it at the current stream position rather than its own timestamp.
    ///
    /// A late caption displayed slightly early is legible; a dropped one is a
    /// gap in the transcript.
    Clamp,
    /// Discard it.
    Drop,
}

impl Default for LatePolicy {
    fn default() -> (policy: Self)
        ensures
            policy == LatePolicy::Clamp,
    {
        LatePolicy::Clamp
    }
}

/// The message name as a property value.
#[derive(Clone, Copy, Debug, PartialEq, Eq, Structural)]
pub enum MessageNameProperty {
    OnCaption,
    OnTextData,
}

impl Default for MessageNameProperty {
    fn default() -> (name: Self)
        ensures
            name == MessageNameProperty::OnCaption,
    {
        MessageNameProperty::OnCaption
    }
}

/// The message that a property value stands for.
pub open spec fn message_name_of(value: MessageNameProperty) -> MessageName {
    match value {
        MessageNameProperty::OnCaption => MessageName::OnCaption,
        MessageNameProperty::OnTextData => MessageName::OnTextData,
    }
}

impl From<MessageNameProperty> for MessageName {
    fn from(value: MessageNameProperty) -> (name: Self) {
        match value {
            MessageNameProperty::OnCaption => Self::OnCaption,
            MessageNameProperty::OnTextData => Self::OnTextData,
        }
    }
}

impl vstd::std_specs::convert::FromSpecImpl<MessageNameProperty> for MessageName {
    open spec fn obeys_from_spec() -> bool {
        true
    }

    open spec fn from_spec(value: MessageNameProperty) -> Self {
        message_name_of(value)
    }
}

/// The value of one property.
#[derive(Clone, Copy, Debug, PartialEq, Eq, Structural)]
pub enum PropertyValue {
    MessageName(MessageNameProperty),
    LatePolicy(LatePolicy),
    Prime(bool),
}

/// Everything that can be set.
#[derive(Clone, Copy, Debug, PartialEq, Eq, Structural)]
pub struct Settings {
    pub message_name: MessageNameProperty,
    pub late_policy: LatePolicy,
    pub prime: bool,
}

impl Default for Settings {
    fn default() -> (settings: Self)
        ensures
            settings == Settings::initial(),
    {
        Settings {
            message_name: MessageNameProperty::default(),
            late_policy: LatePolicy::default(),
            prime: true,
        }
    }
}

/// Whether `name` is the name of a property.
pub open spec fn is_property(name: Seq<char>) -> bool {
    name == "message-name"@ || name == "late-policy"@ || name == "prime"@
}

/// Whether the property called `name` takes a value such as `value`.
pub open spec fn takes(name: Seq<char>, value: PropertyValue) -> bool {
    match value {
        PropertyValue::MessageName(_) => name == "message-name"@,
        PropertyValue::LatePolicy(_) => name == "late-policy"@,
        PropertyValue::Prime(_) => name == "prime"@,
    }
}

impl Settings {
    /// Captions as `onCaption`, late ones moved to the stream position, and the
    /// subtitle stream declared at the start.
    pub open spec fn initial() -> Settings {
        Settings {
            message_name: MessageNameProperty::OnCaption,
            late_policy: LatePolicy::Clamp,
            prime: true,
        }
    }

    /// The settings after one property was set.
    pub open spec fn with(self, value: PropertyValue) -> Settings {
        match value {
            PropertyValue::MessageName(message_name) => Settings { message_name, ..self },
            PropertyValue::LatePolicy(late_policy) => Settings { late_policy, ..self },
            PropertyValue::Prime(prime) => Settings { prime, ..self },
        }
    }

    /// The value of the property called `name`.
    pub open spec fn value_of(self, name: Seq<char>) -> PropertyValue {
        if name == "message-name"@ {
            PropertyValue::MessageName(self.message_name)
        } else if name == "late-policy"@ {
            PropertyValue::LatePolicy(self.late_policy)
        } else {
            PropertyValue::Prime(self.prime)
        }
    }

    /// Sets the property called `name`.
    pub fn set_property(&mut self, name: &str, value: PropertyValue)
        requires
            takes(name@, value),
        ensures
            *final(self) == old(self).with(value),
    {
        if same_text(name, "message-name") {
            if let PropertyValue::MessageName(message_name) = value {
                self.message_name = message_name;
            }
        } else if same_text(name, "late-policy") {
            if let PropertyValue::LatePolicy(late_policy) = value {
                self.late_policy = late_policy;
            }
        } else {
            if let PropertyValue::Prime(prime) = value {
                self.prime = prime;
            }
        }
        proof {
            lemma_names_differ();
        }
    }

    /// Reads the property called `name`.
    pub fn property(&self, name: &str) -> (value: PropertyValue)
        requires
            is_property(name@),
        ensures
            value == self.value_of(name@),
    {
        if same_text(name, "message-name") {
            PropertyValue::MessageName(self.message_name)
        } else if same_text(name, "late-policy") {
            PropertyValue::LatePolicy(self.late_policy)
        } else {
            PropertyValue::Prime(self.prime)
        }
    }
}

/// Whether two strings are equal.
fn same_text(left: &str, right: &str) -> (same: bool)
    ensures
        same == (left@ == right@),
{
    let left_bytes = left.as_bytes();
    let right_bytes = right.as_bytes();
    proof {
        vstd::utf8::encode_utf8_decode_utf8(left@);
        vstd::utf8::encode_utf8_decode_utf8(right@);
    }
    if left_bytes.len() != right_bytes.len() {
        return false;
    }
    let mut at: usize = 0;
    while at < left_bytes.len()
        invariant
            at <= left_bytes@.len() == right_bytes@.len(),
            left_bytes@ == vstd::utf8::encode_utf8(left@),
            right_bytes@ == vstd::utf8::encode_utf8(right@),
            forall|i: int| 0 <= i < at ==> left_bytes@[i] == right_bytes@[i],
        decreases left_bytes@.len() - at,
    {
        if left_bytes[at] != right_bytes[at] {
            return false;
        }
        at += 1;
    }
    assert(left_bytes@ =~= right_bytes@);
    true
}

proof fn lemma_names_differ()
    ensures
        "message-name"@ != "late-policy"@,
        "message-name"@ != "prime"@,
        "late-policy"@ != "prime"@,
{
    reveal_strlit("message-name");
    reveal_strlit("late-policy");
    reveal_strlit("prime");
    assert("message-name"@.len() == 12 && "late-policy"@.len() == 11 && "prime"@.len() == 5);
}

/// A property reads back as it was set, and setting it leaves every other
/// property as it was.
pub proof fn law_property_reads_back(
    settings: Settings,
    name: Seq<char>,
    value: PropertyValue,
    other: Seq<char>,
)
    requires
        takes(name, value),
        is_property(other),
    ensures
        settings.with(value).value_of(name) == value,
        other != name ==> settings.with(value).value_of(other) == settings.value_of(other),
{
    lemma_names_differ();
}

/// There are three properties, each takes one kind of value, and a value that is
/// set lands in its own field and in no other.
pub proof fn law_property_is_one_field(settings: Settings, name: Seq<char>, value: PropertyValue)
    ensures
        is_property(name) <==> (name == "message-name"@ || name == "late-policy"@ || name
            == "prime"@),
        takes(name, value) <==> match value {
            PropertyValue::MessageName(_) => name == "message-name"@,
            PropertyValue::LatePolicy(_) => name == "late-policy"@,
            PropertyValue::Prime(_) => name == "prime"@,
        },
        settings.value_of("message-name"@) == PropertyValue::MessageName(settings.message_name),
        settings.value_of("late-policy"@) == PropertyValue::LatePolicy(settings.late_policy),
        settings.value_of("prime"@) == PropertyValue::Prime(settings.prime),
        ({
            let set = settings.with(value);
            &&& value !is MessageName ==> set.message_name == settings.message_name
            &&& value matches PropertyValue::MessageName(message_name) ==> set.message_name
                == message_name
            &&& value !is LatePolicy ==> set.late_policy == settings.late_policy
            &&& value matches PropertyValue::LatePolicy(late_policy) ==> set.late_policy
                == late_policy
            &&& value !is Prime ==> set.prime == settings.prime
            &&& value matches PropertyValue::Prime(prime) ==> set.prime == prime
        }),
{
    lemma_names_differ();
}

/// Unset properties mean: captions as `onCaption`, late ones moved, and the
/// subtitle stream declared. Each property value names the message of its name.
pub proof fn law_defaults_and_names()
    ensures
        Settings::initial().message_name == MessageNameProperty::OnCaption,
        Settings::initial().late_policy == LatePolicy::Clamp,
        Settings::initial().prime,
        message_name_of(MessageNameProperty::OnCaption) == MessageName::OnCaption,
        message_name_of(MessageNameProperty::OnTextData) == MessageName::OnTextData,
{
}

} // verus!

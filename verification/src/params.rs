//! Reading a filter's settings out of its parameter text.
//!
//! The text is a JSON object. A filter looks up the keys it knows and takes
//! its defaults for the others; what else the object holds is of no
//! account, as long as it is JSON. The JSON itself is read by `serde_json`.
//! This module holds the object's members as plain text and says what the
//! filters make of them.

use vstd::prelude::*;
use vstd::string::StringExecFns;

verus! {

/// One member of a JSON object: its key, and the JSON text of its value.
#[derive(Debug, PartialEq, Eq)]
pub struct Member {
    pub key: String,
    pub value: String,
}

/// The members of a JSON object.
#[derive(Debug, PartialEq, Eq)]
pub struct Document {
    pub members: Vec<Member>,
}

/// Keys and values of a list of members.
pub open spec fn member_views(members: Seq<Member>) -> Seq<(Seq<char>, Seq<char>)> {
    Seq::new(members.len(), |i: int| (members[i].key@, members[i].value@))
}

impl View for Document {
    type V = Seq<(Seq<char>, Seq<char>)>;

    open spec fn view(&self) -> Seq<(Seq<char>, Seq<char>)> {
        member_views(self.members@)
    }
}

/// What `serde_json` reads from a text as a map of raw values: the keys of
/// the JSON object that the text holds, each with the JSON text of its
/// value. There is nothing where `serde_json` reports an error: where the
/// text is not JSON, or is JSON for something else than an object. Of two
/// members with one key it keeps the later.
pub uninterp spec fn json_object(text: Seq<char>) -> Option<Seq<(Seq<char>, Seq<char>)>>;

/// What `serde_json` reads from a text as a `bool`: `true` or `false` for
/// those two JSON values, and nothing for every other text.
pub uninterp spec fn json_bool(text: Seq<char>) -> Option<bool>;

/// What `serde_json` reads from a text as a `u32`: the number where the
/// text is a JSON integer from zero to `u32::MAX`, and nothing for every
/// other text.
pub uninterp spec fn json_u32(text: Seq<char>) -> Option<u32>;

/// Calls `serde_json::from_str` for a map from `String` to
/// `Box<serde_json::value::RawValue>`, and hands out the map's entries,
/// each value by the text that `RawValue::get` gives. An error of the
/// parser gives nothing. The outcome depends on the text alone.
#[verifier::external_body]
fn parse_members(text: &str) -> (members: Option<Vec<Member>>)
    ensures
        match members {
            Some(list) => json_object(text@) == Some(member_views(list@)),
            None => json_object(text@) is None,
        },
{
    let read: std::collections::BTreeMap<String, Box<serde_json::value::RawValue>> =
        serde_json::from_str(text).ok()?;
    let mut members: Vec<Member> = Vec::new();
    for (key, value) in read {
        members.push(Member { key, value: value.get().to_owned() });
    }
    Some(members)
}

/// Calls `serde_json::from_str` for a `bool` and drops the error.
#[verifier::external_body]
fn parse_bool(text: &str) -> (flag: Option<bool>)
    ensures
        flag == json_bool(text@),
{
    serde_json::from_str::<bool>(text).ok()
}

/// Calls `serde_json::from_str` for a `u32` and drops the error.
#[verifier::external_body]
fn parse_u32(text: &str) -> (number: Option<u32>)
    ensures
        number == json_u32(text@),
{
    serde_json::from_str::<u32>(text).ok()
}

/// What a document holds for one setting.
#[derive(Debug, PartialEq, Eq)]
pub enum Setting<T> {
    /// The document has no member of that name.
    Absent,
    /// The document gives this value.
    Given(T),
    /// The document has a member of that name, and it is not of the
    /// setting's type.
    Invalid,
}

/// The value of the first member named `key`, if there is one.
pub open spec fn member(members: Seq<(Seq<char>, Seq<char>)>, key: Seq<char>) -> Option<
    Seq<char>,
>
    decreases members.len(),
{
    if members.len() == 0 {
        None
    } else if members[0].0 == key {
        Some(members[0].1)
    } else {
        member(members.drop_first(), key)
    }
}

/// What the members hold for a boolean setting named `key`.
pub open spec fn bool_setting(members: Seq<(Seq<char>, Seq<char>)>, key: Seq<char>) -> Setting<
    bool,
> {
    match member(members, key) {
        None => Setting::Absent,
        Some(value) => match json_bool(value) {
            Some(flag) => Setting::Given(flag),
            None => Setting::Invalid,
        },
    }
}

/// What the members hold for a setting named `key` that is an unsigned
/// 32-bit integer.
pub open spec fn u32_setting(members: Seq<(Seq<char>, Seq<char>)>, key: Seq<char>) -> Setting<
    u32,
> {
    match member(members, key) {
        None => Setting::Absent,
        Some(value) => match json_u32(value) {
            Some(number) => Setting::Given(number),
            None => Setting::Invalid,
        },
    }
}

/// Reads a parameter text as a JSON object.
pub fn parse_object(text: &str) -> (document: Option<Document>)
    ensures
        match document {
            Some(read) => json_object(text@) == Some(read@),
            None => json_object(text@) is None,
        },
{
    match parse_members(text) {
        Some(members) => Some(Document { members }),
        None => None,
    }
}

impl Document {
    /// Looks up the value of the member named `key`.
    pub fn get<'a>(&'a self, key: &str) -> (value: Option<&'a str>)
        ensures
            match value {
                Some(found) => member(self@, key@) == Some(found@),
                None => member(self@, key@) is None,
            },
    {
        let wanted: String = String::from_str(key);
        let ghost all = self@;
        assert(all.subrange(0, all.len() as int) =~= all);
        let mut i: usize = 0;
        while i < self.members.len()
            invariant
                i <= self.members@.len(),
                all == self@,
                wanted@ == key@,
                member(all, key@) == member(all.subrange(i as int, all.len() as int), key@),
            decreases self.members@.len() - i,
        {
            let ghost rest = all.subrange(i as int, all.len() as int);
            assert(rest[0] == all[i as int]);
            assert(rest.drop_first() =~= all.subrange(i + 1, all.len() as int));
            if self.members[i].key == wanted {
                return Some(self.members[i].value.as_str());
            }
            i = i + 1;
        }
        None
    }

    /// Looks up a boolean setting.
    pub fn read_bool(&self, key: &str) -> (setting: Setting<bool>)
        ensures
            setting == bool_setting(self@, key@),
    {
        match self.get(key) {
            None => Setting::Absent,
            Some(value) => match parse_bool(value) {
                Some(flag) => Setting::Given(flag),
                None => Setting::Invalid,
            },
        }
    }

    /// Looks up a setting that is an unsigned 32-bit integer.
    pub fn read_u32(&self, key: &str) -> (setting: Setting<u32>)
        ensures
            setting == u32_setting(self@, key@),
    {
        match self.get(key) {
            None => Setting::Absent,
            Some(value) => match parse_u32(value) {
                Some(number) => Setting::Given(number),
                None => Setting::Invalid,
            },
        }
    }
}

} // verus!

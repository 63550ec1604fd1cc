//! The key list a caller polls with, and how the device answers for one key.
use vstd::prelude::*;

use crate::order::{lex_lt, strs};
use crate::text::str_eq;

verus! {

/// The set of keys one device answers for, as written by discovery and read back by the
/// collector.
///
/// It describes a single system rather than the SENEC v3 as a model, so a profile taken from one
/// device is a starting guess on another.
///
/// `objects` pairs each SENEC object name with the keys polled under it. A profile read from a
/// file holds every object name once, in increasing order (see [`MetricProfile::objects_sorted`]);
/// an object paired with an empty list is never polled.
#[derive(Debug, Clone)]
pub struct MetricProfile {
    pub objects: Vec<(String, Vec<String>)>,
}

/// An object name and the keys listed under it, as character sequences.
pub type ProfileEntry = (Seq<char>, Seq<Seq<char>>);

/// The entries of a profile's object list, as character sequences.
pub open spec fn entries_view(v: Seq<(String, Vec<String>)>) -> Seq<ProfileEntry> {
    v.map_values(|e: (String, Vec<String>)| (e.0@, strs(e.1@)))
}

impl View for MetricProfile {
    type V = Seq<ProfileEntry>;

    open spec fn view(&self) -> Seq<ProfileEntry> {
        entries_view(self.objects@)
    }
}

/// The first components of `s` strictly increase, i.e. `s` lists a map keyed by them in key
/// order.
pub open spec fn names_sorted<V>(s: Seq<(Seq<char>, V)>) -> bool {
    forall|i: int, j: int| 0 <= i < j < s.len() ==> lex_lt(#[trigger] s[i].0, #[trigger] s[j].0)
}

/// The entry of `s` whose name is `name`, when there is one.
pub open spec fn lookup<V>(s: Seq<(Seq<char>, V)>, name: Seq<char>) -> Option<V>
    decreases s.len(),
{
    if s.len() == 0 {
        None
    } else if s[0].0 == name {
        Some(s[0].1)
    } else {
        lookup(s.drop_first(), name)
    }
}

impl MetricProfile {
    /// Every object name occurs once, in increasing order.
    pub open spec fn objects_sorted(&self) -> bool {
        names_sorted(self@)
    }

    /// A profile with no objects.
    pub fn empty() -> (p: MetricProfile)
        ensures
            p@.len() == 0,
    {
        MetricProfile { objects: Vec::new() }
    }

    /// Whether the profile lists no object at all.
    pub fn is_empty(&self) -> (r: bool)
        ensures
            r == (self@.len() == 0),
    {
        self.objects.len() == 0
    }
}

/// What the device's answer for one key turned out to be.
#[derive(Debug, Clone, Copy, PartialEq, Eq, Structural)]
pub enum ValueStatus {
    /// Anything that is not one of the four refusals, including a value nothing here can decode.
    Value,
    /// The device answered `VARIABLE_NOT_FOUND`.
    VariableNotFound,
    /// The device answered `FORBIDDEN`.
    Forbidden,
    /// The device answered `OBJECT_NOT_FOUND`.
    ObjectNotFound,
    /// The device answered `MALFORMED_VALUE`.
    MalformedValue,
}

/// The classification of a raw value: one of the four refusal words, matched exactly and
/// case-sensitively, or `Value`.
pub open spec fn spec_status(value: Seq<char>) -> ValueStatus {
    if value == "VARIABLE_NOT_FOUND"@ {
        ValueStatus::VariableNotFound
    } else if value == "FORBIDDEN"@ {
        ValueStatus::Forbidden
    } else if value == "OBJECT_NOT_FOUND"@ {
        ValueStatus::ObjectNotFound
    } else if value == "MALFORMED_VALUE"@ {
        ValueStatus::MalformedValue
    } else {
        ValueStatus::Value
    }
}

impl ValueStatus {
    /// Classifies one raw value string, matching the refusal words exactly and case-sensitively.
    pub fn from_raw(value: &str) -> (r: ValueStatus)
        ensures
            r == spec_status(value@),
    {
        if str_eq(value, "VARIABLE_NOT_FOUND") {
            ValueStatus::VariableNotFound
        } else if str_eq(value, "FORBIDDEN") {
            ValueStatus::Forbidden
        } else if str_eq(value, "OBJECT_NOT_FOUND") {
            ValueStatus::ObjectNotFound
        } else if str_eq(value, "MALFORMED_VALUE") {
            ValueStatus::MalformedValue
        } else {
            ValueStatus::Value
        }
    }

    /// Whether this is an answer that carries a value.
    pub fn is_ok(&self) -> (r: bool)
        ensures
            r == (*self == ValueStatus::Value),
    {
        match self {
            ValueStatus::Value => true,
            _ => false,
        }
    }
}

/// Each refusal word is classified as its refusal, exactly and only that text; every other
/// answer, whatever it holds (a number, text, or a refusal word in other case), is a value.
pub proof fn lemma_status_words(value: Seq<char>)
    ensures
        spec_status("VARIABLE_NOT_FOUND"@) == ValueStatus::VariableNotFound,
        spec_status("FORBIDDEN"@) == ValueStatus::Forbidden,
        spec_status("OBJECT_NOT_FOUND"@) == ValueStatus::ObjectNotFound,
        spec_status("MALFORMED_VALUE"@) == ValueStatus::MalformedValue,
        spec_status(value) == ValueStatus::Value <==> (value != "VARIABLE_NOT_FOUND"@ && value
            != "FORBIDDEN"@ && value != "OBJECT_NOT_FOUND"@ && value != "MALFORMED_VALUE"@),
{
    reveal_strlit("VARIABLE_NOT_FOUND");
    reveal_strlit("FORBIDDEN");
    reveal_strlit("OBJECT_NOT_FOUND");
    reveal_strlit("MALFORMED_VALUE");
    assert("FORBIDDEN"@ != "VARIABLE_NOT_FOUND"@) by {
        assert("FORBIDDEN"@.len() != "VARIABLE_NOT_FOUND"@.len());
    }
    assert("OBJECT_NOT_FOUND"@ != "VARIABLE_NOT_FOUND"@) by {
        assert("OBJECT_NOT_FOUND"@.len() != "VARIABLE_NOT_FOUND"@.len());
    }
    assert("OBJECT_NOT_FOUND"@ != "FORBIDDEN"@) by {
        assert("OBJECT_NOT_FOUND"@.len() != "FORBIDDEN"@.len());
    }
    assert("MALFORMED_VALUE"@ != "VARIABLE_NOT_FOUND"@) by {
        assert("MALFORMED_VALUE"@.len() != "VARIABLE_NOT_FOUND"@.len());
    }
    assert("MALFORMED_VALUE"@ != "FORBIDDEN"@) by {
        assert("MALFORMED_VALUE"@.len() != "FORBIDDEN"@.len());
    }
    assert("MALFORMED_VALUE"@ != "OBJECT_NOT_FOUND"@) by {
        assert("MALFORMED_VALUE"@.len() != "OBJECT_NOT_FOUND"@.len());
    }
}

} // verus!

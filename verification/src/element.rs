//! Elements and the external (page local-storage) shape of an element.
//!
//! An element is immutable once stored: its name is the key, and two
//! elements under one name that differ anywhere are a hard conflict.

use vstd::prelude::*;
use vstd::string::*;

verus! {

/// A discovered element: its unique name, its display emoji, and whether it
/// was a server-reported first-ever discovery when it was found.
#[derive(Debug)]
pub struct Element {
    pub result: String,
    pub emoji: String,
    pub is_new: bool,
}

/// The mathematical value of an [`Element`].
pub ghost struct ElementV {
    pub result: Seq<char>,
    pub emoji: Seq<char>,
    pub is_new: bool,
}

impl View for Element {
    type V = ElementV;

    open spec fn view(&self) -> ElementV {
        ElementV { result: self.result@, emoji: self.emoji@, is_new: self.is_new }
    }
}

impl Element {
    /// An exact copy.
    pub fn duplicate(&self) -> (r: Element)
        ensures
            r == *self,
    {
        Element {
            result: self.result.clone(),
            emoji: self.emoji.clone(),
            is_new: self.is_new,
        }
    }

    /// Whether two elements agree in every field.
    pub fn same_as(&self, other: &Element) -> (r: bool)
        ensures
            r == (self@ == other@),
    {
        let r = self.result == other.result && self.emoji == other.emoji && self.is_new
            == other.is_new;
        proof {
            if self@.result == other@.result && self@.emoji == other@.emoji && self@.is_new
                == other@.is_new {
                assert(self@ == other@);
            }
        }
        r
    }
}

/// An element as the web page keeps it in its local storage.
#[derive(Debug)]
pub struct SerializedElement {
    pub text: String,
    pub emoji: String,
    pub discovered: bool,
}

/// The mathematical value of a [`SerializedElement`].
pub ghost struct SerializedElementV {
    pub text: Seq<char>,
    pub emoji: Seq<char>,
    pub discovered: bool,
}

impl View for SerializedElement {
    type V = SerializedElementV;

    open spec fn view(&self) -> SerializedElementV {
        SerializedElementV { text: self.text@, emoji: self.emoji@, discovered: self.discovered }
    }
}

impl From<Element> for SerializedElement {
    fn from(value: Element) -> (r: SerializedElement) {
        SerializedElement { text: value.result, emoji: value.emoji, discovered: value.is_new }
    }
}

impl vstd::std_specs::convert::FromSpecImpl<Element> for SerializedElement {
    open spec fn obeys_from_spec() -> bool {
        true
    }

    open spec fn from_spec(v: Element) -> SerializedElement {
        SerializedElement { text: v.result, emoji: v.emoji, discovered: v.is_new }
    }
}

impl From<SerializedElement> for Element {
    fn from(value: SerializedElement) -> (r: Element) {
        Element { result: value.text, emoji: value.emoji, is_new: value.discovered }
    }
}

impl vstd::std_specs::convert::FromSpecImpl<SerializedElement> for Element {
    open spec fn obeys_from_spec() -> bool {
        true
    }

    open spec fn from_spec(v: SerializedElement) -> Element {
        Element { result: v.text, emoji: v.emoji, is_new: v.discovered }
    }
}

} // verus!

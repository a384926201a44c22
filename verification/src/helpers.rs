//! The operations that a template can call by name.
//!
//! A template calls a helper with one value of the document. Each helper
//! accepts the values that it can work on and refuses the others, which fails
//! the rendering.

use crate::menu::text_of;
use crate::price::{
    do_format_price, formatted, lemma_formatted_has_no_ampersand, Decimal, Price,
};
use crate::text::{
    escape_strings, escaped, lemma_escape_idempotent, lemma_escaped_fixes_escaped,
    lemma_trimmed_survives_escaping, trim, trimmed,
};
use vstd::prelude::*;

verus! {

/// The helpers that a template can call.
#[derive(Debug, Clone, Copy, PartialEq, Eq, Structural)]
pub enum HelperKind {
    /// Strips the whitespace around a text and escapes it.
    Trim,
    /// Escapes a text.
    Escape,
    /// Formats a price for display.
    FormatPrice,
}

/// The value that a template hands to a helper.
#[derive(Debug, Clone, PartialEq, Eq)]
pub enum HelperArgument {
    /// No value: a field of the document that is not filled in.
    Absent,
    /// A text.
    Text(String),
    /// A number.
    Number(Price),
    /// A value of any other kind.
    Other,
}

/// The mathematical value of a [`HelperArgument`].
pub enum HelperValue {
    Absent,
    Text(Seq<char>),
    Number(Decimal),
    Other,
}

impl View for HelperArgument {
    type V = HelperValue;

    open spec fn view(&self) -> HelperValue {
        match *self {
            HelperArgument::Absent => HelperValue::Absent,
            HelperArgument::Text(text) => HelperValue::Text(text@),
            HelperArgument::Number(price) => HelperValue::Number(price@),
            HelperArgument::Other => HelperValue::Other,
        }
    }
}

/// The name by which a template calls the helper.
pub open spec fn helper_name(helper: HelperKind) -> Seq<char> {
    match helper {
        HelperKind::Trim => "trim"@,
        HelperKind::Escape => "escape"@,
        HelperKind::FormatPrice => "format_price"@,
    }
}

/// What a helper makes of a value, or `None` for a value that it refuses.
///
/// The text helpers take a text. The price helper takes a number, which it
/// formats, or no value, for which it shows nothing.
pub open spec fn applied(helper: HelperKind, value: HelperValue) -> Option<Seq<char>> {
    match (helper, value) {
        (HelperKind::Trim, HelperValue::Text(text)) => Some(trimmed(text)),
        (HelperKind::Escape, HelperValue::Text(text)) => Some(escaped(text)),
        (HelperKind::FormatPrice, HelperValue::Number(price)) => Some(formatted(price)),
        (HelperKind::FormatPrice, HelperValue::Absent) => Some(Seq::empty()),
        _ => None,
    }
}

impl HelperKind {
    /// The name by which a template calls the helper.
    pub fn name(&self) -> (name: &'static str)
        ensures
            name@ == helper_name(*self),
    {
        match self {
            HelperKind::Trim => "trim",
            HelperKind::Escape => "escape",
            HelperKind::FormatPrice => "format_price",
        }
    }

    /// All helpers, in the order in which they are registered.
    pub fn all() -> (helpers: Vec<HelperKind>)
        ensures
            helpers@ == seq![HelperKind::Trim, HelperKind::Escape, HelperKind::FormatPrice],
    {
        let mut helpers: Vec<HelperKind> = Vec::new();
        helpers.push(HelperKind::Trim);
        helpers.push(HelperKind::Escape);
        helpers.push(HelperKind::FormatPrice);
        helpers
    }

    /// Calls the helper with `argument`. Returns what the helper puts into
    /// the document, or `None` if the helper refuses the value.
    pub fn apply(&self, argument: &HelperArgument) -> (out: Option<String>)
        ensures
            text_of(out) == applied(*self, argument@),
    {
        match self {
            HelperKind::Trim => match argument {
                HelperArgument::Text(text) => Some(trim(text.as_str())),
                _ => None,
            },
            HelperKind::Escape => match argument {
                HelperArgument::Text(text) => Some(escape_strings(text.as_str())),
                _ => None,
            },
            HelperKind::FormatPrice => match argument {
                HelperArgument::Number(price) => Some(do_format_price(price)),
                HelperArgument::Absent => Some(String::new()),
                _ => None,
            },
        }
    }
}

/// What a helper puts into the document is left as it is by the escaping
/// pass that follows the helper: nothing is escaped twice.
pub proof fn lemma_helper_output_survives_escaping(helper: HelperKind, value: HelperValue)
    requires
        applied(helper, value) is Some,
        value matches HelperValue::Number(price) ==> price.wf(),
    ensures
        escaped(applied(helper, value).unwrap()) == applied(helper, value).unwrap(),
{
    match (helper, value) {
        (HelperKind::Trim, HelperValue::Text(text)) => {
            lemma_trimmed_survives_escaping(text);
        },
        (HelperKind::Escape, HelperValue::Text(text)) => {
            lemma_escape_idempotent(text);
        },
        (HelperKind::FormatPrice, HelperValue::Number(price)) => {
            lemma_formatted_has_no_ampersand(price);
            lemma_escaped_fixes_escaped(formatted(price));
        },
        _ => {
            assert(escaped(Seq::<char>::empty()) == Seq::<char>::empty());
        },
    }
}

} // verus!

use vstd::prelude::*;

verus! {

/// Why an instance could not be built from its description.
#[derive(Clone, Copy, Debug, PartialEq, Eq, Structural)]
pub enum InputError {
    /// The line of items holds a character outside ASCII.
    NotAscii,
    /// The separator `|` occurs more than once.
    SeparatorRepeated,
    /// No item stands before the separator.
    NoPrimaryItems,
    /// Two items have the same name.
    DuplicateItem,
    /// An option names an item that was never declared.
    UnknownItem,
    /// An option names the same item twice.
    DuplicateItemInOption,
}

impl InputError {
    /// The sentence that describes the error to a user.
    pub fn message(&self) -> (r: &'static str)
        ensures
            r@ == self.text(),
    {
        match self {
            InputError::NotAscii => "Item names should belong to ASCII range.",
            InputError::SeparatorRepeated => "Item type separator '|' can only appear once.",
            InputError::NoPrimaryItems => "Primary items are required.",
            InputError::DuplicateItem => "Item names must be unique.",
            InputError::UnknownItem => "Options must contain known items.",
            InputError::DuplicateItemInOption => "Options must contain unique items.",
        }
    }

    /// The sentence that describes the error to a user.
    pub open spec fn text(&self) -> Seq<char> {
        match self {
            InputError::NotAscii => "Item names should belong to ASCII range."@,
            InputError::SeparatorRepeated => "Item type separator '|' can only appear once."@,
            InputError::NoPrimaryItems => "Primary items are required."@,
            InputError::DuplicateItem => "Item names must be unique."@,
            InputError::UnknownItem => "Options must contain known items."@,
            InputError::DuplicateItemInOption => "Options must contain unique items."@,
        }
    }
}

} // verus!

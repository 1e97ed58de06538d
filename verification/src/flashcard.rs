//! Flash card related abstractions.  A flash card is a small container of
//! information which should be memorized; its content is a plain value
//! object that this crate only persists and restores, never interprets.

use vstd::prelude::*;

verus! {

/// Data which should be shown on a flash card's sides is defined in fields.
#[derive(Debug)]
pub struct Field {
    pub(crate) data: String,
}

/// All of a flash card's data is represented on its sides.
#[derive(Debug)]
pub struct Side {
    pub(crate) data: String,
}

/// The mathematical value of a [`Flashcard`]: the characters of each field,
/// the characters of each side, and the rendering flag.
#[verifier::ext_equal]
pub struct CardV {
    pub fields: Seq<Seq<char>>,
    pub sides: Seq<Seq<char>>,
    pub auto_rendering: bool,
}

/// A flash card: a list of fields, a list of sides, and a flag saying
/// whether the sides are rendered automatically from the fields.
#[derive(Debug)]
pub struct Flashcard {
    pub(crate) fields: Vec<Field>,
    pub(crate) sides: Vec<Side>,
    pub(crate) auto_rendering: bool,
}

impl View for Field {
    type V = Seq<char>;

    closed spec fn view(&self) -> Seq<char> {
        self.data@
    }
}

impl View for Side {
    type V = Seq<char>;

    closed spec fn view(&self) -> Seq<char> {
        self.data@
    }
}

impl View for Flashcard {
    type V = CardV;

    closed spec fn view(&self) -> CardV {
        CardV {
            fields: self.fields@.map_values(|f: Field| f@),
            sides: self.sides@.map_values(|s: Side| s@),
            auto_rendering: self.auto_rendering,
        }
    }
}

impl Field {
    /// A field holding the given text.
    pub fn new(data: String) -> (r: Field)
        ensures
            r@ == data@,
    {
        Field { data }
    }

    /// The text of this field.
    pub fn data(&self) -> (r: &String)
        ensures
            r@ == self@,
    {
        &self.data
    }
}

impl Side {
    /// A side holding the given text.
    pub fn new(data: String) -> (r: Side)
        ensures
            r@ == data@,
    {
        Side { data }
    }

    /// The text of this side.
    pub fn data(&self) -> (r: &String)
        ensures
            r@ == self@,
    {
        &self.data
    }
}

impl Flashcard {
    /// A flash card made of the given fields, sides and rendering flag.
    pub fn new(fields: Vec<Field>, sides: Vec<Side>, auto_rendering: bool) -> (r: Flashcard)
        ensures
            r@.fields == fields@.map_values(|f: Field| f@),
            r@.sides == sides@.map_values(|s: Side| s@),
            r@.auto_rendering == auto_rendering,
    {
        Flashcard { fields, sides, auto_rendering }
    }

    /// The fields of this card.
    pub fn fields(&self) -> (r: &Vec<Field>)
        ensures
            r@.map_values(|f: Field| f@) == self@.fields,
    {
        &self.fields
    }

    /// The sides of this card.
    pub fn sides(&self) -> (r: &Vec<Side>)
        ensures
            r@.map_values(|s: Side| s@) == self@.sides,
    {
        &self.sides
    }

    /// Whether the sides are rendered automatically.
    pub fn auto_rendering(&self) -> (r: bool)
        ensures
            r == self@.auto_rendering,
    {
        self.auto_rendering
    }
}

} // verus!

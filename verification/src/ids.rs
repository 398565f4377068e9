//! The four classes of Geometry Dash ids and the ids themselves.

use vstd::prelude::*;
use crate::text::{numeral, numeral_string};

verus! {

/// An arbitrary id: the value of its class's counter when it was allocated.
pub type ArbitraryId = u16;

/// A specific id: the number it has in the level.
pub type SpecificId = u16;

/// The largest number of distinct ids that a level may use in one class.
pub const ID_MAX: usize = 999;

/// The classes of ids. Each has its own numbering.
#[derive(Clone, Copy, Debug, PartialEq, Eq, Structural)]
pub enum IdClass {
    Group,
    Color,
    Block,
    Item,
}

impl IdClass {
    /// The position of the class among the four: 0 for groups, then colors,
    /// blocks and items.
    pub open spec fn index_of(self) -> int {
        match self {
            IdClass::Group => 0,
            IdClass::Color => 1,
            IdClass::Block => 2,
            IdClass::Item => 3,
        }
    }

    /// Computes [`IdClass::index_of`].
    pub fn index(self) -> (r: usize)
        ensures
            r == self.index_of(),
    {
        match self {
            IdClass::Group => 0,
            IdClass::Color => 1,
            IdClass::Block => 2,
            IdClass::Item => 3,
        }
    }
}

/// An id of some class: one that the level fixes, or a placeholder that is
/// given a number when the level is written out.
#[derive(Clone, Copy, Debug, PartialEq, Eq, Structural)]
pub enum Id {
    Specific(SpecificId),
    Arbitrary(ArbitraryId),
}

impl Id {
    /// The text of an id: its number, or `?` for a placeholder.
    pub open spec fn text(self) -> Seq<char> {
        match self {
            Id::Specific(n) => numeral(n as nat),
            Id::Arbitrary(_) => seq!['?'],
        }
    }

    /// The id as text: its number, or `?` for a placeholder.
    pub fn to_str(&self) -> (r: String)
        ensures
            r@ == self.text(),
    {
        match self {
            Id::Specific(n) => numeral_string(*n as u64),
            Id::Arbitrary(_) => {
                let mut s = String::new();
                s.push('?');
                assert(s@ =~= seq!['?']);
                s
            },
        }
    }
}

/// A group id as object parameters hold it.
#[derive(Clone, Copy, Debug, PartialEq, Eq, Structural)]
pub struct Group {
    pub id: u16,
    pub arbitrary: bool,
}

/// A color channel id as object parameters hold it.
#[derive(Clone, Copy, Debug, PartialEq, Eq, Structural)]
pub struct Color {
    pub id: u16,
    pub arbitrary: bool,
}

/// A collision block id as object parameters hold it.
#[derive(Clone, Copy, Debug, PartialEq, Eq, Structural)]
pub struct Block {
    pub id: u16,
    pub arbitrary: bool,
}

/// An item id as object parameters hold it.
#[derive(Clone, Copy, Debug, PartialEq, Eq, Structural)]
pub struct Item {
    pub id: u16,
    pub arbitrary: bool,
}

/// The number of the group that marks an object as written by this program.
pub const SPWN_SIGNATURE_GROUP: u16 = 1001;

impl Group {
    /// The specific group `id`.
    pub fn new(id: u16) -> (r: Group)
        ensures
            r == (Group { id, arbitrary: false }),
    {
        Group { id, arbitrary: false }
    }

    /// The group that an [`Id`] stands for.
    pub open spec fn of(id: Id) -> Group {
        match id {
            Id::Specific(n) => Group { id: n, arbitrary: false },
            Id::Arbitrary(k) => Group { id: k, arbitrary: true },
        }
    }

    /// Computes [`Group::of`].
    pub fn from_id(id: Id) -> (r: Group)
        ensures
            r == Group::of(id),
    {
        match id {
            Id::Specific(n) => Group { id: n, arbitrary: false },
            Id::Arbitrary(k) => Group { id: k, arbitrary: true },
        }
    }

    /// The group that marks an object as written by this program.
    pub open spec fn signature() -> Group {
        Group { id: SPWN_SIGNATURE_GROUP, arbitrary: false }
    }

    /// A fixed sample group, number 10.
    pub fn test_fn() -> (r: Group)
        ensures
            r == (Group { id: 10, arbitrary: false }),
    {
        Group::new(10)
    }
}

impl Color {
    /// The specific color channel `id`.
    pub fn new(id: u16) -> (r: Color)
        ensures
            r == (Color { id, arbitrary: false }),
    {
        Color { id, arbitrary: false }
    }
}

impl Block {
    /// The specific block `id`.
    pub fn new(id: u16) -> (r: Block)
        ensures
            r == (Block { id, arbitrary: false }),
    {
        Block { id, arbitrary: false }
    }
}

impl Item {
    /// The specific item `id`.
    pub fn new(id: u16) -> (r: Item)
        ensures
            r == (Item { id, arbitrary: false }),
    {
        Item { id, arbitrary: false }
    }
}

} // verus!

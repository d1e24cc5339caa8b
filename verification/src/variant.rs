//! The four wire forms of UTF-16 and their byte-order marks.

use vstd::prelude::*;
use vstd::std_specs::convert::FromSpecImpl;

verus! {

/// The byte-order mark as it opens a little-endian stream.
pub const BOM_LE_BYTES: [u8; 2] = [0xFF, 0xFE];

/// The byte-order mark as it opens a big-endian stream.
pub const BOM_BE_BYTES: [u8; 2] = [0xFE, 0xFF];

/// The two bytes of the little-endian mark, read as one big-endian number.
pub const BOM_LE: u16 = 0xFFFE;

/// The two bytes of the big-endian mark, read as one big-endian number.
pub const BOM_BE: u16 = 0xFEFF;

/// One of the four wire forms: a byte order, and whether a byte-order mark
/// opens the stream.
#[derive(Clone, Copy, Debug, PartialEq, Eq, Structural)]
pub enum Utf16 {
    /// Little endian, no mark.
    Le,
    /// Little endian, opened by `FF FE`.
    LeBom,
    /// Big endian, no mark.
    Be,
    /// Big endian, opened by `FE FF`.
    BeBom,
}

impl Utf16 {
    /// Whether the more significant byte of a code unit comes first.
    pub open spec fn big_endian(self) -> bool {
        self == Utf16::Be || self == Utf16::BeBom
    }

    /// Whether a byte-order mark opens the stream.
    pub open spec fn has_bom(self) -> bool {
        self == Utf16::LeBom || self == Utf16::BeBom
    }

    /// The mark of this form's byte order.
    pub open spec fn mark(self) -> Seq<u8> {
        if self.big_endian() {
            seq![0xFEu8, 0xFFu8]
        } else {
            seq![0xFFu8, 0xFEu8]
        }
    }

    /// What stands before the first code unit: the mark, or nothing.
    pub open spec fn prefix(self) -> Seq<u8> {
        if self.has_bom() {
            self.mark()
        } else {
            Seq::<u8>::empty()
        }
    }

    /// Whether the more significant byte of a code unit comes first.
    pub fn is_big_endian(&self) -> (b: bool)
        ensures
            b == self.big_endian(),
    {
        match self {
            Utf16::Le | Utf16::LeBom => false,
            Utf16::Be | Utf16::BeBom => true,
        }
    }

    /// Whether a byte-order mark opens the stream.
    pub fn carries_bom(&self) -> (b: bool)
        ensures
            b == self.has_bom(),
    {
        match self {
            Utf16::Le | Utf16::Be => false,
            Utf16::LeBom | Utf16::BeBom => true,
        }
    }

    /// The two bytes of the mark of this form's byte order.
    pub fn bom_bytes(&self) -> (m: [u8; 2])
        ensures
            m@ == self.mark(),
    {
        if self.is_big_endian() {
            BOM_BE_BYTES
        } else {
            BOM_LE_BYTES
        }
    }
}

/// UTF-16 little endian **without** a byte-order mark, as a type.
#[derive(Clone, Copy, Debug, PartialEq, Eq, Structural)]
pub struct Utf16Le;

/// UTF-16 big endian **without** a byte-order mark, as a type.
#[derive(Clone, Copy, Debug, PartialEq, Eq, Structural)]
pub struct Utf16Be;

/// UTF-16 little endian **with** a byte-order mark, as a type.
#[derive(Clone, Copy, Debug, PartialEq, Eq, Structural)]
pub struct Utf16LeBom;

/// UTF-16 big endian **with** a byte-order mark, as a type.
#[derive(Clone, Copy, Debug, PartialEq, Eq, Structural)]
pub struct Utf16BeBom;

impl From<Utf16Le> for Utf16 {
    fn from(form: Utf16Le) -> (variant: Utf16) {
        Utf16::Le
    }
}

impl FromSpecImpl<Utf16Le> for Utf16 {
    open spec fn obeys_from_spec() -> bool {
        true
    }

    open spec fn from_spec(form: Utf16Le) -> Utf16 {
        Utf16::Le
    }
}

impl From<Utf16Be> for Utf16 {
    fn from(form: Utf16Be) -> (variant: Utf16) {
        Utf16::Be
    }
}

impl FromSpecImpl<Utf16Be> for Utf16 {
    open spec fn obeys_from_spec() -> bool {
        true
    }

    open spec fn from_spec(form: Utf16Be) -> Utf16 {
        Utf16::Be
    }
}

impl From<Utf16LeBom> for Utf16 {
    fn from(form: Utf16LeBom) -> (variant: Utf16) {
        Utf16::LeBom
    }
}

impl FromSpecImpl<Utf16LeBom> for Utf16 {
    open spec fn obeys_from_spec() -> bool {
        true
    }

    open spec fn from_spec(form: Utf16LeBom) -> Utf16 {
        Utf16::LeBom
    }
}

impl From<Utf16BeBom> for Utf16 {
    fn from(form: Utf16BeBom) -> (variant: Utf16) {
        Utf16::BeBom
    }
}

impl FromSpecImpl<Utf16BeBom> for Utf16 {
    open spec fn obeys_from_spec() -> bool {
        true
    }

    open spec fn from_spec(form: Utf16BeBom) -> Utf16 {
        Utf16::BeBom
    }
}

} // verus!

//! Errors reported by map queries, by the grid projection and by the reader
//! of the text form.

use crate::encode::write_decimal;
use crate::grammar::decimal;
use vstd::prelude::*;

verus! {

/// Why a query or a projection could not resolve a cell.
#[derive(Clone, Copy, Debug, PartialEq, Eq, Structural)]
pub enum TileMapError {
    /// A cell names the catalog index `index`, and the catalog holds only
    /// `len` entries.
    IndexOutOfRange { index: usize, len: usize },
    /// The atlas mapping has no entry for the catalog index of cell `(x, y)`.
    UnmappedSprite { x: u16, y: u16, index: usize },
}

impl TileMapError {
    /// What [`TileMapError::message`] says.
    pub open spec fn message_text(self) -> Seq<char> {
        match self {
            TileMapError::IndexOutOfRange { index, len } => "index out of range: sprite "@
                + decimal(index as nat) + " of "@ + decimal(len as nat),
            TileMapError::UnmappedSprite { x, y, index } => "unmapped sprite: sprite "@ + decimal(
                index as nat,
            ) + " at ("@ + decimal(x as nat) + ","@ + decimal(y as nat) + ")"@,
        }
    }

    /// The error in words, for a log or a dialog.
    pub fn message(&self) -> (text: String)
        ensures
            text@ == self.message_text(),
    {
        let mut text = String::new();
        match self {
            TileMapError::IndexOutOfRange { index, len } => {
                text.append("index out of range: sprite ");
                write_decimal(&mut text, *index);
                text.append(" of ");
                write_decimal(&mut text, *len);
            },
            TileMapError::UnmappedSprite { x, y, index } => {
                text.append("unmapped sprite: sprite ");
                write_decimal(&mut text, *index);
                text.append(" at (");
                write_decimal(&mut text, *x as usize);
                text.append(",");
                write_decimal(&mut text, *y as usize);
                text.append(")");
            },
        }
        assert(text@ =~= self.message_text());
        text
    }
}

/// Why a text or a run of bytes could not be read as a map.
#[derive(Clone, Copy, Debug, PartialEq, Eq, Structural)]
pub enum DecodeError {
    /// The bytes are not well-formed UTF-8.
    InvalidUtf8,
    /// The text leaves the grammar at character `offset`, counted from 0.
    Malformed { offset: usize },
}

impl DecodeError {
    /// What [`DecodeError::message`] says.
    pub open spec fn message_text(self) -> Seq<char> {
        match self {
            DecodeError::InvalidUtf8 => "malformed tile map: not UTF-8"@,
            DecodeError::Malformed { offset } => "malformed tile map at character "@ + decimal(
                offset as nat,
            ),
        }
    }

    /// The error in words, for a log or a dialog.
    pub fn message(&self) -> (text: String)
        ensures
            text@ == self.message_text(),
    {
        let mut text = String::new();
        match self {
            DecodeError::InvalidUtf8 => {
                text.append("malformed tile map: not UTF-8");
            },
            DecodeError::Malformed { offset } => {
                text.append("malformed tile map at character ");
                write_decimal(&mut text, *offset);
            },
        }
        assert(text@ =~= self.message_text());
        text
    }
}

} // verus!

//! Totally ordered log positions.

use vstd::prelude::*;

verus! {

/// A position in a shard's log: `Beginning` precedes every offset, `Eof`
/// follows every offset, and offsets compare by their value, so that
/// `Beginning < Offset(0) < Offset(1) < ... < Eof`.
#[derive(Clone, Copy, Debug, PartialEq, Eq, Structural)]
pub enum Position {
    Beginning,
    Offset(u64),
    Eof,
}

impl Position {
    /// `self <= other` in the linear order on positions.
    pub open spec fn spec_le(self, other: Position) -> bool {
        match (self, other) {
            (Position::Beginning, _) => true,
            (_, Position::Eof) => true,
            (Position::Offset(m), Position::Offset(n)) => m <= n,
            (Position::Offset(_), Position::Beginning) => false,
            (Position::Eof, _) => false,
        }
    }

    pub fn le(self, other: Position) -> (r: bool)
        ensures
            r == self.spec_le(other),
    {
        match (self, other) {
            (Position::Beginning, _) => true,
            (_, Position::Eof) => true,
            (Position::Offset(m), Position::Offset(n)) => m <= n,
            _ => false,
        }
    }

    pub open spec fn spec_as_offset(self) -> Option<u64> {
        match self {
            Position::Offset(n) => Some(n),
            _ => None,
        }
    }

    /// The offset carried by the position, if any: `Beginning` and `Eof`
    /// carry none.
    pub fn as_offset(self) -> (r: Option<u64>)
        ensures
            r == self.spec_as_offset(),
    {
        match self {
            Position::Offset(n) => Some(n),
            _ => None,
        }
    }
}

/// The order on positions is a total order: reflexive, antisymmetric,
/// transitive, and any two positions are comparable.
pub proof fn lemma_position_order_total(a: Position, b: Position, c: Position)
    ensures
        a.spec_le(a),
        a.spec_le(b) && b.spec_le(a) ==> a == b,
        a.spec_le(b) && b.spec_le(c) ==> a.spec_le(c),
        a.spec_le(b) || b.spec_le(a),
{
}

} // verus!

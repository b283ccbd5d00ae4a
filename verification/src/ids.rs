//! Dense arena handles for the IR entities.
//!
//! Every entity lives in a `Vec` owned by the [`Module`](crate::module::Module);
//! a handle is an index into that vector. Handles are cheap to copy and to
//! compare, and stable for the lifetime of the module, which is what lets
//! analyses build dense side tables.

use vstd::prelude::*;
use vstd::string::*;

use crate::text::{nat_text, push_nat};

verus! {

/// Identifies an operation within a module.
#[derive(Clone, Copy, Debug, PartialEq, Eq, PartialOrd, Ord, Hash, Structural)]
pub struct OperationId(pub u32);

impl OperationId {
    /// The arena position the handle refers to.
    pub open spec fn spec_index(self) -> int {
        self.0 as int
    }

    /// The handle of an arena position.
    pub open spec fn at(index: int) -> OperationId {
        OperationId(index as u32)
    }

    /// The handle of an arena position. Only the owning module mints handles.
    pub(crate) fn from_index(index: usize) -> (r: OperationId)
        requires
            index <= u32::MAX,
        ensures
            r == OperationId::at(index as int),
            r.spec_index() == index,
    {
        OperationId(index as u32)
    }

    /// The arena position the handle refers to.
    pub fn index(self) -> (r: usize)
        ensures
            r == self.spec_index(),
    {
        self.0 as usize
    }

    /// The numeric form used in diagnostics and the textual syntax.
    pub fn number(self) -> (r: u32)
        ensures
            r == self.spec_index(),
    {
        self.0
    }

    /// The printed form of the handle.
    pub open spec fn text(self) -> Seq<char> {
        "op"@ + nat_text(self.0 as nat)
    }

    /// The printed form of the handle.
    pub fn to_string(&self) -> (r: String)
        ensures
            r@ == self.text(),
    {
        let mut out = String::from_str("op");
        push_nat(&mut out, self.0 as u64);
        out
    }
}

/// Identifies a value within a module.
#[derive(Clone, Copy, Debug, PartialEq, Eq, PartialOrd, Ord, Hash, Structural)]
pub struct ValueId(pub u32);

impl ValueId {
    /// The arena position the handle refers to.
    pub open spec fn spec_index(self) -> int {
        self.0 as int
    }

    /// The handle of an arena position.
    pub open spec fn at(index: int) -> ValueId {
        ValueId(index as u32)
    }

    /// The handle of an arena position. Only the owning module mints handles.
    pub(crate) fn from_index(index: usize) -> (r: ValueId)
        requires
            index <= u32::MAX,
        ensures
            r == ValueId::at(index as int),
            r.spec_index() == index,
    {
        ValueId(index as u32)
    }

    /// The arena position the handle refers to.
    pub fn index(self) -> (r: usize)
        ensures
            r == self.spec_index(),
    {
        self.0 as usize
    }

    /// The numeric form used in diagnostics and the textual syntax.
    pub fn number(self) -> (r: u32)
        ensures
            r == self.spec_index(),
    {
        self.0
    }

    /// The printed form of the handle.
    pub open spec fn text(self) -> Seq<char> {
        "v"@ + nat_text(self.0 as nat)
    }

    /// The printed form of the handle.
    pub fn to_string(&self) -> (r: String)
        ensures
            r@ == self.text(),
    {
        let mut out = String::from_str("v");
        push_nat(&mut out, self.0 as u64);
        out
    }
}

/// Identifies a block within a module.
#[derive(Clone, Copy, Debug, PartialEq, Eq, PartialOrd, Ord, Hash, Structural)]
pub struct BlockId(pub u32);

impl BlockId {
    /// The arena position the handle refers to.
    pub open spec fn spec_index(self) -> int {
        self.0 as int
    }

    /// The handle of an arena position.
    pub open spec fn at(index: int) -> BlockId {
        BlockId(index as u32)
    }

    /// The handle of an arena position. Only the owning module mints handles.
    pub(crate) fn from_index(index: usize) -> (r: BlockId)
        requires
            index <= u32::MAX,
        ensures
            r == BlockId::at(index as int),
            r.spec_index() == index,
    {
        BlockId(index as u32)
    }

    /// The arena position the handle refers to.
    pub fn index(self) -> (r: usize)
        ensures
            r == self.spec_index(),
    {
        self.0 as usize
    }

    /// The numeric form used in diagnostics and the textual syntax.
    pub fn number(self) -> (r: u32)
        ensures
            r == self.spec_index(),
    {
        self.0
    }

    /// The printed form of the handle.
    pub open spec fn text(self) -> Seq<char> {
        "bb"@ + nat_text(self.0 as nat)
    }

    /// The printed form of the handle.
    pub fn to_string(&self) -> (r: String)
        ensures
            r@ == self.text(),
    {
        let mut out = String::from_str("bb");
        push_nat(&mut out, self.0 as u64);
        out
    }
}

/// Identifies a region within a module.
#[derive(Clone, Copy, Debug, PartialEq, Eq, PartialOrd, Ord, Hash, Structural)]
pub struct RegionId(pub u32);

impl RegionId {
    /// The arena position the handle refers to.
    pub open spec fn spec_index(self) -> int {
        self.0 as int
    }

    /// The handle of an arena position.
    pub open spec fn at(index: int) -> RegionId {
        RegionId(index as u32)
    }

    /// The handle of an arena position. Only the owning module mints handles.
    pub(crate) fn from_index(index: usize) -> (r: RegionId)
        requires
            index <= u32::MAX,
        ensures
            r == RegionId::at(index as int),
            r.spec_index() == index,
    {
        RegionId(index as u32)
    }

    /// The arena position the handle refers to.
    pub fn index(self) -> (r: usize)
        ensures
            r == self.spec_index(),
    {
        self.0 as usize
    }

    /// The numeric form used in diagnostics and the textual syntax.
    pub fn number(self) -> (r: u32)
        ensures
            r == self.spec_index(),
    {
        self.0
    }

    /// The printed form of the handle.
    pub open spec fn text(self) -> Seq<char> {
        "r"@ + nat_text(self.0 as nat)
    }

    /// The printed form of the handle.
    pub fn to_string(&self) -> (r: String)
        ensures
            r@ == self.text(),
    {
        let mut out = String::from_str("r");
        push_nat(&mut out, self.0 as u64);
        out
    }
}

} // verus!

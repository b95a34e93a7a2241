//! The mid-level program representation the analyses run on.
//!
//! A function body is a list of basic blocks over indexed locals: local 0
//! is the return value, locals `1..=arg_count` the formal arguments, and
//! higher indices temporaries.  Places refine a local with a projection
//! list; operands are copies, moves, or integer constants; terminators
//! carry the control flow.  Function identities are plain indices.

use vstd::prelude::*;

verus! {

/// One projection step of a place.
#[derive(Debug, Clone, Copy, PartialEq, Eq)]
pub enum ProjElem {
    /// Dereference.
    Deref,
    /// Field access by field index.
    Field(usize),
    /// Enum downcast to a variant index.
    Downcast(usize),
    /// Array index held in another local.
    Index(usize),
    /// Index by a constant.
    ConstIndex,
    /// Subslice.
    SubSlice,
    /// Subtype coercion.
    SubType,
}

/// A storage location: a local with a projection list.
#[derive(Debug, PartialEq, Eq)]
pub struct Place {
    pub local: usize,
    pub projection: Vec<ProjElem>,
}

impl Clone for Place {
    /// A clone denotes the same location.
    fn clone(&self) -> (r: Self)
        ensures
            r.local == self.local,
            r.projection@ == self.projection@,
    {
        let mut projection: Vec<ProjElem> = Vec::new();
        let mut i: usize = 0;
        while i < self.projection.len()
            invariant
                i <= self.projection@.len(),
                projection@ == self.projection@.subrange(0, i as int),
            decreases self.projection.len() - i,
        {
            projection.push(self.projection[i]);
            assert(self.projection@.subrange(0, i + 1) =~= self.projection@.subrange(
                0,
                i as int,
            ).push(self.projection@[i as int]));
            i = i + 1;
        }
        assert(self.projection@.subrange(0, self.projection@.len() as int) =~= self.projection@);
        Place { local: self.local, projection }
    }
}

impl Place {
    /// A bare local without projections.
    pub fn from_local(local: usize) -> (r: Place)
        ensures
            r.local == local,
            r.projection@.len() == 0,
    {
        Place { local, projection: Vec::new() }
    }
}

/// How a value is borrowed.
#[derive(Debug, Clone, Copy, PartialEq, Eq)]
pub enum BorrowKind {
    Shared,
    Mutable,
    Fake,
}

/// An operand of a statement or call.
#[derive(Debug, Clone, PartialEq, Eq)]
pub enum Operand {
    Copy(Place),
    Move(Place),
    Constant(i64),
}

/// What an aggregate constructs.
#[derive(Debug, Clone, Copy, PartialEq, Eq)]
pub enum AggCtor {
    Array,
    Tuple,
    Adt(usize),
    Closure(usize),
    Coroutine(usize),
    RawPtr,
}

/// Binary operators.
#[derive(Debug, Clone, Copy, PartialEq, Eq)]
pub enum BinOp {
    Add,
    Sub,
    Mul,
    Div,
    Rem,
    BitXor,
    BitAnd,
    BitOr,
    Shl,
    Shr,
    Eq,
    Lt,
    Le,
    Ne,
    Ge,
    Gt,
    AddUnchecked,
    AddWithOverflow,
    SubUnchecked,
    SubWithOverflow,
    MulUnchecked,
    MulWithOverflow,
    Offset,
}

/// Unary operators.
#[derive(Debug, Clone, Copy, PartialEq, Eq)]
pub enum UnOp {
    Not,
    Neg,
    PtrMetadata,
}

/// The right-hand side of an assignment.
#[derive(Debug, Clone, PartialEq, Eq)]
pub enum Rvalue {
    Use(Operand),
    Repeat(Operand),
    Ref(BorrowKind, Place),
    Len(Place),
    Cast(Operand),
    BinaryOp(BinOp, Operand, Operand),
    NullaryOp,
    UnaryOp(UnOp, Operand),
    Discriminant(Place),
    Aggregate(AggCtor, Vec<Operand>),
    ShallowInitBox(Operand),
    CopyForDeref(Place),
    RawPtr(Place),
    ThreadLocalRef,
}

/// A statement of a basic block.
#[derive(Debug, Clone, PartialEq, Eq)]
pub enum Statement {
    Assign(Place, Rvalue),
    Nop,
}

/// The function operand of a call.
#[derive(Debug, Clone, PartialEq, Eq)]
pub enum CallFunc {
    /// A direct call to a known function identity.
    Direct(usize),
    /// An indirect call through a place.
    Operand(Place),
}

/// The terminator of a basic block; block targets are block indices.
#[derive(Debug, Clone, PartialEq, Eq)]
pub enum Terminator {
    Goto(usize),
    SwitchInt { discr: Operand, false_target: usize, true_target: usize },
    Call { func: CallFunc, args: Vec<Operand>, destination: Place, target: usize },
    Return,
    Unreachable,
}

/// A basic block: straight-line statements closed by a terminator.
#[derive(Debug, Clone, PartialEq, Eq)]
pub struct BasicBlock {
    pub statements: Vec<Statement>,
    pub terminator: Terminator,
}

/// A function body.
#[derive(Debug, Clone, PartialEq, Eq)]
pub struct FnBody {
    /// Number of formal arguments (locals `1..=arg_count`).
    pub arg_count: usize,
    /// Number of declared locals, return value and arguments included.
    pub local_count: usize,
    /// The control-flow graph's blocks.
    pub blocks: Vec<BasicBlock>,
}

} // verus!

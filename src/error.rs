use vstd::prelude::*;
use crate::tuple::DataKind;
use crate::value::Op;

verus! {

/// Errors reported by the environment, the definition reader and the evaluator.
#[derive(Debug, PartialEq)]
pub enum CozoError {
    /// A referenced name does not resolve.
    UndefinedType(String),
    /// A resolved definition has the wrong kind for its use.
    UnexpectedDataKind(DataKind),
    /// A column list repeats a name; all the names of the list are given.
    DuplicateNames(Vec<String>),
    /// A scoping or structural rule is violated.
    LogicError(String),
    /// A stored tuple does not have the shape that its kind promises.
    BadDataFormat,
    /// The sequence of storage ids is exhausted.
    StorageIdExhausted,
    /// An operator got operands of types it does not take.
    TypeMismatch(Op),
    /// An operator got a wrong number of operands.
    ArityMismatch(Op),
    /// An integer operation left the range of its result type.
    ArithmeticOverflow(Op),
    /// A division or remainder by zero.
    DivisionByZero(Op),
}

/// The mathematical content of a `CozoError`; a logic error's message is left out.
pub enum ErrV {
    UndefinedType(Seq<char>),
    UnexpectedDataKind(DataKind),
    DuplicateNames(Seq<Seq<char>>),
    LogicError,
    BadDataFormat,
    StorageIdExhausted,
    TypeMismatch(Op),
    ArityMismatch(Op),
    ArithmeticOverflow(Op),
    DivisionByZero(Op),
}

impl View for CozoError {
    type V = ErrV;

    open spec fn view(&self) -> ErrV {
        match self {
            CozoError::UndefinedType(s) => ErrV::UndefinedType(s@),
            CozoError::UnexpectedDataKind(k) => ErrV::UnexpectedDataKind(*k),
            CozoError::DuplicateNames(ns) => ErrV::DuplicateNames(
                ns@.map_values(|s: String| s@),
            ),
            CozoError::LogicError(_) => ErrV::LogicError,
            CozoError::BadDataFormat => ErrV::BadDataFormat,
            CozoError::StorageIdExhausted => ErrV::StorageIdExhausted,
            CozoError::TypeMismatch(op) => ErrV::TypeMismatch(*op),
            CozoError::ArityMismatch(op) => ErrV::ArityMismatch(*op),
            CozoError::ArithmeticOverflow(op) => ErrV::ArithmeticOverflow(*op),
            CozoError::DivisionByZero(op) => ErrV::DivisionByZero(*op),
        }
    }
}

} // verus!

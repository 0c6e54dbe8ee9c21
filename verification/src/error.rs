use vstd::prelude::*;

use crate::ast::NodeId;
use crate::rhif::spec::{AluBinary, AluUnary, Slot};
use crate::types::kind::Kind;
use crate::types::path::Path;

verus! {

/// Type-check failures reported to the user.
#[derive(Debug)]
pub enum TypeCheck {
    ExpectedSignalValue,
    InferredLiteralTypeMismatch { typ: Kind, kind: Kind },
    UnableToDetermineType,
    PathMismatchInTypeInference,
}

/// Internal compiler errors: conditions that a correct front end never produces.
#[derive(Debug)]
pub enum ICE {
    LocalVariableDoesNotExist { name: String },
    RebindOfUnboundVariable { name: String },
    SlotToIndexNonLiteralSlot { slot: Slot },
    InitializeLocalOnUnboundVariable { name: String },
    ReturnSlotNotFound { name: String },
    MissingKernelFunction { name: String },
    ExpectedStructTemplate { kind: Kind },
    ExpectedEnumTemplate { kind: Kind },
    MissingSlotInColorMap { slot: Slot },
    SlotMissingInTypeMap { slot: Slot },
    SlotHasConflictingColors { slot: Slot },
    SlotIsReadBeforeBeingWritten { slot: Slot },
    CannotWriteToLiteral { ndx: usize },
    SlotIsWrittenTwice { slot: Slot },
    MismatchInDataTypes { lhs: Kind, rhs: Kind },
    UnsignedCastRequiresSignedArgument,
    SignedCastRequiresUnsignedArgument,
    ShiftOperatorRequiresUnsignedArgument,
    ShiftOperatorRequiresUnsignedArgumentConstant { shift: i64 },
    IndexValueMustBeUnsigned,
    ExpectedArrayType { kind: Kind },
    MatchPatternValueMustBeLiteral,
    ArgumentCountMismatchOnCall,
    BitCastMissingRequiredLength,
    PathContainsDynamicIndices { path: Path },
    PathDoesNotContainDynamicIndices { path: Path },
    MismatchedTypesFromDynamicIndexing { base: Kind, slot: Kind },
    MismatchedBitWidthsFromDynamicIndexing { base: usize, slot: usize },
    EmptySlotInRTL,
    EmptySlotInVerilog,
    FunctionWithNoReturnInVerilog,
    VariantNotFoundInType { variant: i64, ty: Kind },
    WrapMissingKind,
    SymbolTableIsIncomplete { slot: Slot },
    UnableToInferClockDomainForRetime,
    SelectOnUninitializedValue,
    LiteralOutOfRange,
}

/// Syntax the hardware compiler does not support.
#[derive(Debug)]
pub enum Syntax {
    RangesInForLoopsOnly,
    FallibleLetExpr,
    ForLoopNonIdentPattern,
    ForLoopNonRangeExpr,
    ForLoopNoStartValue,
    ForLoopNoEndValue,
    ForLoopNonIntegerStartValue,
    ForLoopNonIntegerEndValue,
    UnsupportedMethodCall,
    UnsupportedPathWithArguments,
    RollYourOwnBinary,
    RollYourOwnUnary { op: AluUnary },
}

/// The rule of the clock check that an opcode breaks.
#[derive(Debug)]
pub enum ClockError {
    BinaryOperationClockMismatch { op: AluBinary },
    UnaryOperationClockMismatch { op: AluUnary },
    AssignmentClockMismatch,
    CastClockMismatch,
    RetimeClockMismatch,
    SelectClockMismatch,
    WrapClockMismatch,
    IndexClockMismatch,
    SpliceClockMismatch,
    ArrayClockMismatch,
    StructClockMismatch,
    TupleClockMismatch,
    CaseClockMismatch,
    ExternalClockMismatch,
    UnresolvedClock,
}

/// Errors of the compiler, each with the source node it concerns.
#[derive(Debug)]
pub enum RHDLError {
    Compile { cause: ICE, id: NodeId },
    Syntax { cause: Syntax, id: NodeId },
    TypeCheck { cause: TypeCheck, id: NodeId },
    /// A path that does not select anything in the kind it is applied to.
    InvalidPath,
    /// A value used as a condition is not a single bit.
    NotABoolean,
    /// A binary operation applied to literals of different widths or to an
    /// unsupported operator.
    InvalidOperands { op: AluBinary },
    /// A value does not fit the integer type it is read as.
    IntegerOutOfRange,
    /// Type inference could not unify or read a type.
    TypeInference { cause: crate::compiler::mir::ty::UnifyError },
    /// An integer literal that does not parse as a number of its type.
    InvalidLiteral,
    /// Two types that a construct requires to be equal cannot be made so;
    /// the types are given as far as they are known.
    TypeMismatch {
        cause: crate::compiler::mir::ty::UnifyError,
        lhs: crate::compiler::mir::ty::TypeId,
        rhs: crate::compiler::mir::ty::TypeId,
        id: NodeId,
    },
    /// Values that an opcode requires to be in one clock domain are not;
    /// `slots` are the values concerned.
    ClockCoherence { cause: ClockError, slots: Vec<Slot>, id: NodeId },
}

} // verus!

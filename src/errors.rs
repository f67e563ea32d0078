//! The errors of the interpreter.
use crate::ast::Rule;
use vstd::prelude::*;

verus! {

/// What went wrong, without the details an error carries.
#[derive(Clone, Copy, Debug, PartialEq, Eq, Structural)]
pub enum ErrKind {
    ParsingContext,
    UnknownVariable,
    UnexpectedRule,
    ParseError,
    InvalidElementCount,
    InvalidCondition,
    UnexpectedOperator,
    LoopLimit,
    TooManyMCommands,
    UnexpectedAxis,
    AxisUsedAsVariable,
    ArithmeticError,
    AnnotatedError,
}

#[derive(Debug)]
pub enum ParsingError {
    /// A failure with a free-form description of where it happened.
    ParsingContext { line_no: usize, preview: String, context: String, message: String },
    /// A variable was read before it was given a value.
    UnknownVariable { variable: String },
    /// A node of an unexpected rule stood where the interpreter dispatches.
    UnexpectedRule { rule: Rule, context: String },
    /// The program text does not have the expected shape.
    ParseError { message: String },
    /// An array assignment gave more values than the array has cells.
    InvalidElementCount { expected: usize, actual: usize },
    /// A condition is neither one expression nor a comparison of two.
    InvalidCondition,
    /// A comparison used an operator that does not exist.
    UnexpectedOperator { operator: String },
    /// A loop reached the iteration limit.
    LoopLimit { limit: usize },
    /// A block held more M commands than a row can take.
    TooManyMCommands { preview: String },
    /// A frame operation named something that is not an axis.
    UnexpectedAxis { axis: String },
    /// A definition named an axis.
    AxisUsedAsVariable { name: String },
    /// A calculation divided by zero or left the range of values.
    ArithmeticError { message: String },
    /// An error raised inside a block, with the block's line and text.
    AnnotatedError { line_no: usize, preview: String, source: Box<ParsingError> },
}

impl ParsingError {
    pub open spec fn kind(&self) -> ErrKind {
        match self {
            ParsingError::ParsingContext { .. } => ErrKind::ParsingContext,
            ParsingError::UnknownVariable { .. } => ErrKind::UnknownVariable,
            ParsingError::UnexpectedRule { .. } => ErrKind::UnexpectedRule,
            ParsingError::ParseError { .. } => ErrKind::ParseError,
            ParsingError::InvalidElementCount { .. } => ErrKind::InvalidElementCount,
            ParsingError::InvalidCondition => ErrKind::InvalidCondition,
            ParsingError::UnexpectedOperator { .. } => ErrKind::UnexpectedOperator,
            ParsingError::LoopLimit { .. } => ErrKind::LoopLimit,
            ParsingError::TooManyMCommands { .. } => ErrKind::TooManyMCommands,
            ParsingError::UnexpectedAxis { .. } => ErrKind::UnexpectedAxis,
            ParsingError::AxisUsedAsVariable { .. } => ErrKind::AxisUsedAsVariable,
            ParsingError::ArithmeticError { .. } => ErrKind::ArithmeticError,
            ParsingError::AnnotatedError { .. } => ErrKind::AnnotatedError,
        }
    }

    /// An error with a description of the place where it happened.
    pub fn with_context(line_no: usize, preview: &str, context: &str, message: &str) -> (r: Self)
        ensures
            r matches ParsingError::ParsingContext { line_no: l, preview: p, context: c, message: m }
                && l == line_no && p@ == preview@ && c@ == context@ && m@ == message@,
    {
        ParsingError::ParsingContext {
            line_no,
            preview: String::from_str(preview),
            context: String::from_str(context),
            message: String::from_str(message),
        }
    }
}

/// What a run's specification says of an error: its kind; a loop limit with
/// the limit; or an error inside a block, with the block's line and text.
pub enum ErrView {
    Kind(ErrKind),
    LoopLimit(int),
    Annotated(usize, Seq<char>, Box<ErrView>),
}

/// An error is the one a specification names.
pub open spec fn err_agrees(e: ParsingError, v: ErrView) -> bool
    decreases e,
{
    match v {
        ErrView::Kind(k) => e.kind() == k,
        ErrView::LoopLimit(l) => e matches ParsingError::LoopLimit { limit } && limit as int == l,
        ErrView::Annotated(l, p, inner) => match e {
            ParsingError::AnnotatedError { line_no, preview, source } => line_no == l && preview@ == p
                && err_agrees(*source, *inner),
            _ => false,
        },
    }
}

/// A result is the one a specification names.
pub open spec fn res_agrees(r: Result<(), ParsingError>, s: Result<(), ErrView>) -> bool {
    match (r, s) {
        (Ok(_), Ok(_)) => true,
        (Err(e), Err(v)) => err_agrees(e, v),
        _ => false,
    }
}

/// A result named by its error kind alone.
pub open spec fn lift(r: Result<(), ErrKind>) -> Result<(), ErrView> {
    match r {
        Ok(_) => Ok(()),
        Err(k) => Err(ErrView::Kind(k)),
    }
}

/// The error kind of a result.
pub open spec fn kind_of(r: Result<(), ParsingError>) -> Result<(), ErrKind> {
    match r {
        Ok(_) => Ok(()),
        Err(e) => Err(e.kind()),
    }
}

} // verus!

//! The parse tree that the interpreter walks: rule-tagged nodes with their
//! source text and children, in source order.
use vstd::prelude::*;

verus! {

/// The G-code groups. A command of a group is written into the column named
/// after its group.
#[derive(Clone, Copy, Debug, PartialEq, Eq, Structural)]
pub enum GGroup {
    Motion,
    NonModalMotion,
    WorkingArea,
    Plane,
    RadiusCompensation,
    ZeroOffset,
    FrameSuppression,
    ExactStop,
    ExactStopNonModal,
    BlockChange,
    Units,
    Dimensions,
    FeedType,
    Acceleration,
}

/// The grammar rules that the interpreter dispatches on.
#[derive(Clone, Copy, Debug, PartialEq, Eq, Structural)]
pub enum Rule {
    File,
    Blocks,
    Block,
    BlockNumber,
    Integer,
    Statement,
    GCommand,
    GCommandNumbered,
    /// The command word inside a `GCommand`, tagged with its group.
    GWord(GGroup),
    MCommand,
    FunctionCall,
    ToolSelection,
    Assignment,
    AssignmentMulti,
    Variable,
    VariableArray,
    VariableSingleChar,
    Identifier,
    Indices,
    AxisIncrement,
    Value,
    ValueNone,
    ValueArray,
    Expression,
    Primary,
    Neg,
    OpAdd,
    OpSub,
    OpMul,
    OpDiv,
    OpIntDiv,
    OpMod,
    Condition,
    RelationalOperator,
    Definition,
    DataType,
    Control,
    IfStatement,
    WhileStatement,
    ForStatement,
    FrameOp,
    FrameTrans,
    FrameAtrans,
    Comment,
}

/// One node of the parse tree.
#[derive(Debug)]
pub struct Node {
    pub rule: Rule,
    /// The source text that the node spans.
    pub text: String,
    /// The source line on which the node starts (1-based; 0 where unknown).
    pub line: usize,
    pub children: Vec<Node>,
}

impl Node {
    pub fn new(rule: Rule, text: String, line: usize, children: Vec<Node>) -> (r: Node)
        ensures
            r.rule == rule,
            r.text == text,
            r.line == line,
            r.children == children,
    {
        Node { rule, text, line, children }
    }
}

/// The column that a group's commands are written to.
pub open spec fn group_column(g: GGroup) -> Seq<char> {
    match g {
        GGroup::Motion => "gg01_motion"@,
        GGroup::NonModalMotion => "gg02_non_modal_motion"@,
        GGroup::WorkingArea => "gg03_working_area"@,
        GGroup::Plane => "gg06_plane"@,
        GGroup::RadiusCompensation => "gg07_radius_compensation"@,
        GGroup::ZeroOffset => "gg08_zero_offset"@,
        GGroup::FrameSuppression => "gg09_frame_suppression"@,
        GGroup::ExactStop => "gg10_exact_stop"@,
        GGroup::ExactStopNonModal => "gg11_exact_stop_non_modal"@,
        GGroup::BlockChange => "gg12_block_change"@,
        GGroup::Units => "gg13_units"@,
        GGroup::Dimensions => "gg14_dimensions"@,
        GGroup::FeedType => "gg15_feed_type"@,
        GGroup::Acceleration => "gg21_acceleration"@,
    }
}

/// Whether a group is modal: its last command stays in force until another
/// command of the group replaces it.
pub open spec fn group_is_modal(g: GGroup) -> bool {
    match g {
        GGroup::NonModalMotion => false,
        GGroup::WorkingArea => false,
        GGroup::FrameSuppression => false,
        GGroup::ExactStopNonModal => false,
        _ => true,
    }
}

impl GGroup {
    /// The column that the group's commands are written to.
    pub fn column(&self) -> (r: &'static str)
        ensures
            r@ == group_column(*self),
    {
        match self {
            GGroup::Motion => "gg01_motion",
            GGroup::NonModalMotion => "gg02_non_modal_motion",
            GGroup::WorkingArea => "gg03_working_area",
            GGroup::Plane => "gg06_plane",
            GGroup::RadiusCompensation => "gg07_radius_compensation",
            GGroup::ZeroOffset => "gg08_zero_offset",
            GGroup::FrameSuppression => "gg09_frame_suppression",
            GGroup::ExactStop => "gg10_exact_stop",
            GGroup::ExactStopNonModal => "gg11_exact_stop_non_modal",
            GGroup::BlockChange => "gg12_block_change",
            GGroup::Units => "gg13_units",
            GGroup::Dimensions => "gg14_dimensions",
            GGroup::FeedType => "gg15_feed_type",
            GGroup::Acceleration => "gg21_acceleration",
        }
    }

    /// Whether the group is modal.
    pub fn is_modal(&self) -> (r: bool)
        ensures
            r == group_is_modal(*self),
    {
        match self {
            GGroup::NonModalMotion => false,
            GGroup::WorkingArea => false,
            GGroup::FrameSuppression => false,
            GGroup::ExactStopNonModal => false,
            _ => true,
        }
    }
}

/// Every group, in column order.
pub open spec fn all_groups() -> Seq<GGroup> {
    seq![
        GGroup::Motion,
        GGroup::NonModalMotion,
        GGroup::WorkingArea,
        GGroup::Plane,
        GGroup::RadiusCompensation,
        GGroup::ZeroOffset,
        GGroup::FrameSuppression,
        GGroup::ExactStop,
        GGroup::ExactStopNonModal,
        GGroup::BlockChange,
        GGroup::Units,
        GGroup::Dimensions,
        GGroup::FeedType,
        GGroup::Acceleration,
    ]
}

/// Every group, in column order.
pub fn groups() -> (r: Vec<GGroup>)
    ensures
        r@ == all_groups(),
{
    let r = vec![
        GGroup::Motion,
        GGroup::NonModalMotion,
        GGroup::WorkingArea,
        GGroup::Plane,
        GGroup::RadiusCompensation,
        GGroup::ZeroOffset,
        GGroup::FrameSuppression,
        GGroup::ExactStop,
        GGroup::ExactStopNonModal,
        GGroup::BlockChange,
        GGroup::Units,
        GGroup::Dimensions,
        GGroup::FeedType,
        GGroup::Acceleration,
    ];
    assert(r@ =~= all_groups());
    r
}

} // verus!

use vstd::prelude::*;

verus! {

/// Which entries of an object a selector step takes.
#[derive(Debug, PartialEq, Eq)]
pub enum ObjectSelector {
    Wildcard,
    Exact(String),
}

/// A slice `[start:end:step]` of an array. Absent bounds default to the
/// whole array; `step` is kept as written and takes no part in selection.
#[derive(Debug, Clone, Copy, PartialEq, Eq)]
pub struct ArraySlice {
    pub start: Option<i64>,
    pub end: Option<i64>,
    pub step: Option<i64>,
}

/// `x` limited to `0..=len`.
pub open spec fn clamp(x: int, len: int) -> int {
    if x < 0 {
        0
    } else if x > len {
        len
    } else {
        x
    }
}

impl ArraySlice {
    pub fn new(start: Option<i64>, end: Option<i64>, step: Option<i64>) -> (r: ArraySlice)
        ensures
            r.start == start,
            r.end == end,
            r.step == step,
    {
        ArraySlice { start: start, end: end, step: step }
    }

    /// First index that the slice takes from an array of `len` elements.
    pub open spec fn lower(self, len: int) -> int {
        match self.start {
            Some(s) => clamp(s as int, len),
            None => 0,
        }
    }

    /// One past the last index that the slice takes from an array of `len`
    /// elements. Where it is not above `lower`, the slice takes nothing.
    pub open spec fn upper(self, len: int) -> int {
        match self.end {
            Some(e) => clamp(e as int, len),
            None => len,
        }
    }

    /// The index range that the slice selects from an array of `len`
    /// elements, each bound clamped to `0..=len` on its own. A range whose
    /// start is not below its end selects nothing.
    pub fn to_range(&self, len: usize) -> (r: std::ops::Range<usize>)
        ensures
            r.start == self.lower(len as int),
            r.end == self.upper(len as int),
            r.start <= len,
            r.end <= len,
    {
        let start: usize = match self.start {
            Some(s) => {
                if s < 0 {
                    0
                } else if s as u64 > len as u64 {
                    len
                } else {
                    s as usize
                }
            },
            None => 0,
        };
        let end: usize = match self.end {
            Some(e) => {
                if e < 0 {
                    0
                } else if e as u64 > len as u64 {
                    len
                } else {
                    e as usize
                }
            },
            None => len,
        };
        std::ops::Range { start: start, end: end }
    }
}

/// An argument of an action call, evaluated against the current value.
#[derive(Debug, PartialEq, Eq)]
pub enum ActionExpr {
    /// An integer literal.
    Integer(i64),
    /// A string literal.
    String(String),
    /// A loop variable such as `_k` or `_v`; unbound ones are null.
    Variable(String),
    /// A field of the current value, which must be an object.
    ObjectIndex(String),
    /// An element of the current value, which must be an array.
    ArrayIndex(i64),
}

/// One call of a builtin function.
#[derive(Debug, PartialEq, Eq)]
pub struct Function {
    pub name: String,
    pub args: Vec<ActionExpr>,
}

/// One step of a selector chain.
#[derive(Debug, PartialEq, Eq)]
pub enum Jop {
    ArraySlice(ArraySlice),
    ArrayIndex(i64),
    Object(ObjectSelector),
}

/// Whether the actions run once on the selected value, or once for each
/// element or entry of it.
#[derive(Debug, Clone, Copy, PartialEq, Eq)]
pub enum ActionMode {
    ForSelf,
    ForEach,
}

/// A parsed program: a selector chain, an iteration mode and the actions.
#[derive(Debug, PartialEq, Eq)]
pub struct Script {
    pub selector: Vec<Jop>,
    pub mode: ActionMode,
    pub action: Vec<Function>,
}

/// The mathematical value of a selector step.
pub enum JopView {
    Slice(ArraySlice),
    Index(i64),
    Wildcard,
    Key(Seq<char>),
}

/// The mathematical value of an argument expression.
pub enum ExprView {
    Integer(i64),
    Str(Seq<char>),
    Variable(Seq<char>),
    Field(Seq<char>),
    Element(i64),
}

/// The mathematical value of an action call.
pub struct CallView {
    pub name: Seq<char>,
    pub args: Seq<ExprView>,
}

/// The mathematical value of a script.
pub struct ScriptView {
    pub selector: Seq<JopView>,
    pub mode: ActionMode,
    pub action: Seq<CallView>,
}

impl View for Jop {
    type V = JopView;

    open spec fn view(&self) -> JopView {
        match self {
            Jop::ArraySlice(s) => JopView::Slice(*s),
            Jop::ArrayIndex(i) => JopView::Index(*i),
            Jop::Object(ObjectSelector::Wildcard) => JopView::Wildcard,
            Jop::Object(ObjectSelector::Exact(k)) => JopView::Key(k@),
        }
    }
}

impl View for ActionExpr {
    type V = ExprView;

    open spec fn view(&self) -> ExprView {
        match self {
            ActionExpr::Integer(i) => ExprView::Integer(*i),
            ActionExpr::String(s) => ExprView::Str(s@),
            ActionExpr::Variable(n) => ExprView::Variable(n@),
            ActionExpr::ObjectIndex(n) => ExprView::Field(n@),
            ActionExpr::ArrayIndex(i) => ExprView::Element(*i),
        }
    }
}

impl View for Function {
    type V = CallView;

    open spec fn view(&self) -> CallView {
        CallView { name: self.name@, args: self.args@.map_values(|e: ActionExpr| e@) }
    }
}

impl View for Script {
    type V = ScriptView;

    open spec fn view(&self) -> ScriptView {
        ScriptView {
            selector: self.selector@.map_values(|j: Jop| j@),
            mode: self.mode,
            action: self.action@.map_values(|f: Function| f@),
        }
    }
}

/// A program text that does not follow the grammar; `offset` is the index,
/// in characters, at which it stops following it.
#[derive(Debug, Clone, Copy, PartialEq, Eq)]
pub struct ParseError {
    pub offset: usize,
}

/// A selector step that cannot be applied to the value at hand.
#[derive(Debug, PartialEq, Eq)]
pub enum QueryError {
    KeyNotFound(String),
    IndexOutOfRange(i64),
    TypeMismatch,
}

/// An argument expression that cannot be evaluated.
#[derive(Debug, PartialEq, Eq)]
pub enum EvalError {
    NotAnObject,
    FieldMissing(String),
    NotAnArray,
    IndexOutOfRange(i64),
}

/// An action that cannot be run.
#[derive(Debug, PartialEq, Eq)]
pub enum ActionError {
    FunctionNotFound(String),
}

/// Any failure of a run, after the program was parsed.
#[derive(Debug, PartialEq, Eq)]
pub enum JkError {
    Query(QueryError),
    Eval(EvalError),
    Action(ActionError),
}

pub enum QueryErrorView {
    KeyNotFound(Seq<char>),
    IndexOutOfRange(i64),
    TypeMismatch,
}

pub enum EvalErrorView {
    NotAnObject,
    FieldMissing(Seq<char>),
    NotAnArray,
    IndexOutOfRange(i64),
}

/// The mathematical value of a run's failure.
pub enum JkErrorView {
    Query(QueryErrorView),
    Eval(EvalErrorView),
    FunctionNotFound(Seq<char>),
}

impl View for QueryError {
    type V = QueryErrorView;

    open spec fn view(&self) -> QueryErrorView {
        match self {
            QueryError::KeyNotFound(k) => QueryErrorView::KeyNotFound(k@),
            QueryError::IndexOutOfRange(i) => QueryErrorView::IndexOutOfRange(*i),
            QueryError::TypeMismatch => QueryErrorView::TypeMismatch,
        }
    }
}

impl View for EvalError {
    type V = EvalErrorView;

    open spec fn view(&self) -> EvalErrorView {
        match self {
            EvalError::NotAnObject => EvalErrorView::NotAnObject,
            EvalError::FieldMissing(n) => EvalErrorView::FieldMissing(n@),
            EvalError::NotAnArray => EvalErrorView::NotAnArray,
            EvalError::IndexOutOfRange(i) => EvalErrorView::IndexOutOfRange(*i),
        }
    }
}

impl View for JkError {
    type V = JkErrorView;

    open spec fn view(&self) -> JkErrorView {
        match self {
            JkError::Query(e) => JkErrorView::Query(e@),
            JkError::Eval(e) => JkErrorView::Eval(e@),
            JkError::Action(ActionError::FunctionNotFound(n)) => JkErrorView::FunctionNotFound(n@),
        }
    }
}

} // verus!

//! The grammar of the language.
//!
//! A program is a list of sections. `world` declares what there is: entities with
//! their initial state, pools, channels, fields, shapes and parameters. `systems`
//! lists the rules that run each step, and `funcs` pure functions.

use crate::peg::Peg;
use vstd::prelude::*;

verus! {

/// The rules of the grammar.
#[derive(Clone, Copy, Debug, PartialEq, Eq, Structural)]
pub enum Rule {
    Program,
    WorldSection,
    GravityStmt,
    TitleStmt,
    ChanStmt,
    ShapeStmt,
    ShapePart,
    AtOpt,
    DepthOpt,
    ScaleOpt,
    FacesOpt,
    FacesList,
    Face,
    FieldStmt,
    FieldParam,
    ParamsStmt,
    EntityStmt,
    PoolStmt,
    EntityField,
    PositionField,
    VelocityField,
    StateField,
    MassField,
    DynamicField,
    NbodyField,
    ParentField,
    RestitutionField,
    FrictionField,
    BoxField,
    SphereField,
    HullField,
    CameraField,
    ColorField,
    ShapeField,
    SizeField,
    OpacityField,
    GlowField,
    LabelField,
    HullList,
    Vec3,
    VecN,
    NamedState,
    StateItem,
    Value,
    Number,
    Count,
    Quoted,
    Hex,
    Flag,
    UnitExpr,
    Ident,
    SystemsSection,
    SendSystem,
    RecvSystem,
    GenericSystem,
    Param,
    Rhs,
    Operator,
    SlotLhs,
    LetStmt,
    RepeatStmt,
    RepeatGate,
    GateWord,
    ForStmt,
    Range,
    LoopItem,
    BreakStmt,
    BreakWord,
    ContinueStmt,
    ContinueWord,
    IfWord,
    FuncsSection,
    Func,
    ParamList,
    FuncStmts,
    ReturnWord,
    Expr,
    LogicalOr,
    OrOp,
    LogicalAnd,
    AndOp,
    Comparison,
    RelationOp,
    Additive,
    AddOp,
    Term,
    MulOp,
    Factor,
    Unary,
    NotOp,
    Slot,
    SlotDyn,
    Call,
    Callee,
    EntityRef,
    PropPath,
    Segment,
    Time,
    Constant,
    Namespaced,
    StateName,
}

/// What a rule leaves in the syntax tree.
#[derive(Clone, Copy, Debug, PartialEq, Eq, Structural)]
pub enum Shape {
    /// No node of its own, only what is inside it.
    Silent,
    /// A node without children.
    Leaf,
    /// A node with what is inside it as its children.
    Branch,
}

impl Peg {
    pub open spec fn spec_and(self, b: Peg) -> Peg {
        Peg::Cat(Box::new(self), Box::new(b))
    }

    /// One after the other, with blanks allowed in between.
    #[verifier::when_used_as_spec(spec_and)]
    pub fn and(self, b: Peg) -> (p: Peg)
        ensures
            p == self.spec_and(b),
    {
        Peg::Cat(Box::new(self), Box::new(b))
    }

    pub open spec fn spec_glue(self, b: Peg) -> Peg {
        Peg::Glue(Box::new(self), Box::new(b))
    }

    /// One directly after the other.
    #[verifier::when_used_as_spec(spec_glue)]
    pub fn glue(self, b: Peg) -> (p: Peg)
        ensures
            p == self.spec_glue(b),
    {
        Peg::Glue(Box::new(self), Box::new(b))
    }

    pub open spec fn spec_or(self, b: Peg) -> Peg {
        Peg::Alt(Box::new(self), Box::new(b))
    }

    /// The first alternative that matches.
    #[verifier::when_used_as_spec(spec_or)]
    pub fn or(self, b: Peg) -> (p: Peg)
        ensures
            p == self.spec_or(b),
    {
        Peg::Alt(Box::new(self), Box::new(b))
    }
}

pub open spec fn spec_lit(t: &'static str) -> Peg {
    Peg::Lit(t)
}

/// A fixed text.
#[verifier::when_used_as_spec(spec_lit)]
pub fn lit(t: &'static str) -> (p: Peg)
    ensures
        p == spec_lit(t),
{
    Peg::Lit(t)
}

pub open spec fn spec_range(a: char, b: char) -> Peg {
    Peg::Range(a, b)
}

/// One character from a range.
#[verifier::when_used_as_spec(spec_range)]
pub fn range(a: char, b: char) -> (p: Peg)
    ensures
        p == spec_range(a, b),
{
    Peg::Range(a, b)
}

pub open spec fn spec_any() -> Peg {
    Peg::Any
}

/// Any one character.
#[verifier::when_used_as_spec(spec_any)]
pub fn any() -> (p: Peg)
    ensures
        p == spec_any(),
{
    Peg::Any
}

pub open spec fn spec_end() -> Peg {
    Peg::End
}

/// The end of the input.
#[verifier::when_used_as_spec(spec_end)]
pub fn end() -> (p: Peg)
    ensures
        p == spec_end(),
{
    Peg::End
}

pub open spec fn spec_opt(a: Peg) -> Peg {
    Peg::Opt(Box::new(a))
}

/// Once or not at all.
#[verifier::when_used_as_spec(spec_opt)]
pub fn opt(a: Peg) -> (p: Peg)
    ensures
        p == spec_opt(a),
{
    Peg::Opt(Box::new(a))
}

pub open spec fn spec_many(a: Peg) -> Peg {
    Peg::Many(Box::new(a))
}

/// As often as possible, with blanks allowed in between.
#[verifier::when_used_as_spec(spec_many)]
pub fn many(a: Peg) -> (p: Peg)
    ensures
        p == spec_many(a),
{
    Peg::Many(Box::new(a))
}

pub open spec fn spec_run_of(a: Peg) -> Peg {
    Peg::Run(Box::new(a))
}

/// As often as possible, without blanks.
#[verifier::when_used_as_spec(spec_run_of)]
pub fn run_of(a: Peg) -> (p: Peg)
    ensures
        p == spec_run_of(a),
{
    Peg::Run(Box::new(a))
}

pub open spec fn spec_not(a: Peg) -> Peg {
    Peg::Not(Box::new(a))
}

/// Nothing, where the inner expression does not match.
#[verifier::when_used_as_spec(spec_not)]
pub fn not(a: Peg) -> (p: Peg)
    ensures
        p == spec_not(a),
{
    Peg::Not(Box::new(a))
}

pub open spec fn spec_rule(name: Rule) -> Peg {
    Peg::Use(name)
}

/// A rule.
#[verifier::when_used_as_spec(spec_rule)]
pub fn rule(name: Rule) -> (p: Peg)
    ensures
        p == spec_rule(name),
{
    Peg::Use(name)
}

pub open spec fn spec_digit() -> Peg {
    range('0', '9')
}

/// A decimal digit.
#[verifier::when_used_as_spec(spec_digit)]
pub fn digit() -> (p: Peg)
    ensures
        p == spec_digit(),
{
    range('0', '9')
}

pub open spec fn spec_digits() -> Peg {
    digit().glue(run_of(digit()))
}

/// A number of decimal digits, at least one.
#[verifier::when_used_as_spec(spec_digits)]
pub fn digits() -> (p: Peg)
    ensures
        p == spec_digits(),
{
    digit().glue(run_of(digit()))
}

pub open spec fn spec_hex_digit() -> Peg {
    digit().or(range('a', 'f')).or(range('A', 'F'))
}

/// A hexadecimal digit.
#[verifier::when_used_as_spec(spec_hex_digit)]
pub fn hex_digit() -> (p: Peg)
    ensures
        p == spec_hex_digit(),
{
    digit().or(range('a', 'f')).or(range('A', 'F'))
}

pub open spec fn spec_name_start() -> Peg {
    range('a', 'z').or(range('A', 'Z')).or(lit("_"))
}

/// The first character of a name.
#[verifier::when_used_as_spec(spec_name_start)]
pub fn name_start() -> (p: Peg)
    ensures
        p == spec_name_start(),
{
    range('a', 'z').or(range('A', 'Z')).or(lit("_"))
}

pub open spec fn spec_name_char() -> Peg {
    name_start().or(digit())
}

/// A further character of a name.
#[verifier::when_used_as_spec(spec_name_char)]
pub fn name_char() -> (p: Peg)
    ensures
        p == spec_name_char(),
{
    name_start().or(digit())
}

pub open spec fn spec_identifier() -> Peg {
    name_start().glue(run_of(name_char()))
}

/// A name.
#[verifier::when_used_as_spec(spec_identifier)]
pub fn identifier() -> (p: Peg)
    ensures
        p == spec_identifier(),
{
    name_start().glue(run_of(name_char()))
}

pub open spec fn spec_word(t: &'static str) -> Peg {
    lit(t).glue(not(name_char()))
}

/// A keyword: not merely the beginning of a longer name.
#[verifier::when_used_as_spec(spec_word)]
pub fn word(t: &'static str) -> (p: Peg)
    ensures
        p == spec_word(t),
{
    lit(t).glue(not(name_char()))
}

pub open spec fn spec_assign(a: Peg, b: Peg) -> Peg {
    a.and(lit("=")).and(b)
}

/// Two parts with an equals sign between them.
#[verifier::when_used_as_spec(spec_assign)]
pub fn assign(a: Peg, b: Peg) -> (p: Peg)
    ensures
        p == spec_assign(a, b),
{
    a.and(lit("=")).and(b)
}

pub open spec fn spec_block(head: Peg, item: Peg) -> Peg {
    head.and(lit("{")).and(many(item.and(opt(lit(";"))))).and(lit("}"))
}

/// A head and items in braces, each with an optional semicolon.
#[verifier::when_used_as_spec(spec_block)]
pub fn block(head: Peg, item: Peg) -> (p: Peg)
    ensures
        p == spec_block(head, item),
{
    head.and(lit("{")).and(many(item.and(opt(lit(";"))))).and(lit("}"))
}

pub open spec fn spec_listed(item: Rule) -> Peg {
    rule(item).and(many(lit(",").and(rule(item))))
}

/// Items with commas between them, at least one.
#[verifier::when_used_as_spec(spec_listed)]
pub fn listed(item: Rule) -> (p: Peg)
    ensures
        p == spec_listed(item),
{
    rule(item).and(many(lit(",").and(rule(item))))
}

pub open spec fn spec_bracketed(open: &'static str, item: Rule, close: &'static str) -> Peg {
    lit(open).and(listed(item)).and(lit(close))
}

/// A list of items in brackets.
#[verifier::when_used_as_spec(spec_bracketed)]
pub fn bracketed(open: &'static str, item: Rule, close: &'static str) -> (p: Peg)
    ensures
        p == spec_bracketed(open, item, close),
{
    lit(open).and(listed(item)).and(lit(close))
}

/// What each rule matches.
pub open spec fn body(name: Rule) -> Peg {
    match name {
        Rule::Program => lit("")
            .and(
                many(
                    rule(Rule::WorldSection)
                        .or(rule(Rule::SystemsSection))
                        .or(rule(Rule::FuncsSection)),
                ),
            )
            .and(end()),
        Rule::WorldSection => block(
            word("world"),
            rule(Rule::GravityStmt)
                .or(rule(Rule::TitleStmt))
                .or(rule(Rule::ChanStmt))
                .or(rule(Rule::ShapeStmt))
                .or(rule(Rule::FieldStmt))
                .or(rule(Rule::ParamsStmt))
                .or(rule(Rule::EntityStmt))
                .or(rule(Rule::PoolStmt)),
        ),
        Rule::GravityStmt => assign(word("gravity"), rule(Rule::Vec3)),
        Rule::TitleStmt => assign(word("title"), rule(Rule::Quoted)),
        Rule::ChanStmt => block(word("chan").and(rule(Rule::Ident)), assign(word("value"), rule(Rule::Value))),
        Rule::ShapeStmt => block(word("shape").and(rule(Rule::Ident)), rule(Rule::ShapePart)),
        Rule::ShapePart => assign(
            word("part").and(rule(Rule::Ident)),
            rule(Rule::Quoted)
                .or(rule(Rule::HullList))
                .or(rule(Rule::Vec3))
                .or(rule(Rule::Value)),
        )
            .and(
                many(
                    rule(Rule::AtOpt)
                        .or(rule(Rule::DepthOpt))
                        .or(rule(Rule::ScaleOpt))
                        .or(rule(Rule::FacesOpt)),
                ),
            ),
        Rule::AtOpt => word("at").and(rule(Rule::Vec3)),
        Rule::DepthOpt => word("depth").and(rule(Rule::Value)),
        Rule::ScaleOpt => word("scale").and(rule(Rule::Value)),
        Rule::FacesOpt => assign(word("faces"), rule(Rule::FacesList)),
        Rule::FacesList => bracketed("[", Rule::Face, "]"),
        Rule::Face => lit("[").glue(run_of(not(lit("]")).glue(any()))).glue(lit("]")),
        Rule::FieldStmt => block(word("field").and(rule(Rule::Ident)), rule(Rule::FieldParam)),
        Rule::FieldParam => assign(rule(Rule::Ident), rule(Rule::Expr)),
        Rule::ParamsStmt => block(
            word("params"),
            assign(rule(Rule::Ident), rule(Rule::Value)).and(opt(rule(Rule::UnitExpr))),
        ),
        Rule::EntityStmt => block(word("entity").and(rule(Rule::Ident)), rule(Rule::EntityField)),
        Rule::PoolStmt => block(
            word("pool")
                .and(rule(Rule::Ident))
                .and(lit("["))
                .and(rule(Rule::Count))
                .and(lit("]")),
            rule(Rule::EntityField),
        ),
        Rule::EntityField => rule(Rule::PositionField)
            .or(rule(Rule::VelocityField))
            .or(rule(Rule::StateField))
            .or(rule(Rule::MassField))
            .or(rule(Rule::DynamicField))
            .or(rule(Rule::NbodyField))
            .or(rule(Rule::ParentField))
            .or(rule(Rule::RestitutionField))
            .or(rule(Rule::FrictionField))
            .or(rule(Rule::BoxField))
            .or(rule(Rule::SphereField))
            .or(rule(Rule::HullField))
            .or(rule(Rule::CameraField))
            .or(rule(Rule::ColorField))
            .or(rule(Rule::ShapeField))
            .or(rule(Rule::SizeField))
            .or(rule(Rule::OpacityField))
            .or(rule(Rule::GlowField))
            .or(rule(Rule::LabelField)),
        Rule::PositionField => assign(word("position"), rule(Rule::Vec3)),
        Rule::VelocityField => assign(word("velocity"), rule(Rule::Vec3)),
        Rule::StateField => assign(word("state"), rule(Rule::VecN).or(rule(Rule::NamedState))),
        Rule::MassField => assign(word("mass"), rule(Rule::Value)),
        Rule::DynamicField => assign(word("dynamic"), rule(Rule::Flag)),
        Rule::NbodyField => assign(word("nbody"), rule(Rule::Flag)),
        Rule::ParentField => assign(word("parent"), rule(Rule::Ident)),
        Rule::RestitutionField => assign(word("restitution"), rule(Rule::Value)),
        Rule::FrictionField => assign(word("friction"), rule(Rule::Value)),
        Rule::BoxField => assign(word("box"), rule(Rule::Vec3)),
        Rule::SphereField => assign(word("sphere"), rule(Rule::Value)),
        Rule::HullField => assign(word("hull"), rule(Rule::HullList)),
        Rule::CameraField => assign(word("camera"), rule(Rule::Flag)),
        Rule::ColorField => assign(word("color"), rule(Rule::Hex)),
        Rule::ShapeField => assign(word("shape"), rule(Rule::Ident)),
        Rule::SizeField => assign(word("size"), rule(Rule::Vec3).or(rule(Rule::Value))),
        Rule::OpacityField => assign(word("opacity"), rule(Rule::Value)),
        Rule::GlowField => assign(word("glow"), rule(Rule::Value)),
        Rule::LabelField => assign(word("label"), rule(Rule::Flag)),
        Rule::HullList => bracketed("[", Rule::Vec3, "]"),
        Rule::Vec3 => lit("(")
            .and(rule(Rule::Value))
            .and(lit(","))
            .and(rule(Rule::Value))
            .and(lit(","))
            .and(rule(Rule::Value))
            .and(lit(")")),
        Rule::VecN => bracketed("(", Rule::Value, ")"),
        Rule::NamedState => bracketed("(", Rule::StateItem, ")"),
        Rule::StateItem => lit("vec").glue(digits()).and(rule(Rule::Ident))
            .or(
                assign(rule(Rule::Ident), rule(Rule::Value)).or(rule(Rule::Value))
                    .and(opt(rule(Rule::UnitExpr))),
            ),
        Rule::Value => rule(Rule::Number).and(opt(lit("/").and(rule(Rule::Number)))),
        Rule::Number => opt(lit("-"))
            .glue(digits())
            .glue(opt(lit(".").glue(digits())))
            .glue(opt(lit("e").or(lit("E")).glue(opt(lit("+").or(lit("-")))).glue(digits()))),
        Rule::Count => digits(),
        Rule::Quoted => lit("\"").glue(run_of(not(lit("\"")).glue(any()))).glue(lit("\"")),
        Rule::Hex => lit("0x").glue(hex_digit()).glue(run_of(hex_digit())),
        Rule::Flag => word("true").or(word("false")),
        Rule::UnitExpr => lit("[").glue(run_of(not(lit("]")).glue(any()))).glue(lit("]")),
        Rule::Ident => identifier(),
        Rule::SystemsSection => block(
            word("systems"),
            rule(Rule::SendSystem).or(rule(Rule::RecvSystem)).or(rule(Rule::GenericSystem)),
        ),
        Rule::SendSystem => block(word("send"), rule(Rule::Param)),
        Rule::RecvSystem => block(word("recv"), rule(Rule::Param)),
        Rule::GenericSystem => block(rule(Rule::Ident), rule(Rule::Param)),
        Rule::Param => rule(Rule::LetStmt)
            .or(rule(Rule::RepeatStmt))
            .or(rule(Rule::ForStmt))
            .or(assign(rule(Rule::SlotLhs), rule(Rule::Rhs)))
            .or(rule(Rule::Call))
            .or(assign(rule(Rule::Ident), rule(Rule::Rhs)).and(opt(rule(Rule::UnitExpr)))),
        Rule::Rhs => rule(Rule::VecN).and(not(rule(Rule::Operator))).or(rule(Rule::Expr)),
        Rule::Operator => rule(Rule::AddOp)
            .or(rule(Rule::MulOp))
            .or(rule(Rule::RelationOp))
            .or(rule(Rule::AndOp))
            .or(rule(Rule::OrOp)),
        Rule::SlotLhs => lit("s[").glue(rule(Rule::Expr).and(lit("]"))),
        Rule::LetStmt => word("let").and(assign(rule(Rule::Ident), rule(Rule::Expr))),
        Rule::RepeatStmt => block(
            word("repeat").and(rule(Rule::Number)).and(opt(rule(Rule::RepeatGate))),
            rule(Rule::LoopItem),
        ),
        Rule::RepeatGate => rule(Rule::GateWord).and(lit("(")).and(rule(Rule::Expr)).and(lit(")")),
        Rule::GateWord => word("until").or(word("while")),
        Rule::ForStmt => block(
            word("for").and(rule(Rule::Ident)).and(word("in")).and(rule(Rule::Range)),
            rule(Rule::LoopItem),
        ),
        Rule::Range => rule(Rule::Number).and(lit("..")).and(rule(Rule::Number)),
        Rule::LoopItem => rule(Rule::LetStmt)
            .or(rule(Rule::RepeatStmt))
            .or(rule(Rule::ForStmt))
            .or(rule(Rule::BreakStmt))
            .or(rule(Rule::ContinueStmt)),
        Rule::BreakStmt => rule(Rule::BreakWord).and(opt(rule(Rule::IfWord).and(rule(Rule::Expr)))),
        Rule::BreakWord => word("break"),
        Rule::ContinueStmt => rule(Rule::ContinueWord).and(opt(rule(Rule::IfWord).and(rule(Rule::Expr)))),
        Rule::ContinueWord => word("continue"),
        Rule::IfWord => word("if"),
        Rule::FuncsSection => block(word("funcs"), rule(Rule::Func)),
        Rule::Func => rule(Rule::Ident)
            .and(lit("("))
            .and(opt(rule(Rule::ParamList)))
            .and(lit(")"))
            .and(lit("{"))
            .and(rule(Rule::FuncStmts).or(rule(Rule::Expr)))
            .and(lit("}")),
        Rule::ParamList => listed(Rule::Ident),
        Rule::FuncStmts => many(
            rule(Rule::LetStmt).or(rule(Rule::RepeatStmt)).or(rule(Rule::ForStmt))
                .and(opt(lit(";"))),
        )
            .and(rule(Rule::ReturnWord))
            .and(rule(Rule::Expr))
            .and(opt(lit(";"))),
        Rule::ReturnWord => word("return"),
        Rule::Expr => rule(Rule::LogicalOr),
        Rule::LogicalOr => rule(Rule::LogicalAnd).and(many(rule(Rule::OrOp).and(rule(Rule::LogicalAnd)))),
        Rule::OrOp => word("or"),
        Rule::LogicalAnd => rule(Rule::Comparison).and(many(rule(Rule::AndOp).and(rule(Rule::Comparison)))),
        Rule::AndOp => word("and"),
        Rule::Comparison => rule(Rule::Additive).and(many(rule(Rule::RelationOp).and(rule(Rule::Additive)))),
        Rule::RelationOp => lit("<=").or(lit(">=")).or(lit("==")).or(lit("!=")).or(lit("<")).or(lit(">")),
        Rule::Additive => rule(Rule::Term).and(many(rule(Rule::AddOp).and(rule(Rule::Term)))),
        Rule::AddOp => lit("+").or(lit("-")),
        Rule::Term => rule(Rule::Factor).and(many(rule(Rule::MulOp).and(rule(Rule::Factor)))),
        Rule::MulOp => lit("*").or(lit("/")).or(lit("%")),
        Rule::Factor => rule(Rule::Unary)
            .or(rule(Rule::Number))
            .or(rule(Rule::SlotDyn))
            .or(rule(Rule::Call))
            .or(rule(Rule::Slot))
            .or(rule(Rule::EntityRef))
            .or(rule(Rule::Time))
            .or(rule(Rule::Constant))
            .or(rule(Rule::Namespaced))
            .or(rule(Rule::StateName))
            .or(lit("(").and(rule(Rule::Expr)).and(lit(")"))),
        Rule::Unary => rule(Rule::NotOp).and(rule(Rule::Factor)).or(lit("-").and(rule(Rule::Factor))),
        Rule::NotOp => word("not"),
        Rule::Slot => lit("s").glue(digits()).glue(not(name_char())),
        Rule::SlotDyn => lit("s[").glue(rule(Rule::Expr).and(lit("]"))),
        Rule::Call => rule(Rule::Callee).and(lit("(")).and(opt(listed(Rule::Expr))).and(lit(")")),
        Rule::Callee => identifier().glue(run_of(lit(".").glue(identifier()))),
        Rule::EntityRef => lit("@")
            .glue(rule(Rule::Ident))
            .glue(lit("."))
            .glue(rule(Rule::Slot).or(rule(Rule::PropPath))),
        Rule::PropPath => rule(Rule::Segment).glue(run_of(lit(".").glue(rule(Rule::Segment)))),
        Rule::Segment => name_char().glue(run_of(name_char())),
        Rule::Time => word("t"),
        Rule::Constant => word("pi").or(word("e")),
        Rule::Namespaced => identifier()
            .glue(lit("."))
            .glue(identifier())
            .glue(run_of(lit(".").glue(identifier()))),
        Rule::StateName => identifier(),
    }
}

/// Builds the expression of a rule.
pub fn rule_body(name: Rule) -> (p: Peg)
    ensures
        p == body(name),
{
    match name {
        Rule::Program => lit("")
            .and(
                many(
                    rule(Rule::WorldSection)
                        .or(rule(Rule::SystemsSection))
                        .or(rule(Rule::FuncsSection)),
                ),
            )
            .and(end()),
        Rule::WorldSection => block(
            word("world"),
            rule(Rule::GravityStmt)
                .or(rule(Rule::TitleStmt))
                .or(rule(Rule::ChanStmt))
                .or(rule(Rule::ShapeStmt))
                .or(rule(Rule::FieldStmt))
                .or(rule(Rule::ParamsStmt))
                .or(rule(Rule::EntityStmt))
                .or(rule(Rule::PoolStmt)),
        ),
        Rule::GravityStmt => assign(word("gravity"), rule(Rule::Vec3)),
        Rule::TitleStmt => assign(word("title"), rule(Rule::Quoted)),
        Rule::ChanStmt => block(word("chan").and(rule(Rule::Ident)), assign(word("value"), rule(Rule::Value))),
        Rule::ShapeStmt => block(word("shape").and(rule(Rule::Ident)), rule(Rule::ShapePart)),
        Rule::ShapePart => assign(
            word("part").and(rule(Rule::Ident)),
            rule(Rule::Quoted)
                .or(rule(Rule::HullList))
                .or(rule(Rule::Vec3))
                .or(rule(Rule::Value)),
        )
            .and(
                many(
                    rule(Rule::AtOpt)
                        .or(rule(Rule::DepthOpt))
                        .or(rule(Rule::ScaleOpt))
                        .or(rule(Rule::FacesOpt)),
                ),
            ),
        Rule::AtOpt => word("at").and(rule(Rule::Vec3)),
        Rule::DepthOpt => word("depth").and(rule(Rule::Value)),
        Rule::ScaleOpt => word("scale").and(rule(Rule::Value)),
        Rule::FacesOpt => assign(word("faces"), rule(Rule::FacesList)),
        Rule::FacesList => bracketed("[", Rule::Face, "]"),
        Rule::Face => lit("[").glue(run_of(not(lit("]")).glue(any()))).glue(lit("]")),
        Rule::FieldStmt => block(word("field").and(rule(Rule::Ident)), rule(Rule::FieldParam)),
        Rule::FieldParam => assign(rule(Rule::Ident), rule(Rule::Expr)),
        Rule::ParamsStmt => block(
            word("params"),
            assign(rule(Rule::Ident), rule(Rule::Value)).and(opt(rule(Rule::UnitExpr))),
        ),
        Rule::EntityStmt => block(word("entity").and(rule(Rule::Ident)), rule(Rule::EntityField)),
        Rule::PoolStmt => block(
            word("pool")
                .and(rule(Rule::Ident))
                .and(lit("["))
                .and(rule(Rule::Count))
                .and(lit("]")),
            rule(Rule::EntityField),
        ),
        Rule::EntityField => rule(Rule::PositionField)
            .or(rule(Rule::VelocityField))
            .or(rule(Rule::StateField))
            .or(rule(Rule::MassField))
            .or(rule(Rule::DynamicField))
            .or(rule(Rule::NbodyField))
            .or(rule(Rule::ParentField))
            .or(rule(Rule::RestitutionField))
            .or(rule(Rule::FrictionField))
            .or(rule(Rule::BoxField))
            .or(rule(Rule::SphereField))
            .or(rule(Rule::HullField))
            .or(rule(Rule::CameraField))
            .or(rule(Rule::ColorField))
            .or(rule(Rule::ShapeField))
            .or(rule(Rule::SizeField))
            .or(rule(Rule::OpacityField))
            .or(rule(Rule::GlowField))
            .or(rule(Rule::LabelField)),
        Rule::PositionField => assign(word("position"), rule(Rule::Vec3)),
        Rule::VelocityField => assign(word("velocity"), rule(Rule::Vec3)),
        Rule::StateField => assign(word("state"), rule(Rule::VecN).or(rule(Rule::NamedState))),
        Rule::MassField => assign(word("mass"), rule(Rule::Value)),
        Rule::DynamicField => assign(word("dynamic"), rule(Rule::Flag)),
        Rule::NbodyField => assign(word("nbody"), rule(Rule::Flag)),
        Rule::ParentField => assign(word("parent"), rule(Rule::Ident)),
        Rule::RestitutionField => assign(word("restitution"), rule(Rule::Value)),
        Rule::FrictionField => assign(word("friction"), rule(Rule::Value)),
        Rule::BoxField => assign(word("box"), rule(Rule::Vec3)),
        Rule::SphereField => assign(word("sphere"), rule(Rule::Value)),
        Rule::HullField => assign(word("hull"), rule(Rule::HullList)),
        Rule::CameraField => assign(word("camera"), rule(Rule::Flag)),
        Rule::ColorField => assign(word("color"), rule(Rule::Hex)),
        Rule::ShapeField => assign(word("shape"), rule(Rule::Ident)),
        Rule::SizeField => assign(word("size"), rule(Rule::Vec3).or(rule(Rule::Value))),
        Rule::OpacityField => assign(word("opacity"), rule(Rule::Value)),
        Rule::GlowField => assign(word("glow"), rule(Rule::Value)),
        Rule::LabelField => assign(word("label"), rule(Rule::Flag)),
        Rule::HullList => bracketed("[", Rule::Vec3, "]"),
        Rule::Vec3 => lit("(")
            .and(rule(Rule::Value))
            .and(lit(","))
            .and(rule(Rule::Value))
            .and(lit(","))
            .and(rule(Rule::Value))
            .and(lit(")")),
        Rule::VecN => bracketed("(", Rule::Value, ")"),
        Rule::NamedState => bracketed("(", Rule::StateItem, ")"),
        Rule::StateItem => lit("vec").glue(digits()).and(rule(Rule::Ident))
            .or(
                assign(rule(Rule::Ident), rule(Rule::Value)).or(rule(Rule::Value))
                    .and(opt(rule(Rule::UnitExpr))),
            ),
        Rule::Value => rule(Rule::Number).and(opt(lit("/").and(rule(Rule::Number)))),
        Rule::Number => opt(lit("-"))
            .glue(digits())
            .glue(opt(lit(".").glue(digits())))
            .glue(opt(lit("e").or(lit("E")).glue(opt(lit("+").or(lit("-")))).glue(digits()))),
        Rule::Count => digits(),
        Rule::Quoted => lit("\"").glue(run_of(not(lit("\"")).glue(any()))).glue(lit("\"")),
        Rule::Hex => lit("0x").glue(hex_digit()).glue(run_of(hex_digit())),
        Rule::Flag => word("true").or(word("false")),
        Rule::UnitExpr => lit("[").glue(run_of(not(lit("]")).glue(any()))).glue(lit("]")),
        Rule::Ident => identifier(),
        Rule::SystemsSection => block(
            word("systems"),
            rule(Rule::SendSystem).or(rule(Rule::RecvSystem)).or(rule(Rule::GenericSystem)),
        ),
        Rule::SendSystem => block(word("send"), rule(Rule::Param)),
        Rule::RecvSystem => block(word("recv"), rule(Rule::Param)),
        Rule::GenericSystem => block(rule(Rule::Ident), rule(Rule::Param)),
        Rule::Param => rule(Rule::LetStmt)
            .or(rule(Rule::RepeatStmt))
            .or(rule(Rule::ForStmt))
            .or(assign(rule(Rule::SlotLhs), rule(Rule::Rhs)))
            .or(rule(Rule::Call))
            .or(assign(rule(Rule::Ident), rule(Rule::Rhs)).and(opt(rule(Rule::UnitExpr)))),
        Rule::Rhs => rule(Rule::VecN).and(not(rule(Rule::Operator))).or(rule(Rule::Expr)),
        Rule::Operator => rule(Rule::AddOp)
            .or(rule(Rule::MulOp))
            .or(rule(Rule::RelationOp))
            .or(rule(Rule::AndOp))
            .or(rule(Rule::OrOp)),
        Rule::SlotLhs => lit("s[").glue(rule(Rule::Expr).and(lit("]"))),
        Rule::LetStmt => word("let").and(assign(rule(Rule::Ident), rule(Rule::Expr))),
        Rule::RepeatStmt => block(
            word("repeat").and(rule(Rule::Number)).and(opt(rule(Rule::RepeatGate))),
            rule(Rule::LoopItem),
        ),
        Rule::RepeatGate => rule(Rule::GateWord).and(lit("(")).and(rule(Rule::Expr)).and(lit(")")),
        Rule::GateWord => word("until").or(word("while")),
        Rule::ForStmt => block(
            word("for").and(rule(Rule::Ident)).and(word("in")).and(rule(Rule::Range)),
            rule(Rule::LoopItem),
        ),
        Rule::Range => rule(Rule::Number).and(lit("..")).and(rule(Rule::Number)),
        Rule::LoopItem => rule(Rule::LetStmt)
            .or(rule(Rule::RepeatStmt))
            .or(rule(Rule::ForStmt))
            .or(rule(Rule::BreakStmt))
            .or(rule(Rule::ContinueStmt)),
        Rule::BreakStmt => rule(Rule::BreakWord).and(opt(rule(Rule::IfWord).and(rule(Rule::Expr)))),
        Rule::BreakWord => word("break"),
        Rule::ContinueStmt => rule(Rule::ContinueWord).and(opt(rule(Rule::IfWord).and(rule(Rule::Expr)))),
        Rule::ContinueWord => word("continue"),
        Rule::IfWord => word("if"),
        Rule::FuncsSection => block(word("funcs"), rule(Rule::Func)),
        Rule::Func => rule(Rule::Ident)
            .and(lit("("))
            .and(opt(rule(Rule::ParamList)))
            .and(lit(")"))
            .and(lit("{"))
            .and(rule(Rule::FuncStmts).or(rule(Rule::Expr)))
            .and(lit("}")),
        Rule::ParamList => listed(Rule::Ident),
        Rule::FuncStmts => many(
            rule(Rule::LetStmt).or(rule(Rule::RepeatStmt)).or(rule(Rule::ForStmt))
                .and(opt(lit(";"))),
        )
            .and(rule(Rule::ReturnWord))
            .and(rule(Rule::Expr))
            .and(opt(lit(";"))),
        Rule::ReturnWord => word("return"),
        Rule::Expr => rule(Rule::LogicalOr),
        Rule::LogicalOr => rule(Rule::LogicalAnd).and(many(rule(Rule::OrOp).and(rule(Rule::LogicalAnd)))),
        Rule::OrOp => word("or"),
        Rule::LogicalAnd => rule(Rule::Comparison).and(many(rule(Rule::AndOp).and(rule(Rule::Comparison)))),
        Rule::AndOp => word("and"),
        Rule::Comparison => rule(Rule::Additive).and(many(rule(Rule::RelationOp).and(rule(Rule::Additive)))),
        Rule::RelationOp => lit("<=").or(lit(">=")).or(lit("==")).or(lit("!=")).or(lit("<")).or(lit(">")),
        Rule::Additive => rule(Rule::Term).and(many(rule(Rule::AddOp).and(rule(Rule::Term)))),
        Rule::AddOp => lit("+").or(lit("-")),
        Rule::Term => rule(Rule::Factor).and(many(rule(Rule::MulOp).and(rule(Rule::Factor)))),
        Rule::MulOp => lit("*").or(lit("/")).or(lit("%")),
        Rule::Factor => rule(Rule::Unary)
            .or(rule(Rule::Number))
            .or(rule(Rule::SlotDyn))
            .or(rule(Rule::Call))
            .or(rule(Rule::Slot))
            .or(rule(Rule::EntityRef))
            .or(rule(Rule::Time))
            .or(rule(Rule::Constant))
            .or(rule(Rule::Namespaced))
            .or(rule(Rule::StateName))
            .or(lit("(").and(rule(Rule::Expr)).and(lit(")"))),
        Rule::Unary => rule(Rule::NotOp).and(rule(Rule::Factor)).or(lit("-").and(rule(Rule::Factor))),
        Rule::NotOp => word("not"),
        Rule::Slot => lit("s").glue(digits()).glue(not(name_char())),
        Rule::SlotDyn => lit("s[").glue(rule(Rule::Expr).and(lit("]"))),
        Rule::Call => rule(Rule::Callee).and(lit("(")).and(opt(listed(Rule::Expr))).and(lit(")")),
        Rule::Callee => identifier().glue(run_of(lit(".").glue(identifier()))),
        Rule::EntityRef => lit("@")
            .glue(rule(Rule::Ident))
            .glue(lit("."))
            .glue(rule(Rule::Slot).or(rule(Rule::PropPath))),
        Rule::PropPath => rule(Rule::Segment).glue(run_of(lit(".").glue(rule(Rule::Segment)))),
        Rule::Segment => name_char().glue(run_of(name_char())),
        Rule::Time => word("t"),
        Rule::Constant => word("pi").or(word("e")),
        Rule::Namespaced => identifier()
            .glue(lit("."))
            .glue(identifier())
            .glue(run_of(lit(".").glue(identifier()))),
        Rule::StateName => identifier(),
    }
}

/// What each rule leaves in the tree.
pub open spec fn shape(rule: Rule) -> Shape {
    match rule {
        Rule::Program
        | Rule::EntityField
        | Rule::Rhs
        | Rule::Operator => Shape::Silent,
        Rule::Face
        | Rule::Number
        | Rule::Count
        | Rule::Quoted
        | Rule::Hex
        | Rule::Flag
        | Rule::UnitExpr
        | Rule::Ident
        | Rule::SlotLhs
        | Rule::GateWord
        | Rule::BreakWord
        | Rule::ContinueWord
        | Rule::IfWord
        | Rule::ReturnWord
        | Rule::OrOp
        | Rule::AndOp
        | Rule::RelationOp
        | Rule::AddOp
        | Rule::MulOp
        | Rule::NotOp
        | Rule::Slot
        | Rule::Callee
        | Rule::Segment
        | Rule::Time
        | Rule::Constant
        | Rule::Namespaced
        | Rule::StateName => Shape::Leaf,
        _ => Shape::Branch,
    }
}

/// Computes [`shape`].
pub fn shape_of(rule: Rule) -> (r: Shape)
    ensures
        r == shape(rule),
{
    match rule {
        Rule::Program
        | Rule::EntityField
        | Rule::Rhs
        | Rule::Operator => Shape::Silent,
        Rule::Face
        | Rule::Number
        | Rule::Count
        | Rule::Quoted
        | Rule::Hex
        | Rule::Flag
        | Rule::UnitExpr
        | Rule::Ident
        | Rule::SlotLhs
        | Rule::GateWord
        | Rule::BreakWord
        | Rule::ContinueWord
        | Rule::IfWord
        | Rule::ReturnWord
        | Rule::OrOp
        | Rule::AndOp
        | Rule::RelationOp
        | Rule::AddOp
        | Rule::MulOp
        | Rule::NotOp
        | Rule::Slot
        | Rule::Callee
        | Rule::Segment
        | Rule::Time
        | Rule::Constant
        | Rule::Namespaced
        | Rule::StateName => Shape::Leaf,
        _ => Shape::Branch,
    }
}

} // verus!

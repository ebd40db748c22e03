//! Entity declarations out of syntax trees.

use crate::decl::{
    plain_style, slot_names, ColliderDecl, ColliderView, EntityDecl, EntityView, RenderStyle,
    RenderView, Triple,
};
use crate::fault::{invalid, reject, text_view, Fault, FaultView};
use crate::grammar::Rule;
use crate::names::same;
use crate::numbers::{number, quotient, Numbers, NumbersView};
use crate::peg::{lemma_children, trees, Node, Tree};
use crate::text::{
    cut_left, cut_right, dec_text, decimal, decimal_text, dotted, is_digit, parse_decimal, part,
    qualified, strip, strip_left, strip_prefix, strip_right, trim, trimmed,
};
use crate::units::{parse_unit, unit_dim, Dim};
use vstd::prelude::*;
use vstd::string::*;

verus! {

/// The greatest number of state slots of an entity.
pub const MAX_STATE_SLOTS: usize = 16;

/// A number text, zero where it is no number.
pub open spec fn number_or_zero(n: NumbersView, text: Seq<char>) -> u64 {
    match number(n, text) {
        Some(v) => v,
        None => 0,
    }
}

fn read_number(numbers: &Numbers, text: &str) -> (r: u64)
    ensures
        r == number_or_zero(numbers@, text@),
{
    match numbers.get(text) {
        Some(v) => v,
        None => 0,
    }
}

/// The number of a `value` node: a number, or a fraction of two.
pub open spec fn value_of(n: NumbersView, t: Tree) -> u64 {
    let kids = t.children;
    if kids.len() == 2 {
        match quotient(
            n.ratios,
            number_or_zero(n, kids[0].text),
            number_or_zero(n, kids[1].text),
        ) {
            Some(q) => q,
            None => 0,
        }
    } else if kids.len() == 1 {
        number_or_zero(n, kids[0].text)
    } else {
        0
    }
}

/// Reads a `value` node.
pub fn parse_value(numbers: &Numbers, node: &Node) -> (r: u64)
    ensures
        r == value_of(numbers@, node@),
{
    proof {
        lemma_children(*node);
    }
    let kids: &Vec<Node> = &node.children;
    if kids.len() == 2 {
        proof {
            assert(node@.children[0] == kids@[0]@);
            assert(node@.children[1] == kids@[1]@);
        }
        let a: u64 = read_number(numbers, &kids[0].text);
        let b: u64 = read_number(numbers, &kids[1].text);
        match numbers.ratio(a, b) {
            Some(q) => q,
            None => 0,
        }
    } else if kids.len() == 1 {
        proof {
            assert(node@.children[0] == kids@[0]@);
        }
        read_number(numbers, &kids[0].text)
    } else {
        0
    }
}

/// The numbers of a list of `value` nodes.
pub open spec fn values_of(n: NumbersView, kids: Seq<Tree>) -> Seq<u64> {
    kids.map_values(|t: Tree| value_of(n, t))
}

/// Reads a list of `value` nodes.
pub fn parse_values(numbers: &Numbers, kids: &Vec<Node>) -> (r: Vec<u64>)
    ensures
        r@ == values_of(numbers@, trees(kids@)),
{
    let mut r: Vec<u64> = Vec::new();
    let mut i: usize = 0;
    while i < kids.len()
        invariant
            i <= kids.len(),
            r@.len() == i,
            forall|j: int| 0 <= j < i ==> #[trigger] r@[j] == value_of(numbers@, trees(kids@)[j]),
        decreases kids.len() - i,
    {
        proof {
            assert(trees(kids@)[i as int] == kids@[i as int]@);
        }
        r.push(parse_value(numbers, &kids[i]));
        i = i + 1;
    }
    proof {
        assert(r@ =~= values_of(numbers@, trees(kids@)));
    }
    r
}

/// The number of the `i`-th child, zero where there is none.
pub open spec fn component(n: NumbersView, kids: Seq<Tree>, i: int) -> u64 {
    if i < kids.len() {
        value_of(n, kids[i])
    } else {
        0
    }
}

/// The three numbers of a `vec3` node.
pub open spec fn triple_of(n: NumbersView, t: Tree) -> Triple {
    Triple {
        x: component(n, t.children, 0),
        y: component(n, t.children, 1),
        z: component(n, t.children, 2),
    }
}

fn read_component(numbers: &Numbers, kids: &Vec<Node>, i: usize) -> (r: u64)
    ensures
        r == component(numbers@, trees(kids@), i as int),
{
    if i < kids.len() {
        proof {
            assert(trees(kids@)[i as int] == kids@[i as int]@);
        }
        parse_value(numbers, &kids[i])
    } else {
        0
    }
}

/// Reads a `vec3` node.
pub fn parse_vec3(numbers: &Numbers, node: &Node) -> (r: Triple)
    ensures
        r == triple_of(numbers@, node@),
{
    proof {
        lemma_children(*node);
    }
    Triple {
        x: read_component(numbers, &node.children, 0),
        y: read_component(numbers, &node.children, 1),
        z: read_component(numbers, &node.children, 2),
    }
}

/// The triples of a list of `vec3` nodes.
pub open spec fn triples_of(n: NumbersView, kids: Seq<Tree>) -> Seq<Triple> {
    kids.map_values(|t: Tree| triple_of(n, t))
}

/// Reads a list of `vec3` nodes.
pub fn parse_triples(numbers: &Numbers, kids: &Vec<Node>) -> (r: Vec<Triple>)
    ensures
        r@ == triples_of(numbers@, trees(kids@)),
{
    let mut r: Vec<Triple> = Vec::new();
    let mut i: usize = 0;
    while i < kids.len()
        invariant
            i <= kids.len(),
            r@.len() == i,
            forall|j: int| 0 <= j < i ==> #[trigger] r@[j] == triple_of(numbers@, trees(kids@)[j]),
        decreases kids.len() - i,
    {
        proof {
            assert(trees(kids@)[i as int] == kids@[i as int]@);
        }
        r.push(parse_vec3(numbers, &kids[i]));
        i = i + 1;
    }
    proof {
        assert(r@ =~= triples_of(numbers@, trees(kids@)));
    }
    r
}

/// A text without the quotes around it.
pub open spec fn unquoted(text: Seq<char>) -> Seq<char> {
    cut_right(cut_left(text, '"'), '"')
}

/// Removes the quotes around a text.
pub fn unquote(text: &str) -> (r: String)
    ensures
        r@ == unquoted(text@),
{
    strip_right(&strip_left(text, '"'), '"')
}

/// The number of decimal digits at the start of a text.
pub open spec fn digit_run(s: Seq<char>) -> nat
    decreases s.len(),
{
    if s.len() > 0 && is_digit(s[0]) {
        1 + digit_run(s.drop_first())
    } else {
        0
    }
}

fn leading_digits(text: &str) -> (r: usize)
    ensures
        r == digit_run(text@),
        r <= text@.len(),
{
    let chars: Vec<char> = crate::names::chars_of(text);
    let mut i: usize = 0;
    proof {
        assert(text@.skip(0) =~= text@);
    }
    while i < chars.len() && chars[i] >= '0' && chars[i] <= '9'
        invariant
            i <= chars.len(),
            chars@ == text@,
            digit_run(text@) == i + digit_run(text@.skip(i as int)),
        decreases chars.len() - i,
    {
        proof {
            assert(text@.skip(i as int).drop_first() =~= text@.skip(i + 1));
        }
        i = i + 1;
    }
    i
}

/// Named state slots under construction: names, initial values, dimensions.
pub struct SlotsView {
    pub names: Seq<Option<Seq<char>>>,
    pub values: Seq<u64>,
    pub units: Seq<Option<Dim>>,
}

/// The components of a vector of slots, the first `k` of them. Each has the vector's
/// name and its index.
pub open spec fn with_components(s: SlotsView, name: Seq<char>, k: nat) -> SlotsView
    decreases k,
{
    if k == 0 {
        s
    } else {
        let s = with_components(s, name, (k - 1) as nat);
        SlotsView {
            names: s.names.push(Some(qualified(name, dec_text((k - 1) as nat)))),
            values: s.values.push(0),
            units: s.units.push(None),
        }
    }
}

/// The dimension that the node at a place declares, if there is one.
pub open spec fn unit_at(kids: Seq<Tree>, i: int) -> Option<Dim> {
    if i < kids.len() {
        unit_dim(kids[i].text)
    } else {
        None
    }
}

/// The slots with those of one item: `vecN name`, `name = value` or `value`, each
/// number with an optional unit.
pub open spec fn with_item(n: NumbersView, t: Tree, s: SlotsView) -> Result<SlotsView, FaultView> {
    let text = trimmed(t.text);
    match strip(text, "vec"@) {
        Some(rest) => {
            let digits = digit_run(rest);
            match decimal(rest.take(digits as int)) {
                None => Err(invalid(52)),
                Some(count) => if count == 0 || s.names.len() + count > MAX_STATE_SLOTS {
                    Err(invalid(52))
                } else {
                    Ok(with_components(s, trimmed(rest.skip(digits as int)), count as nat))
                },
            }
        },
        None => {
            let kids = t.children;
            if kids.len() == 0 {
                Ok(s)
            } else if kids[0].rule == Rule::Ident {
                Ok(
                    SlotsView {
                        names: s.names.push(Some(kids[0].text)),
                        values: s.values.push(component(n, kids, 1)),
                        units: s.units.push(unit_at(kids, 2)),
                    },
                )
            } else {
                Ok(
                    SlotsView {
                        names: s.names.push(None),
                        values: s.values.push(value_of(n, kids[0])),
                        units: s.units.push(unit_at(kids, 1)),
                    },
                )
            }
        },
    }
}

/// The slots of the first `k` items.
pub open spec fn slots_of(n: NumbersView, items: Seq<Tree>, k: nat) -> Result<SlotsView, FaultView>
    decreases k,
{
    if k == 0 || k > items.len() {
        Ok(SlotsView { names: Seq::empty(), values: Seq::empty(), units: Seq::empty() })
    } else {
        match slots_of(n, items, (k - 1) as nat) {
            Err(f) => Err(f),
            Ok(s) => with_item(n, items[k - 1], s),
        }
    }
}

proof fn lemma_slots_fail(n: NumbersView, items: Seq<Tree>, k: nat, f: FaultView)
    requires
        0 < k <= items.len(),
        slots_of(n, items, k) == Err::<SlotsView, FaultView>(f),
    ensures
        slots_of(n, items, items.len()) == Err::<SlotsView, FaultView>(f),
    decreases items.len() - k,
{
    if k < items.len() {
        lemma_slots_fail(n, items, k + 1, f);
    }
}

struct Slots {
    names: Vec<Option<String>>,
    values: Vec<u64>,
    units: Vec<Option<Dim>>,
}

impl Slots {
    spec fn shown(&self) -> SlotsView {
        SlotsView { names: slot_names(self.names@), values: self.values@, units: self.units@ }
    }
}

fn push_slot_name(names: &mut Vec<Option<String>>, name: Option<String>)
    ensures
        slot_names(final(names)@) == slot_names(old(names)@).push(text_view(name)),
{
    names.push(name);
    proof {
        assert(slot_names(names@) =~= slot_names(old(names)@).push(text_view(name)));
    }
}

fn add_components(slots: &mut Slots, name: &String, count: usize)
    ensures
        final(slots).shown() == with_components(old(slots).shown(), name@, count as nat),
{
    let mut k: usize = 0;
    while k < count
        invariant
            k <= count,
            slots.shown() == with_components(old(slots).shown(), name@, k as nat),
        decreases count - k,
    {
        let index: String = decimal_text(k as u64);
        push_slot_name(&mut slots.names, Some(dotted(name, &index)));
        slots.values.push(0);
        slots.units.push(None);
        k = k + 1;
    }
}

fn read_unit(kids: &Vec<Node>, i: usize) -> (r: Option<Dim>)
    ensures
        r == unit_at(trees(kids@), i as int),
{
    if i < kids.len() {
        proof {
            assert(trees(kids@)[i as int] == kids@[i as int]@);
        }
        parse_unit(&kids[i].text)
    } else {
        None
    }
}

fn add_item(numbers: &Numbers, node: &Node, slots: &mut Slots) -> (r: Option<Fault>)
    ensures
        match r {
            None => with_item(numbers@, node@, old(slots).shown()) == Ok::<SlotsView, FaultView>(
                final(slots).shown(),
            ),
            Some(f) => with_item(numbers@, node@, old(slots).shown()) == Err::<
                SlotsView,
                FaultView,
            >(f@),
        },
{
    let text: String = trim(&node.text);
    proof {
        assert(slot_names(slots.names@).len() == slots.names@.len());
    }
    if let Some(rest) = strip_prefix(&text, "vec") {
        let digits: usize = leading_digits(&rest);
        let head: String = part(&rest, 0, digits);
        let tail: String = part(&rest, digits, rest.as_str().unicode_len());
        proof {
            assert(head@ =~= rest@.take(digits as int));
            assert(tail@ =~= rest@.skip(digits as int));
        }
        let count: usize = match parse_decimal(&head) {
            Some(c) => c,
            None => return Some(reject(52)),
        };
        if count == 0 || count > MAX_STATE_SLOTS || slots.names.len() > MAX_STATE_SLOTS
            || slots.names.len() + count > MAX_STATE_SLOTS {
            return Some(reject(52));
        }
        add_components(slots, &trim(&tail), count);
        return None;
    }
    let kids: &Vec<Node> = &node.children;
    proof {
        lemma_children(*node);
    }
    if kids.len() == 0 {
        return None;
    }
    proof {
        assert(node@.children[0] == kids@[0]@);
    }
    if kids[0].rule == Rule::Ident {
        push_slot_name(&mut slots.names, Some(kids[0].text.clone()));
        slots.values.push(read_component(numbers, kids, 1));
        slots.units.push(read_unit(kids, 2));
    } else {
        push_slot_name(&mut slots.names, None);
        slots.values.push(parse_value(numbers, &kids[0]));
        slots.units.push(read_unit(kids, 1));
    }
    None
}

/// Whether any slot has a dimension.
pub open spec fn any_unit(units: Seq<Option<Dim>>) -> bool {
    exists|i: int| 0 <= i < units.len() && #[trigger] units[i] is Some
}

pub fn has_unit(units: &Vec<Option<Dim>>) -> (r: bool)
    ensures
        r == any_unit(units@),
{
    let mut i: usize = 0;
    while i < units.len()
        invariant
            i <= units.len(),
            forall|j: int| 0 <= j < i ==> !(#[trigger] units@[j] is Some),
        decreases units.len() - i,
    {
        if units[i].is_some() {
            return true;
        }
        i = i + 1;
    }
    false
}

/// An entity with its initial state.
pub open spec fn with_state(n: NumbersView, list: Tree, e: EntityView) -> Result<
    EntityView,
    FaultView,
> {
    match list.rule {
        Rule::VecN => Ok(EntityView { state: Some(values_of(n, list.children)), ..e }),
        Rule::NamedState => match slots_of(n, list.children, list.children.len()) {
            Err(f) => Err(f),
            Ok(s) => Ok(
                EntityView {
                    state: Some(s.values),
                    state_names: Some(s.names),
                    state_units: if any_unit(s.units) {
                        Some(s.units)
                    } else {
                        e.state_units
                    },
                    ..e
                },
            ),
        },
        _ => Ok(e),
    }
}

fn read_slots(numbers: &Numbers, list: &Node) -> (r: Result<Slots, Fault>)
    ensures
        match r {
            Ok(s) => slots_of(numbers@, list@.children, list@.children.len()) == Ok::<
                SlotsView,
                FaultView,
            >(s.shown()),
            Err(f) => slots_of(numbers@, list@.children, list@.children.len()) == Err::<
                SlotsView,
                FaultView,
            >(f@),
        },
{
    let mut slots: Slots = Slots { names: Vec::new(), values: Vec::new(), units: Vec::new() };
    proof {
        lemma_children(*list);
        assert(slots.shown().names =~= Seq::<Option<Seq<char>>>::empty());
    }
    let mut k: usize = 0;
    while k < list.children.len()
        invariant
            k <= list.children.len(),
            list@.children == trees(list.children@),
            slots_of(numbers@, list@.children, k as nat) == Ok::<SlotsView, FaultView>(
                slots.shown(),
            ),
        decreases list.children.len() - k,
    {
        proof {
            assert(list@.children[k as int] == list.children@[k as int]@);
        }
        match add_item(numbers, &list.children[k], &mut slots) {
            None => {},
            Some(f) => {
                proof {
                    lemma_slots_fail(numbers@, list@.children, (k + 1) as nat, f@);
                }
                return Err(f);
            },
        }
        k = k + 1;
    }
    Ok(slots)
}

fn apply_state(numbers: &Numbers, list: &Node, decl: &mut EntityDecl) -> (r: Option<Fault>)
    ensures
        match r {
            None => with_state(numbers@, list@, old(decl)@) == Ok::<EntityView, FaultView>(
                final(decl)@,
            ),
            Some(f) => with_state(numbers@, list@, old(decl)@) == Err::<EntityView, FaultView>(f@),
        },
{
    proof {
        lemma_children(*list);
    }
    match list.rule {
        Rule::VecN => {
            decl.state = Some(parse_values(numbers, &list.children));
            None
        },
        Rule::NamedState => {
            match read_slots(numbers, list) {
                Err(f) => Some(f),
                Ok(s) => {
                    if has_unit(&s.units) {
                        decl.state_units = Some(s.units);
                    }
                    decl.state = Some(s.values);
                    decl.state_names = Some(s.names);
                    None
                },
            }
        },
        _ => None,
    }
}

/// The value of a hexadecimal digit.
pub open spec fn hex_digit(c: char) -> Option<nat> {
    if '0' <= c <= '9' {
        Some((c as u32 - '0' as u32) as nat)
    } else if 'a' <= c <= 'f' {
        Some((c as u32 - 'a' as u32 + 10) as nat)
    } else if 'A' <= c <= 'F' {
        Some((c as u32 - 'A' as u32 + 10) as nat)
    } else {
        None
    }
}

/// The 32-bit number that the first `k` characters stand for in base sixteen.
pub open spec fn hex_value(s: Seq<char>, k: nat) -> Option<nat>
    decreases k,
{
    if k == 0 || k > s.len() {
        Some(0)
    } else {
        match (hex_value(s, (k - 1) as nat), hex_digit(s[k - 1])) {
            (Some(v), Some(d)) => if v * 16 + d <= u32::MAX {
                Some(v * 16 + d)
            } else {
                None
            },
            _ => None,
        }
    }
}

proof fn lemma_hex_fails(s: Seq<char>, k: nat)
    requires
        0 < k <= s.len(),
        hex_value(s, k) is None,
    ensures
        hex_value(s, s.len()) is None,
    decreases s.len() - k,
{
    if k < s.len() {
        lemma_hex_fails(s, k + 1);
    }
}

/// A colour written as `0x` and hexadecimal digits.
pub open spec fn color_of(text: Seq<char>) -> Option<u32> {
    if text.len() <= 2 {
        None
    } else {
        match hex_value(text.skip(2), (text.len() - 2) as nat) {
            Some(v) => Some(v as u32),
            None => None,
        }
    }
}

fn parse_hex_digit(c: char) -> (r: Option<u64>)
    ensures
        hex_digit(c) == (match r {
            Some(d) => Some(d as nat),
            None => None,
        }),
        r matches Some(d) ==> d < 16,
{
    if c >= '0' && c <= '9' {
        Some((c as u32 - '0' as u32) as u64)
    } else if c >= 'a' && c <= 'f' {
        Some((c as u32 - 'a' as u32 + 10) as u64)
    } else if c >= 'A' && c <= 'F' {
        Some((c as u32 - 'A' as u32 + 10) as u64)
    } else {
        None
    }
}

fn parse_color(text: &str) -> (r: Option<u32>)
    ensures
        r == color_of(text@),
{
    let chars: Vec<char> = crate::names::chars_of(text);
    if chars.len() <= 2 {
        return None;
    }
    let ghost digits = text@.skip(2);
    let mut value: u64 = 0;
    let mut k: usize = 2;
    while k < chars.len()
        invariant
            2 <= k <= chars.len(),
            chars@ == text@,
            digits == text@.skip(2),
            value <= u32::MAX,
            hex_value(digits, (k - 2) as nat) == Some(value as nat),
        decreases chars.len() - k,
    {
        proof {
            assert(digits[k - 2] == text@[k as int]);
        }
        match parse_hex_digit(chars[k]) {
            None => {
                proof {
                    lemma_hex_fails(digits, (k - 1) as nat);
                }
                return None;
            },
            Some(d) => {
                value = value * 16 + d;
            },
        }
        if value > u32::MAX as u64 {
            proof {
                lemma_hex_fails(digits, (k - 1) as nat);
            }
            return None;
        }
        k = k + 1;
    }
    Some(value as u32)
}

/// The style of an entity, one that says nothing where it has none.
pub open spec fn style_of(e: EntityView) -> RenderView {
    match e.render {
        Some(r) => r,
        None => plain_style(),
    }
}

/// The code of a built-in shape.
pub open spec fn shape_code(name: Seq<char>) -> Option<u8> {
    if name == "point"@ {
        Some(0)
    } else if name == "sphere"@ {
        Some(1)
    } else if name == "box"@ {
        Some(2)
    } else if name == "capsule"@ {
        Some(3)
    } else {
        None
    }
}

fn shape_code_of(name: &str) -> (r: Option<u8>)
    ensures
        r == shape_code(name@),
{
    if same(name, "point") {
        Some(0)
    } else if same(name, "sphere") {
        Some(1)
    } else if same(name, "box") {
        Some(2)
    } else if same(name, "capsule") {
        Some(3)
    } else {
        None
    }
}

/// A style with one more attribute.
pub open spec fn styled(n: NumbersView, rule: Rule, inner: Tree, r: RenderView) -> RenderView {
    match rule {
        Rule::ShapeField => match shape_code(inner.text) {
            Some(code) => RenderView { shape: Some(code), ..r },
            None => RenderView { shape_name: Some(inner.text), ..r },
        },
        Rule::SizeField => if inner.rule == Rule::Vec3 {
            RenderView { size3: Some(triple_of(n, inner)), ..r }
        } else {
            RenderView { size: Some(value_of(n, inner)), ..r }
        },
        Rule::OpacityField => RenderView { opacity: Some(value_of(n, inner)), ..r },
        Rule::GlowField => RenderView { glow: Some(value_of(n, inner)), ..r },
        _ => RenderView { label: Some(inner.text == "true"@), ..r },
    }
}

fn apply_style(numbers: &Numbers, rule: Rule, inner: &Node, style: &mut RenderStyle)
    ensures
        final(style)@ == styled(numbers@, rule, inner@, old(style)@),
{
    match rule {
        Rule::ShapeField => match shape_code_of(&inner.text) {
            Some(code) => {
                style.shape = Some(code);
            },
            None => {
                style.shape_name = Some(inner.text.clone());
            },
        },
        Rule::SizeField => {
            if inner.rule == Rule::Vec3 {
                style.size3 = Some(parse_vec3(numbers, inner));
            } else {
                style.size = Some(parse_value(numbers, inner));
            }
        },
        Rule::OpacityField => {
            style.opacity = Some(parse_value(numbers, inner));
        },
        Rule::GlowField => {
            style.glow = Some(parse_value(numbers, inner));
        },
        _ => {
            style.label = Some(same(&inner.text, "true"));
        },
    }
}

/// Whether a rule is an attribute of how an entity is drawn.
pub open spec fn is_style(rule: Rule) -> bool {
    rule == Rule::ShapeField || rule == Rule::SizeField || rule == Rule::OpacityField || rule
        == Rule::GlowField || rule == Rule::LabelField
}

/// An entity with one more field. `inner` is what follows the equals sign.
pub open spec fn with_inner(
    n: NumbersView,
    rule: Rule,
    inner: Tree,
    e: EntityView,
) -> Result<EntityView, FaultView> {
    match rule {
        Rule::PositionField => Ok(EntityView { position: Some(triple_of(n, inner)), ..e }),
        Rule::VelocityField => Ok(EntityView { velocity: Some(triple_of(n, inner)), ..e }),
        Rule::StateField => with_state(n, inner, e),
        Rule::MassField => Ok(EntityView { mass: Some(value_of(n, inner)), ..e }),
        Rule::DynamicField => Ok(EntityView { dynamic: Some(inner.text == "true"@), ..e }),
        Rule::NbodyField => Ok(EntityView { nbody: Some(inner.text == "true"@), ..e }),
        Rule::ParentField => Ok(EntityView { parent: Some(inner.text), ..e }),
        Rule::RestitutionField => Ok(EntityView { restitution: Some(value_of(n, inner)), ..e }),
        Rule::FrictionField => Ok(EntityView { friction: Some(value_of(n, inner)), ..e }),
        Rule::BoxField => Ok(
            EntityView { collider: Some(ColliderView::Box { dims: triple_of(n, inner) }), ..e },
        ),
        Rule::SphereField => Ok(
            EntityView { collider: Some(ColliderView::Sphere { radius: value_of(n, inner) }), ..e },
        ),
        Rule::HullField => if inner.children.len() < 4 {
            Err(invalid(51))
        } else {
            Ok(
                EntityView {
                    collider: Some(
                        ColliderView::ConvexHull { points: triples_of(n, inner.children) },
                    ),
                    ..e
                },
            )
        },
        Rule::CameraField => Ok(EntityView { camera: Some(inner.text == "true"@), ..e }),
        Rule::ColorField => match color_of(inner.text) {
            Some(c) => Ok(EntityView { color: Some(c), ..e }),
            None => Err(invalid(64)),
        },
        _ => if is_style(rule) {
            Ok(EntityView { render: Some(styled(n, rule, inner, style_of(e))), ..e })
        } else {
            Ok(e)
        },
    }
}

/// An entity with the field of a node.
pub open spec fn with_field(n: NumbersView, t: Tree, e: EntityView) -> Result<
    EntityView,
    FaultView,
> {
    if t.children.len() == 0 {
        Ok(e)
    } else {
        with_inner(n, t.rule, t.children[0], e)
    }
}

fn take_style(decl: &mut EntityDecl) -> (r: RenderStyle)
    ensures
        r@ == style_of(old(decl)@),
        final(decl)@ == (EntityView { render: None, ..old(decl)@ }),
{
    match decl.render.take() {
        Some(r) => r,
        None => RenderStyle::new(),
    }
}

/// Applies one field to an entity declaration; entities and pools share it.
pub fn apply_entity_field(numbers: &Numbers, field: &Node, decl: &mut EntityDecl) -> (r: Option<
    Fault,
>)
    ensures
        match r {
            None => with_field(numbers@, field@, old(decl)@) == Ok::<EntityView, FaultView>(
                final(decl)@,
            ),
            Some(f) => with_field(numbers@, field@, old(decl)@) == Err::<EntityView, FaultView>(
                f@,
            ),
        },
{
    proof {
        lemma_children(*field);
    }
    if field.children.len() == 0 {
        return None;
    }
    let inner: &Node = &field.children[0];
    proof {
        assert(field@.children[0] == inner@);
        lemma_children(*inner);
    }
    match field.rule {
        Rule::PositionField => {
            decl.position = Some(parse_vec3(numbers, inner));
        },
        Rule::VelocityField => {
            decl.velocity = Some(parse_vec3(numbers, inner));
        },
        Rule::StateField => return apply_state(numbers, inner, decl),
        Rule::MassField => {
            decl.mass = Some(parse_value(numbers, inner));
        },
        Rule::DynamicField => {
            decl.dynamic = Some(same(&inner.text, "true"));
        },
        Rule::NbodyField => {
            decl.nbody = Some(same(&inner.text, "true"));
        },
        Rule::ParentField => {
            decl.parent = Some(inner.text.clone());
        },
        Rule::RestitutionField => {
            decl.restitution = Some(parse_value(numbers, inner));
        },
        Rule::FrictionField => {
            decl.friction = Some(parse_value(numbers, inner));
        },
        Rule::BoxField => {
            decl.collider = Some(ColliderDecl::Box { dims: parse_vec3(numbers, inner) });
        },
        Rule::SphereField => {
            decl.collider = Some(ColliderDecl::Sphere { radius: parse_value(numbers, inner) });
        },
        Rule::HullField => {
            if inner.children.len() < 4 {
                return Some(reject(51));
            }
            decl.collider = Some(
                ColliderDecl::ConvexHull { points: parse_triples(numbers, &inner.children) },
            );
        },
        Rule::CameraField => {
            decl.camera = Some(same(&inner.text, "true"));
        },
        Rule::ColorField => match parse_color(&inner.text) {
            Some(c) => {
                decl.color = Some(c);
            },
            None => return Some(reject(64)),
        },
        Rule::ShapeField
        | Rule::SizeField
        | Rule::OpacityField
        | Rule::GlowField
        | Rule::LabelField => {
            let mut style: RenderStyle = take_style(decl);
            apply_style(numbers, field.rule, inner, &mut style);
            decl.render = Some(style);
        },
        _ => {},
    }
    None
}

/// An entity with the fields of the nodes from `from` up to the `k`-th.
pub open spec fn with_fields(
    n: NumbersView,
    kids: Seq<Tree>,
    from: nat,
    k: nat,
    e: EntityView,
) -> Result<EntityView, FaultView>
    decreases k,
{
    if k <= from || k > kids.len() {
        Ok(e)
    } else {
        match with_fields(n, kids, from, (k - 1) as nat, e) {
            Err(f) => Err(f),
            Ok(e) => with_field(n, kids[k - 1], e),
        }
    }
}

proof fn lemma_fields_fail(
    n: NumbersView,
    kids: Seq<Tree>,
    from: nat,
    k: nat,
    e: EntityView,
    f: FaultView,
)
    requires
        from < k <= kids.len(),
        with_fields(n, kids, from, k, e) == Err::<EntityView, FaultView>(f),
    ensures
        with_fields(n, kids, from, kids.len(), e) == Err::<EntityView, FaultView>(f),
    decreases kids.len() - k,
{
    if k < kids.len() {
        lemma_fields_fail(n, kids, from, k + 1, e, f);
    }
}

/// Applies the fields of a declaration from the child `from` on.
pub fn apply_entity_fields(
    numbers: &Numbers,
    kids: &Vec<Node>,
    from: usize,
    decl: &mut EntityDecl,
) -> (r: Option<Fault>)
    ensures
        match r {
            None => with_fields(
                numbers@,
                trees(kids@),
                from as nat,
                kids@.len(),
                old(decl)@,
            ) == Ok::<EntityView, FaultView>(final(decl)@),
            Some(f) => with_fields(
                numbers@,
                trees(kids@),
                from as nat,
                kids@.len(),
                old(decl)@,
            ) == Err::<EntityView, FaultView>(f@),
        },
{
    let ghost nodes = trees(kids@);
    let mut k: usize = from;
    if from > kids.len() {
        return None;
    }
    while k < kids.len()
        invariant
            from <= k <= kids.len(),
            nodes == trees(kids@),
            with_fields(numbers@, nodes, from as nat, k as nat, old(decl)@) == Ok::<
                EntityView,
                FaultView,
            >(decl@),
        decreases kids.len() - k,
    {
        proof {
            assert(nodes[k as int] == kids@[k as int]@);
        }
        match apply_entity_field(numbers, &kids[k], decl) {
            None => {},
            Some(f) => {
                proof {
                    lemma_fields_fail(
                        numbers@,
                        nodes,
                        from as nat,
                        (k + 1) as nat,
                        old(decl)@,
                        f@,
                    );
                }
                return Some(f);
            },
        }
        k = k + 1;
    }
    None
}

} // verus!

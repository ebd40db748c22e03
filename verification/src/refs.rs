//! Which state slots and properties an expression reads.

use crate::expr::{expr_views, stmt_views, Expr, ExprView, LetStmt, LetStmtView, PropKind};
use crate::lower::{named_slot, named_slot_of};
use crate::names::{assoc_get, NameMap};
use crate::scope::{Layout, Layouts};
use crate::text::{find, find_char, part};
use vstd::prelude::*;
use vstd::string::*;

verus! {

/// The greater of two slots, where there is one.
pub open spec fn later(a: Option<usize>, b: Option<usize>) -> Option<usize> {
    match (a, b) {
        (None, _) => b,
        (_, None) => a,
        (Some(x), Some(y)) => if x >= y {
            Some(x)
        } else {
            Some(y)
        },
    }
}

/// Computes [`later`].
pub fn later_of(a: Option<usize>, b: Option<usize>) -> (r: Option<usize>)
    ensures
        r == later(a, b),
{
    match (a, b) {
        (None, _) => b,
        (_, None) => a,
        (Some(x), Some(y)) => if x >= y {
            Some(x)
        } else {
            Some(y)
        },
    }
}

/// The highest slot of the own entity that an expression reads, by number or by a
/// name of its layout.
pub open spec fn span(e: ExprView, sn: Layout) -> Option<usize>
    decreases e,
{
    match e {
        ExprView::Slot(i) => Some(i),
        ExprView::SlotDyn(i) => span(*i, sn),
        ExprView::Name(name) => if find(name, '.') == name.len() {
            assoc_get(sn, name)
        } else {
            None
        },
        ExprView::Arith(_, a, b) => later(span(*a, sn), span(*b, sn)),
        ExprView::Compare(_, a, b) => later(span(*a, sn), span(*b, sn)),
        ExprView::And(a, b) => later(span(*a, sn), span(*b, sn)),
        ExprView::Or(a, b) => later(span(*a, sn), span(*b, sn)),
        ExprView::Not(a) => span(*a, sn),
        ExprView::Neg(a) => span(*a, sn),
        ExprView::Call(_, args) => span_all(args, args.len(), sn),
        _ => None,
    }
}

/// The highest own slot that the first `n` expressions read.
pub open spec fn span_all(args: Seq<ExprView>, n: nat, sn: Layout) -> Option<usize>
    decreases args, n,
{
    if n == 0 || n > args.len() {
        None
    } else {
        later(span_all(args, (n - 1) as nat, sn), span(args[n - 1], sn))
    }
}

/// Finds the highest own slot that an expression reads.
pub fn expr_slot_span(expr: &Expr, sn: &NameMap<usize>) -> (r: Option<usize>)
    ensures
        r == span(expr@, sn@),
    decreases expr,
{
    match expr {
        Expr::Slot(i) => Some(*i),
        Expr::SlotDyn(i) => expr_slot_span(i, sn),
        Expr::Name(name) => {
            if find_char(name, '.') == name.as_str().unicode_len() {
                match sn.get(name) {
                    Some(slot) => Some(*slot),
                    None => None,
                }
            } else {
                None
            }
        },
        Expr::Arith(_, a, b) => later_of(expr_slot_span(a, sn), expr_slot_span(b, sn)),
        Expr::Compare(_, a, b) => later_of(expr_slot_span(a, sn), expr_slot_span(b, sn)),
        Expr::And(a, b) => later_of(expr_slot_span(a, sn), expr_slot_span(b, sn)),
        Expr::Or(a, b) => later_of(expr_slot_span(a, sn), expr_slot_span(b, sn)),
        Expr::Not(a) => expr_slot_span(a, sn),
        Expr::Neg(a) => expr_slot_span(a, sn),
        Expr::Call(name, args) => {
            let ghost views = expr_views(args@);
            proof {
                assert(expr@->Call_1 =~= views);
            }
            let mut r: Option<usize> = None;
            let mut i: usize = 0;
            while i < args.len()
                invariant
                    i <= args.len(),
                    views == expr_views(args@),
                    expr == Expr::Call(*name, *args),
                    r == span_all(views, i as nat, sn@),
                decreases args.len() - i,
            {
                proof {
                    assert(views[i as int] == args@[i as int]@);
                    assert(decreases_to!(expr => expr->Call_1@[i as int]));
                }
                r = later_of(r, expr_slot_span(&args[i], sn));
                i = i + 1;
            }
            r
        },
        _ => None,
    }
}

/// The highest own slot that the first `n` statements read.
pub open spec fn span_stmts(s: Seq<LetStmtView>, n: nat, sn: Layout) -> Option<usize>
    decreases s, n,
{
    if n == 0 || n > s.len() {
        None
    } else {
        later(
            span_stmts(s, (n - 1) as nat, sn),
            match s[n - 1] {
                LetStmtView::Let(_, e) => span(e, sn),
                LetStmtView::Break(Some(e)) => span(e, sn),
                LetStmtView::Continue(Some(e)) => span(e, sn),
                LetStmtView::Until(e) => span(e, sn),
                LetStmtView::Repeat(_, body) => span_stmts(body, body.len(), sn),
                LetStmtView::For(_, _, _, body) => span_stmts(body, body.len(), sn),
                _ => None,
            },
        )
    }
}

/// Finds the highest own slot that a statement list reads.
pub fn let_stmts_slot_span(stmts: &Vec<LetStmt>, sn: &NameMap<usize>) -> (r: Option<usize>)
    ensures
        r == span_stmts(stmt_views(stmts@), stmts@.len(), sn@),
    decreases stmts,
{
    let ghost views = stmt_views(stmts@);
    let mut r: Option<usize> = None;
    let mut i: usize = 0;
    while i < stmts.len()
        invariant
            i <= stmts.len(),
            views == stmt_views(stmts@),
            r == span_stmts(views, i as nat, sn@),
        decreases stmts.len() - i,
    {
        proof {
            assert(views[i as int] == stmts@[i as int]@);
        }
        let one: Option<usize> = match &stmts[i] {
            LetStmt::Let(_, e) => expr_slot_span(e, sn),
            LetStmt::Break(Some(e)) => expr_slot_span(e, sn),
            LetStmt::Continue(Some(e)) => expr_slot_span(e, sn),
            LetStmt::Until(e) => expr_slot_span(e, sn),
            LetStmt::Repeat(_, body) => {
                proof {
                    assert(stmts@[i as int]@->Repeat_1 =~= stmt_views(body@));
                }
                let_stmts_slot_span(body, sn)
            },
            LetStmt::For(_, _, _, body) => {
                proof {
                    assert(stmts@[i as int]@->For_3 =~= stmt_views(body@));
                }
                let_stmts_slot_span(body, sn)
            },
            _ => None,
        };
        r = later_of(r, one);
        i = i + 1;
    }
    r
}

/// A property of an entity.
pub type Key = (u128, PropKind);

/// The rank of a property, first by kind.
pub open spec fn kind_rank(kind: PropKind) -> int {
    match kind {
        PropKind::Mass => -8,
        PropKind::IsDynamic => -7,
        PropKind::PositionX => -6,
        PropKind::PositionY => -5,
        PropKind::PositionZ => -4,
        PropKind::VelocityX => -3,
        PropKind::VelocityY => -2,
        PropKind::VelocityZ => -1,
        PropKind::State(i) => i as int,
    }
}

/// The order of properties: by entity, then by rank.
pub open spec fn key_less(a: Key, b: Key) -> bool {
    a.0 < b.0 || (a.0 == b.0 && kind_rank(a.1) < kind_rank(b.1))
}

fn rank_of(kind: PropKind) -> (r: i128)
    ensures
        r == kind_rank(kind),
{
    match kind {
        PropKind::Mass => -8,
        PropKind::IsDynamic => -7,
        PropKind::PositionX => -6,
        PropKind::PositionY => -5,
        PropKind::PositionZ => -4,
        PropKind::VelocityX => -3,
        PropKind::VelocityY => -2,
        PropKind::VelocityZ => -1,
        PropKind::State(i) => i as i128,
    }
}

/// A sorted list of properties with one more, unless it is there.
pub open spec fn key_insert(s: Seq<Key>, key: Key) -> Seq<Key>
    decreases s.len(),
{
    if s.len() == 0 {
        seq![key]
    } else if s[0] == key {
        s
    } else if key_less(key, s[0]) {
        seq![key] + s
    } else {
        seq![s[0]] + key_insert(s.drop_first(), key)
    }
}

/// Computes [`key_insert`].
pub fn insert_key(keys: &mut Vec<Key>, key: Key)
    ensures
        final(keys)@ == key_insert(old(keys)@, key),
{
    let ghost before = keys@;
    let mut i: usize = 0;
    proof {
        assert(before.skip(0) =~= before);
        assert(before.take(0) + key_insert(before.skip(0), key) =~= key_insert(before, key));
    }
    while i < keys.len()
        invariant
            i <= keys.len(),
            keys@ == before,
            *keys == *old(keys),
            before.take(i as int) + key_insert(before.skip(i as int), key) == key_insert(
                before,
                key,
            ),
        decreases keys.len() - i,
    {
        let ghost rest = before.skip(i as int);
        proof {
            assert(rest.drop_first() =~= before.skip(i + 1));
        }
        let at: Key = keys[i];
        if at.0 == key.0 && at.1 == key.1 {
            proof {
                assert(before.take(i as int) + rest =~= before);
            }
            return ;
        }
        if key.0 < at.0 || (key.0 == at.0 && rank_of(key.1) < rank_of(at.1)) {
            keys.insert(i, key);
            proof {
                assert(keys@ =~= before.take(i as int) + (seq![key] + rest));
            }
            return ;
        }
        proof {
            assert(before.take(i as int) + (seq![rest[0]] + key_insert(rest.drop_first(), key))
                =~= before.take(i + 1) + key_insert(rest.drop_first(), key));
        }
        i = i + 1;
    }
    keys.push(key);
    proof {
        assert(before.skip(i as int) =~= Seq::<Key>::empty());
        assert(keys@ =~= before.take(i as int) + seq![key]);
    }
}

/// What an expression reads of other entities: state slots, and properties.
pub struct RefsView {
    pub slots: Seq<Key>,
    pub props: Seq<Key>,
}

/// Sorted lists of what an expression reads of other entities.
pub struct Refs {
    pub slots: Vec<Key>,
    pub props: Vec<Key>,
}

impl View for Refs {
    type V = RefsView;

    open spec fn view(&self) -> RefsView {
        RefsView { slots: self.slots@, props: self.props@ }
    }
}

/// Nothing read.
pub open spec fn no_refs() -> RefsView {
    RefsView { slots: Seq::empty(), props: Seq::empty() }
}

impl Refs {
    /// Nothing read.
    pub fn new() -> (r: Refs)
        ensures
            r@ == no_refs(),
    {
        Refs { slots: Vec::new(), props: Vec::new() }
    }
}

/// The slot of another entity that a dotted name reads, if the entity declares it.
pub open spec fn named_key(
    name: Seq<char>,
    entities: Seq<(Seq<char>, u128)>,
    layouts: Seq<(u128, Layout)>,
) -> Option<Key> {
    let dot = find(name, '.');
    if dot == name.len() {
        None
    } else {
        match assoc_get(entities, name.take(dot as int)) {
            None => None,
            Some(id) => match named_slot(name, layouts, id) {
                None => None,
                Some(slot) => Some((id, PropKind::State(slot))),
            },
        }
    }
}

/// `acc` with what an expression reads of other entities. Unknown names read
/// nothing.
pub open spec fn refs_of(
    e: ExprView,
    entities: Seq<(Seq<char>, u128)>,
    layouts: Seq<(u128, Layout)>,
    acc: RefsView,
) -> RefsView
    decreases e,
{
    match e {
        ExprView::Ref(name, slot) => match assoc_get(entities, name) {
            Some(id) => RefsView {
                slots: key_insert(acc.slots, (id, PropKind::State(slot))),
                ..acc
            },
            None => acc,
        },
        ExprView::PropRef(name, kind) => match assoc_get(entities, name) {
            Some(id) => RefsView { props: key_insert(acc.props, (id, kind)), ..acc },
            None => acc,
        },
        ExprView::Name(name) => match named_key(name, entities, layouts) {
            Some(key) => RefsView { slots: key_insert(acc.slots, key), ..acc },
            None => acc,
        },
        ExprView::Arith(_, a, b) => refs_of(
            *b,
            entities,
            layouts,
            refs_of(*a, entities, layouts, acc),
        ),
        ExprView::Compare(_, a, b) => refs_of(
            *b,
            entities,
            layouts,
            refs_of(*a, entities, layouts, acc),
        ),
        ExprView::And(a, b) => refs_of(*b, entities, layouts, refs_of(*a, entities, layouts, acc)),
        ExprView::Or(a, b) => refs_of(*b, entities, layouts, refs_of(*a, entities, layouts, acc)),
        ExprView::Not(a) => refs_of(*a, entities, layouts, acc),
        ExprView::Neg(a) => refs_of(*a, entities, layouts, acc),
        ExprView::SlotDyn(a) => refs_of(*a, entities, layouts, acc),
        ExprView::Call(_, args) => refs_all(args, args.len(), entities, layouts, acc),
        _ => acc,
    }
}

/// `acc` with what the first `n` expressions read of other entities.
pub open spec fn refs_all(
    args: Seq<ExprView>,
    n: nat,
    entities: Seq<(Seq<char>, u128)>,
    layouts: Seq<(u128, Layout)>,
    acc: RefsView,
) -> RefsView
    decreases args, n,
{
    if n == 0 || n > args.len() {
        acc
    } else {
        refs_of(
            args[n - 1],
            entities,
            layouts,
            refs_all(args, (n - 1) as nat, entities, layouts, acc),
        )
    }
}

/// Collects what an expression reads of other entities.
pub fn collect_refs(expr: &Expr, entities: &NameMap<u128>, layouts: &Layouts, acc: &mut Refs)
    ensures
        final(acc)@ == refs_of(expr@, entities@, layouts@, old(acc)@),
    decreases expr,
{
    match expr {
        Expr::Ref(name, slot) => {
            if let Some(id) = entities.get(name) {
                insert_key(&mut acc.slots, (*id, PropKind::State(*slot)));
            }
        },
        Expr::PropRef(name, kind) => {
            if let Some(id) = entities.get(name) {
                insert_key(&mut acc.props, (*id, *kind));
            }
        },
        Expr::Name(name) => {
            let dot: usize = find_char(name, '.');
            if dot < name.as_str().unicode_len() {
                let owner: String = part(name, 0, dot);
                proof {
                    assert(owner@ =~= name@.take(dot as int));
                }
                if let Some(id) = entities.get(&owner) {
                    if let Some(slot) = named_slot_of(name, layouts, *id) {
                        insert_key(&mut acc.slots, (*id, PropKind::State(slot)));
                    }
                }
            }
        },
        Expr::Arith(_, a, b) => {
            collect_refs(a, entities, layouts, acc);
            collect_refs(b, entities, layouts, acc);
        },
        Expr::Compare(_, a, b) => {
            collect_refs(a, entities, layouts, acc);
            collect_refs(b, entities, layouts, acc);
        },
        Expr::And(a, b) => {
            collect_refs(a, entities, layouts, acc);
            collect_refs(b, entities, layouts, acc);
        },
        Expr::Or(a, b) => {
            collect_refs(a, entities, layouts, acc);
            collect_refs(b, entities, layouts, acc);
        },
        Expr::Not(a) => collect_refs(a, entities, layouts, acc),
        Expr::Neg(a) => collect_refs(a, entities, layouts, acc),
        Expr::SlotDyn(a) => collect_refs(a, entities, layouts, acc),
        Expr::Call(name, args) => {
            let ghost views = expr_views(args@);
            let ghost before = acc@;
            proof {
                assert(expr@->Call_1 =~= views);
            }
            let mut i: usize = 0;
            while i < args.len()
                invariant
                    i <= args.len(),
                    views == expr_views(args@),
                    expr == Expr::Call(*name, *args),
                    acc@ == refs_all(views, i as nat, entities@, layouts@, before),
                decreases args.len() - i,
            {
                proof {
                    assert(views[i as int] == args@[i as int]@);
                    assert(decreases_to!(expr => expr->Call_1@[i as int]));
                }
                collect_refs(&args[i], entities, layouts, acc);
                i = i + 1;
            }
        },
        _ => {},
    }
}

/// `acc` with what the first `n` statements read of other entities.
pub open spec fn refs_stmts(
    s: Seq<LetStmtView>,
    n: nat,
    entities: Seq<(Seq<char>, u128)>,
    layouts: Seq<(u128, Layout)>,
    acc: RefsView,
) -> RefsView
    decreases s, n,
{
    if n == 0 || n > s.len() {
        acc
    } else {
        let acc = refs_stmts(s, (n - 1) as nat, entities, layouts, acc);
        match s[n - 1] {
            LetStmtView::Let(_, e) => refs_of(e, entities, layouts, acc),
            LetStmtView::Break(Some(e)) => refs_of(e, entities, layouts, acc),
            LetStmtView::Continue(Some(e)) => refs_of(e, entities, layouts, acc),
            LetStmtView::Until(e) => refs_of(e, entities, layouts, acc),
            LetStmtView::Repeat(_, body) => refs_stmts(body, body.len(), entities, layouts, acc),
            LetStmtView::For(_, _, _, body) => refs_stmts(
                body,
                body.len(),
                entities,
                layouts,
                acc,
            ),
            _ => acc,
        }
    }
}

/// Collects what a statement list reads of other entities: the bindings and the
/// conditions of the jumps.
pub fn collect_let_refs(
    stmts: &Vec<LetStmt>,
    entities: &NameMap<u128>,
    layouts: &Layouts,
    acc: &mut Refs,
)
    ensures
        final(acc)@ == refs_stmts(
            stmt_views(stmts@),
            stmts@.len(),
            entities@,
            layouts@,
            old(acc)@,
        ),
    decreases stmts,
{
    let ghost views = stmt_views(stmts@);
    let ghost before = acc@;
    let mut i: usize = 0;
    while i < stmts.len()
        invariant
            i <= stmts.len(),
            views == stmt_views(stmts@),
            acc@ == refs_stmts(views, i as nat, entities@, layouts@, before),
        decreases stmts.len() - i,
    {
        proof {
            assert(views[i as int] == stmts@[i as int]@);
        }
        match &stmts[i] {
            LetStmt::Let(_, e) => collect_refs(e, entities, layouts, acc),
            LetStmt::Break(Some(e)) => collect_refs(e, entities, layouts, acc),
            LetStmt::Continue(Some(e)) => collect_refs(e, entities, layouts, acc),
            LetStmt::Until(e) => collect_refs(e, entities, layouts, acc),
            LetStmt::Repeat(_, body) => {
                proof {
                    assert(stmts@[i as int]@->Repeat_1 =~= stmt_views(body@));
                }
                collect_let_refs(body, entities, layouts, acc);
            },
            LetStmt::For(_, _, _, body) => {
                proof {
                    assert(stmts@[i as int]@->For_3 =~= stmt_views(body@));
                }
                collect_let_refs(body, entities, layouts, acc);
            },
            _ => {},
        }
        i = i + 1;
    }
}

/// Whether properties increase strictly in a list.
pub open spec fn keys_increase(s: Seq<Key>) -> bool {
    forall|i: int, j: int| 0 <= i < j < s.len() ==> key_less(#[trigger] s[i], #[trigger] s[j])
}

proof fn lemma_key_insert(s: Seq<Key>, key: Key)
    requires
        keys_increase(s),
    ensures
        keys_increase(key_insert(s, key)),
        forall|k: Key| #[trigger] key_insert(s, key).contains(k) <==> s.contains(k) || k == key,
    decreases s.len(),
{
    let r = key_insert(s, key);
    if s.len() == 0 {
        assert(r[0] == key);
    } else if s[0] == key {
        assert(s.contains(key));
    } else if key_less(key, s[0]) {
        assert forall|k: Key| #[trigger] r.contains(k) <==> s.contains(k) || k == key by {
            assert(r[0] == key);
            assert(forall|i: int| 0 <= i < s.len() ==> r[i + 1] == #[trigger] s[i]);
        }
    } else {
        let rest = s.drop_first();
        assert(forall|i: int| 0 <= i < rest.len() ==> #[trigger] rest[i] == s[i + 1]);
        lemma_key_insert(rest, key);
        let t = key_insert(rest, key);
        assert(forall|i: int| 0 <= i < t.len() ==> r[i + 1] == #[trigger] t[i]);
        assert(r[0] == s[0]);
        assert forall|j: int| 0 <= j < t.len() implies key_less(s[0], #[trigger] t[j]) by {
            assert(t.contains(t[j]));
            if t[j] != key {
                assert(rest.contains(t[j]));
            } else {
                assert(kind_rank(s[0].1) == kind_rank(key.1) ==> s[0].1 == key.1);
            }
        }
        assert forall|i: int, j: int| 0 <= i < j < r.len() implies key_less(
            #[trigger] r[i],
            #[trigger] r[j],
        ) by {
            assert(r[j] == t[j - 1]);
            if i > 0 {
                assert(r[i] == t[i - 1]);
            }
        }
        assert forall|k: Key| #[trigger] r.contains(k) <==> s.contains(k) || k == key by {
            if r.contains(k) {
                let i = choose|i: int| 0 <= i < r.len() && r[i] == k;
                if i > 0 {
                    assert(t[i - 1] == k);
                    assert(t.contains(k));
                    if k != key {
                        let m = choose|m: int| 0 <= m < rest.len() && rest[m] == k;
                        assert(s[m + 1] == k);
                    }
                }
            }
            if s.contains(k) || k == key {
                if k != s[0] {
                    if k != key {
                        let m = choose|m: int| 0 <= m < s.len() && s[m] == k;
                        assert(rest[m - 1] == k);
                    }
                    assert(t.contains(k));
                    let i = choose|i: int| 0 <= i < t.len() && t[i] == k;
                    assert(r[i + 1] == k);
                }
            }
        }
    }
}

/// Whether an expression reads a state slot of another entity.
pub open spec fn reads_slot(
    e: ExprView,
    entities: Seq<(Seq<char>, u128)>,
    layouts: Seq<(u128, Layout)>,
    key: Key,
) -> bool
    decreases e,
{
    match e {
        ExprView::Ref(name, slot) => assoc_get(entities, name) == Some(key.0) && key.1
            == PropKind::State(slot),
        ExprView::Name(name) => named_key(name, entities, layouts) == Some(key),
        ExprView::Arith(_, a, b) => reads_slot(*a, entities, layouts, key) || reads_slot(
            *b,
            entities,
            layouts,
            key,
        ),
        ExprView::Compare(_, a, b) => reads_slot(*a, entities, layouts, key) || reads_slot(
            *b,
            entities,
            layouts,
            key,
        ),
        ExprView::And(a, b) => reads_slot(*a, entities, layouts, key) || reads_slot(
            *b,
            entities,
            layouts,
            key,
        ),
        ExprView::Or(a, b) => reads_slot(*a, entities, layouts, key) || reads_slot(
            *b,
            entities,
            layouts,
            key,
        ),
        ExprView::Not(a) => reads_slot(*a, entities, layouts, key),
        ExprView::Neg(a) => reads_slot(*a, entities, layouts, key),
        ExprView::SlotDyn(a) => reads_slot(*a, entities, layouts, key),
        ExprView::Call(_, args) => any_reads_slot(args, args.len(), entities, layouts, key),
        _ => false,
    }
}

/// Whether one of the first `n` expressions reads a state slot of another entity.
pub open spec fn any_reads_slot(
    args: Seq<ExprView>,
    n: nat,
    entities: Seq<(Seq<char>, u128)>,
    layouts: Seq<(u128, Layout)>,
    key: Key,
) -> bool
    decreases args, n,
{
    if n == 0 || n > args.len() {
        false
    } else {
        any_reads_slot(args, (n - 1) as nat, entities, layouts, key) || reads_slot(
            args[n - 1],
            entities,
            layouts,
            key,
        )
    }
}

/// Each slot of another entity that an expression reads is listed once, in order,
/// and nothing else is added.
pub proof fn law_refs_are_listed_once(
    e: ExprView,
    entities: Seq<(Seq<char>, u128)>,
    layouts: Seq<(u128, Layout)>,
    acc: RefsView,
)
    requires
        keys_increase(acc.slots),
        keys_increase(acc.props),
    ensures
        keys_increase(refs_of(e, entities, layouts, acc).slots),
        keys_increase(refs_of(e, entities, layouts, acc).props),
        forall|k: Key| #[trigger]
            refs_of(e, entities, layouts, acc).slots.contains(k) <==> acc.slots.contains(k)
                || reads_slot(e, entities, layouts, k),
    decreases e, 0nat,
{
    match e {
        ExprView::Ref(name, slot) => {
            if assoc_get(entities, name) is Some {
                lemma_key_insert(
                    acc.slots,
                    (assoc_get(entities, name)->0, PropKind::State(slot)),
                );
            }
        },
        ExprView::PropRef(name, kind) => {
            if assoc_get(entities, name) is Some {
                lemma_key_insert(acc.props, (assoc_get(entities, name)->0, kind));
            }
        },
        ExprView::Name(name) => {
            if named_key(name, entities, layouts) is Some {
                lemma_key_insert(acc.slots, named_key(name, entities, layouts)->0);
            }
        },
        ExprView::Arith(_, a, b) => {
            law_refs_are_listed_once(*a, entities, layouts, acc);
            law_refs_are_listed_once(*b, entities, layouts, refs_of(*a, entities, layouts, acc));
        },
        ExprView::Compare(_, a, b) => {
            law_refs_are_listed_once(*a, entities, layouts, acc);
            law_refs_are_listed_once(*b, entities, layouts, refs_of(*a, entities, layouts, acc));
        },
        ExprView::And(a, b) => {
            law_refs_are_listed_once(*a, entities, layouts, acc);
            law_refs_are_listed_once(*b, entities, layouts, refs_of(*a, entities, layouts, acc));
        },
        ExprView::Or(a, b) => {
            law_refs_are_listed_once(*a, entities, layouts, acc);
            law_refs_are_listed_once(*b, entities, layouts, refs_of(*a, entities, layouts, acc));
        },
        ExprView::Not(a) => law_refs_are_listed_once(*a, entities, layouts, acc),
        ExprView::Neg(a) => law_refs_are_listed_once(*a, entities, layouts, acc),
        ExprView::SlotDyn(a) => law_refs_are_listed_once(*a, entities, layouts, acc),
        ExprView::Call(_, args) => lemma_refs_all(args, args.len(), entities, layouts, acc),
        _ => {},
    }
}

proof fn lemma_refs_all(
    args: Seq<ExprView>,
    n: nat,
    entities: Seq<(Seq<char>, u128)>,
    layouts: Seq<(u128, Layout)>,
    acc: RefsView,
)
    requires
        keys_increase(acc.slots),
        keys_increase(acc.props),
    ensures
        keys_increase(refs_all(args, n, entities, layouts, acc).slots),
        keys_increase(refs_all(args, n, entities, layouts, acc).props),
        forall|k: Key| #[trigger]
            refs_all(args, n, entities, layouts, acc).slots.contains(k) <==> acc.slots.contains(k)
                || any_reads_slot(args, n, entities, layouts, k),
    decreases args, n,
{
    if n == 0 || n > args.len() {
    } else {
        lemma_refs_all(args, (n - 1) as nat, entities, layouts, acc);
        law_refs_are_listed_once(
            args[n - 1],
            entities,
            layouts,
            refs_all(args, (n - 1) as nat, entities, layouts, acc),
        );
    }
}

/// Whether an expression reads a property of another entity.
pub open spec fn reads_prop(e: ExprView, entities: Seq<(Seq<char>, u128)>, key: Key) -> bool
    decreases e,
{
    match e {
        ExprView::PropRef(name, kind) => assoc_get(entities, name) == Some(key.0) && key.1 == kind,
        ExprView::Arith(_, a, b) | ExprView::Compare(_, a, b) => reads_prop(*a, entities, key)
            || reads_prop(*b, entities, key),
        ExprView::And(a, b) | ExprView::Or(a, b) => reads_prop(*a, entities, key) || reads_prop(
            *b,
            entities,
            key,
        ),
        ExprView::Not(a) | ExprView::Neg(a) | ExprView::SlotDyn(a) => reads_prop(
            *a,
            entities,
            key,
        ),
        ExprView::Call(_, args) => exists|i: int|
            0 <= i < args.len() && reads_prop(#[trigger] args[i], entities, key),
        _ => false,
    }
}

/// Each property of another entity that an expression reads is listed, and nothing else is
/// added.
pub proof fn law_properties_are_listed(
    e: ExprView,
    entities: Seq<(Seq<char>, u128)>,
    layouts: Seq<(u128, Layout)>,
    acc: RefsView,
    key: Key,
)
    requires
        keys_increase(acc.slots),
        keys_increase(acc.props),
    ensures
        refs_of(e, entities, layouts, acc).props.contains(key) <==> acc.props.contains(key)
            || reads_prop(e, entities, key),
    decreases e, 0nat,
{
    match e {
        ExprView::PropRef(name, kind) => {
            if assoc_get(entities, name) is Some {
                lemma_key_insert(acc.props, (assoc_get(entities, name)->0, kind));
            }
        },
        ExprView::Arith(_, a, b) | ExprView::Compare(_, a, b) => {
            law_refs_are_listed_once(*a, entities, layouts, acc);
            law_properties_are_listed(*a, entities, layouts, acc, key);
            let more = refs_of(*a, entities, layouts, acc);
            law_properties_are_listed(*b, entities, layouts, more, key);
        },
        ExprView::And(a, b) | ExprView::Or(a, b) => {
            law_refs_are_listed_once(*a, entities, layouts, acc);
            law_properties_are_listed(*a, entities, layouts, acc, key);
            let more = refs_of(*a, entities, layouts, acc);
            law_properties_are_listed(*b, entities, layouts, more, key);
        },
        ExprView::Not(a) | ExprView::Neg(a) | ExprView::SlotDyn(a) => {
            law_properties_are_listed(*a, entities, layouts, acc, key);
        },
        ExprView::Call(_, args) => {
            lemma_props_all(args, args.len(), entities, layouts, acc, key);
        },
        _ => {},
    }
}

proof fn lemma_props_all(
    args: Seq<ExprView>,
    n: nat,
    entities: Seq<(Seq<char>, u128)>,
    layouts: Seq<(u128, Layout)>,
    acc: RefsView,
    key: Key,
)
    requires
        n <= args.len(),
        keys_increase(acc.slots),
        keys_increase(acc.props),
    ensures
        refs_all(args, n, entities, layouts, acc).props.contains(key) <==> acc.props.contains(key)
            || exists|i: int| 0 <= i < n && reads_prop(#[trigger] args[i], entities, key),
    decreases args, n,
{
    if n > 0 {
        let more = refs_all(args, (n - 1) as nat, entities, layouts, acc);
        lemma_refs_all(args, (n - 1) as nat, entities, layouts, acc);
        lemma_props_all(args, (n - 1) as nat, entities, layouts, acc, key);
        law_properties_are_listed(args[n - 1], entities, layouts, more, key);
        if reads_prop(args[n - 1], entities, key) {
            assert(0 <= n - 1 < n && reads_prop(args[n - 1], entities, key));
        }
    }
}

} // verus!

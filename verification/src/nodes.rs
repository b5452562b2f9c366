//! The nodes of the schema graph and their dependencies.

use vstd::prelude::*;

use crate::ident::{IdentType, IdentView, TypeIdent};
use crate::models::NamespaceId;
use crate::order::{cons, text_code, Key, Order};
use crate::order::{
    in_order, lemma_cons_order, lemma_text_code_injective, lists, order_of_bytes, order_of_numbers,
};
use crate::ordmap::OrdMap;
use crate::steps::{node_type, DependencyKeyView, NodeView, Strength};
use crate::xs::{
    AttributeGroupType, AttributeType, ComplexBaseType, ElementType, GroupType, SimpleBaseType,
};

verus! {

/// The schema node that a cache entry stands for.
#[derive(Debug, Clone, Copy)]
pub enum Node<'a> {
    Element(&'a ElementType),
    Attribute(&'a AttributeType),
    SimpleType(&'a SimpleBaseType),
    ComplexType(&'a ComplexBaseType),
    Group(&'a GroupType),
    AttributeGroup(&'a AttributeGroupType),
}

impl<'a> View for Node<'a> {
    type V = NodeView;

    open spec fn view(&self) -> NodeView {
        match self {
            Node::Element(x) => NodeView::Element(**x),
            Node::Attribute(x) => NodeView::Attribute(**x),
            Node::SimpleType(x) => NodeView::SimpleType(**x),
            Node::ComplexType(x) => NodeView::ComplexType(**x),
            Node::Group(x) => NodeView::Group(**x),
            Node::AttributeGroup(x) => NodeView::AttributeGroup(**x),
        }
    }
}

/// How an entry refers to another one: by name, or by holding its node.
#[derive(Debug)]
pub enum NodeDependencyKey {
    Named(NamespaceId, IdentType, String),
    InlineSimpleType(usize),
    InlineElement(usize),
}

impl View for NodeDependencyKey {
    type V = DependencyKeyView;

    open spec fn view(&self) -> DependencyKeyView {
        match self {
            NodeDependencyKey::Named(ns, t, s) => DependencyKeyView::Named(*ns, *t, s@),
            NodeDependencyKey::InlineSimpleType(n) => DependencyKeyView::InlineSimpleType(*n),
            NodeDependencyKey::InlineElement(n) => DependencyKeyView::InlineElement(*n),
        }
    }
}

impl Key for NodeDependencyKey {
    open spec fn code(v: DependencyKeyView) -> Seq<int> {
        match v {
            DependencyKeyView::Named(ns, t, s) => cons(
                0,
                cons(ns.0 as int, cons(t.rank(), text_code(s))),
            ),
            DependencyKeyView::InlineSimpleType(n) => cons(1, cons(n as int, Seq::empty())),
            DependencyKeyView::InlineElement(n) => cons(2, cons(n as int, Seq::empty())),
        }
    }

    proof fn code_injective(a: DependencyKeyView, b: DependencyKeyView) {
        lemma_key_order(a, b);
        match (a, b) {
            (DependencyKeyView::Named(_, _, s), DependencyKeyView::Named(_, _, t)) => {
                lemma_text_code_injective(s, t);
            },
            _ => {},
        }
    }

    fn order_of(&self, other: &Self) -> (o: Order) {
        proof {
            lemma_key_order(self@, other@);
        }
        match order_of_numbers(self.number(), other.number()) {
            Order::Same => {},
            o => {
                return o;
            },
        }
        match (self, other) {
            (NodeDependencyKey::Named(n, t, s), NodeDependencyKey::Named(m, u, r)) => {
                match order_of_numbers(n.0, m.0) {
                    Order::Same => {},
                    o => {
                        return o;
                    },
                }
                match order_of_numbers(t.number(), u.number()) {
                    Order::Same => {},
                    o => {
                        return o;
                    },
                }
                order_of_bytes(s.as_str().as_bytes(), r.as_str().as_bytes())
            },
            (NodeDependencyKey::InlineSimpleType(n), NodeDependencyKey::InlineSimpleType(m)) => {
                order_of_numbers(*n, *m)
            },
            (NodeDependencyKey::InlineElement(n), NodeDependencyKey::InlineElement(m)) => {
                order_of_numbers(*n, *m)
            },
            _ => Order::Same,
        }
    }
}

/// The place of the form of a key in the order of keys.
spec fn key_rank(k: DependencyKeyView) -> int {
    match k {
        DependencyKeyView::Named(..) => 0,
        DependencyKeyView::InlineSimpleType(_) => 1,
        DependencyKeyView::InlineElement(_) => 2,
    }
}

/// The parts of a key but its kind, as numbers.
spec fn key_rest(k: DependencyKeyView) -> Seq<int> {
    match k {
        DependencyKeyView::Named(ns, t, s) => cons(ns.0 as int, cons(t.rank(), text_code(s))),
        DependencyKeyView::InlineSimpleType(n) => cons(n as int, Seq::empty()),
        DependencyKeyView::InlineElement(n) => cons(n as int, Seq::empty()),
    }
}

/// How the orders of the parts of two keys give the order of the keys.
proof fn lemma_key_order(a: DependencyKeyView, b: DependencyKeyView)
    ensures
        key_rank(a) < key_rank(b) ==> crate::order::lex_order(
            NodeDependencyKey::code(a),
            NodeDependencyKey::code(b),
        ) == Order::Before,
        key_rank(a) > key_rank(b) ==> crate::order::lex_order(
            NodeDependencyKey::code(a),
            NodeDependencyKey::code(b),
        ) == Order::After,
        NodeDependencyKey::code(a) == NodeDependencyKey::code(b) ==> key_rank(a) == key_rank(b),
        match (a, b) {
            (DependencyKeyView::Named(n, t, s), DependencyKeyView::Named(m, u, r)) => {
                let o = crate::order::lex_order(
                    NodeDependencyKey::code(a),
                    NodeDependencyKey::code(b),
                );
                &&& n.0 < m.0 ==> o == Order::Before
                &&& n.0 > m.0 ==> o == Order::After
                &&& n.0 == m.0 && t.rank() < u.rank() ==> o == Order::Before
                &&& n.0 == m.0 && t.rank() > u.rank() ==> o == Order::After
                &&& n.0 == m.0 && t.rank() == u.rank() ==> o == crate::order::lex_order(
                    text_code(s),
                    text_code(r),
                )
                &&& NodeDependencyKey::code(a) == NodeDependencyKey::code(b) ==> n == m && t == u
                    && text_code(s) == text_code(r)
            },
            (DependencyKeyView::InlineSimpleType(n), DependencyKeyView::InlineSimpleType(m)) => {
                let o = crate::order::lex_order(
                    NodeDependencyKey::code(a),
                    NodeDependencyKey::code(b),
                );
                &&& n < m ==> o == Order::Before
                &&& n > m ==> o == Order::After
                &&& n == m ==> o == Order::Same
                &&& NodeDependencyKey::code(a) == NodeDependencyKey::code(b) ==> n == m
            },
            (DependencyKeyView::InlineElement(n), DependencyKeyView::InlineElement(m)) => {
                let o = crate::order::lex_order(
                    NodeDependencyKey::code(a),
                    NodeDependencyKey::code(b),
                );
                &&& n < m ==> o == Order::Before
                &&& n > m ==> o == Order::After
                &&& n == m ==> o == Order::Same
                &&& NodeDependencyKey::code(a) == NodeDependencyKey::code(b) ==> n == m
            },
            _ => true,
        },
{
    lemma_cons_order(key_rank(a), key_rest(a), key_rank(b), key_rest(b));
    match (a, b) {
        (DependencyKeyView::Named(n, t, s), DependencyKeyView::Named(m, u, r)) => {
            lemma_cons_order(
                n.0 as int,
                cons(t.rank(), text_code(s)),
                m.0 as int,
                cons(u.rank(), text_code(r)),
            );
            lemma_cons_order(t.rank(), text_code(s), u.rank(), text_code(r));
        },
        (DependencyKeyView::InlineSimpleType(n), DependencyKeyView::InlineSimpleType(m)) => {
            lemma_cons_order(n as int, Seq::empty(), m as int, Seq::empty());
        },
        (DependencyKeyView::InlineElement(n), DependencyKeyView::InlineElement(m)) => {
            lemma_cons_order(n as int, Seq::empty(), m as int, Seq::empty());
        },
        _ => {},
    }
}

impl NodeDependencyKey {
    /// The place of the kind of the key among all kinds.
    fn number(&self) -> (n: usize)
        ensures
            n == key_rank(self@),
    {
        match self {
            NodeDependencyKey::Named(..) => 0,
            NodeDependencyKey::InlineSimpleType(_) => 1,
            NodeDependencyKey::InlineElement(_) => 2,
        }
    }

    /// Copies the key.
    pub fn copy(&self) -> (k: Self)
        ensures
            k@ == self@,
    {
        match self {
            NodeDependencyKey::Named(ns, t, s) => NodeDependencyKey::Named(*ns, *t, s.clone()),
            NodeDependencyKey::InlineSimpleType(n) => NodeDependencyKey::InlineSimpleType(*n),
            NodeDependencyKey::InlineElement(n) => NodeDependencyKey::InlineElement(*n),
        }
    }
}

/// A dependency on an identifier.
#[derive(Debug)]
pub enum NodeDependency {
    /// The other entry has to be known first.
    Strong(TypeIdent),
    /// The other entry is referred to.
    Weak(TypeIdent),
    /// The other entry is looked up when it is needed.
    Lazy(TypeIdent),
}

/// The parts of a dependency.
pub struct DependencyView {
    pub strength: Strength,
    pub ident: IdentView,
}

impl View for NodeDependency {
    type V = DependencyView;

    open spec fn view(&self) -> DependencyView {
        match self {
            NodeDependency::Strong(i) => DependencyView { strength: Strength::Strong, ident: i@ },
            NodeDependency::Weak(i) => DependencyView { strength: Strength::Weak, ident: i@ },
            NodeDependency::Lazy(i) => DependencyView { strength: Strength::Lazy, ident: i@ },
        }
    }
}

impl DeepView for NodeDependency {
    type V = DependencyView;

    open spec fn deep_view(&self) -> DependencyView {
        self@
    }
}

impl NodeDependency {
    /// The identifier that the dependency points to.
    pub fn deref(&self) -> (i: &TypeIdent)
        ensures
            i@ == self@.ident,
    {
        match self {
            NodeDependency::Strong(ident) | NodeDependency::Weak(ident) | NodeDependency::Lazy(
                ident,
            ) => ident,
        }
    }

    /// The identifier that the dependency points to, to change it.
    pub fn deref_mut(&mut self) -> (i: &mut TypeIdent)
        ensures
            i@ == old(self)@.ident,
            final(self)@ == (DependencyView { ident: final(i)@, ..old(self)@ }),
    {
        match self {
            NodeDependency::Strong(ident) => ident,
            NodeDependency::Weak(ident) => ident,
            NodeDependency::Lazy(ident) => ident,
        }
    }

    /// Copies the dependency.
    pub fn copy(&self) -> (d: Self)
        ensures
            d@ == self@,
    {
        match self {
            NodeDependency::Strong(i) => NodeDependency::Strong(i.copy()),
            NodeDependency::Weak(i) => NodeDependency::Weak(i.copy()),
            NodeDependency::Lazy(i) => NodeDependency::Lazy(i.copy()),
        }
    }
}

/// An entry of the node cache.
pub struct NodeCacheEntry<'a> {
    /// The schema node of the entry.
    pub node: Node<'a>,
    /// What the entry depends on.
    pub dependencies: OrdMap<NodeDependencyKey, NodeDependency>,
    /// The identifier that the entry redefines.
    pub redefine_base: Option<TypeIdent>,
}

/// The parts of a cache entry.
pub struct EntryView {
    pub node: NodeView,
    pub dependencies: Map<DependencyKeyView, DependencyView>,
    pub redefine_base: Option<IdentView>,
}

/// The view of an optional identifier.
pub open spec fn opt_ident(i: Option<TypeIdent>) -> Option<IdentView> {
    match i {
        Some(i) => Some(i@),
        None => None,
    }
}

impl<'a> View for NodeCacheEntry<'a> {
    type V = EntryView;

    open spec fn view(&self) -> EntryView {
        EntryView {
            node: self.node@,
            dependencies: self.dependencies@,
            redefine_base: opt_ident(self.redefine_base),
        }
    }
}

impl<'a> DeepView for NodeCacheEntry<'a> {
    type V = EntryView;

    open spec fn deep_view(&self) -> EntryView {
        self@
    }
}

/// The entry of a node of which nothing else is known.
pub open spec fn new_entry_view(node: NodeView) -> EntryView {
    EntryView { node, dependencies: Map::empty(), redefine_base: None }
}

impl<'a> NodeCacheEntry<'a> {
    /// Creates an entry without dependencies.
    pub fn new(node: Node<'a>) -> (e: Self)
        ensures
            e@ == new_entry_view(node@),
    {
        NodeCacheEntry { node, dependencies: OrdMap::new(), redefine_base: None }
    }

    /// The kind of the node.
    pub fn ident_type(&self) -> (t: IdentType)
        ensures
            t == node_type(self@.node),
    {
        match self.node {
            Node::Group(_) => IdentType::Group,
            Node::Element(_) => IdentType::Element,
            Node::Attribute(_) => IdentType::Attribute,
            Node::SimpleType(_) | Node::ComplexType(_) => IdentType::Type,
            Node::AttributeGroup(_) => IdentType::AttributeGroup,
        }
    }

    /// Copies the entry.
    pub fn copy(&self) -> (e: Self)
        ensures
            e@ == self@,
    {
        let mut dependencies: OrdMap<NodeDependencyKey, NodeDependency> = OrdMap::new();
        let n = self.dependencies.len();
        let ghost order = in_order::<NodeDependencyKey>(self.dependencies@.dom());
        let mut k: usize = 0;
        while k < n
            invariant
                order == in_order::<NodeDependencyKey>(self.dependencies@.dom()),
                n == order.len(),
                k <= n,
                lists(order, self.dependencies@.dom()),
                forall|x: DependencyKeyView|
                    dependencies@.contains_key(x) <==> order.take(k as int).contains(x),
                forall|x: DependencyKeyView| #[trigger]
                    dependencies@.contains_key(x) ==> dependencies@[x] == self.dependencies@[x],
            decreases n - k,
        {
            let key = self.dependencies.key_at(k).copy();
            let dep = self.dependencies.value_at(k).copy();
            dependencies.insert(key, dep);
            proof {
                assert(order.take(k + 1) =~= order.take(k as int).push(order[k as int]));
                let t0 = order.take(k as int);
                let t1 = order.take(k + 1);
                assert forall|x: DependencyKeyView|
                    dependencies@.contains_key(x) <==> t1.contains(x) by {
                    if t1.contains(x) && x != order[k as int] {
                        let p = choose|p: int| 0 <= p < t1.len() && t1[p] == x;
                        assert(t0[p] == x);
                    }
                    if t0.contains(x) {
                        let p = choose|p: int| 0 <= p < t0.len() && t0[p] == x;
                        assert(t1[p] == x);
                    }
                    if x == order[k as int] {
                        assert(t1[k as int] == x);
                    }
                }
            }
            k = k + 1;
        }
        proof {
            assert(order.take(k as int) =~= order);
            assert(dependencies@ =~= self.dependencies@);
        }
        let redefine_base = match &self.redefine_base {
            Some(i) => Some(i.copy()),
            None => None,
        };
        NodeCacheEntry { node: self.node, dependencies, redefine_base }
    }
}

} // verus!

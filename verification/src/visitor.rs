//! Walking a tree.
//!
//! Whoever wants to do something with every value of a tree implements
//! [`Visitor`]: one method for each kind of leaf, each of which does nothing
//! unless it is given a body. [`Walk`], which every visitor has, goes
//! through the tree and hands each leaf to the method of its kind. The
//! methods get the leaf itself and may put another value in its place.
//!
//! What a walk has done is said by [`walked`]: which leaves went through
//! which method, in what order, and with which visitor. What a method does
//! is its visitor's to say; the walk hands it on.

use vstd::prelude::*;
use crate::types::{Tree, Type};

verus! {

/// What is done with the leaves of a tree. Every method gets leaves of its
/// own kind only, and does nothing where the visitor gives it no body.
pub trait Visitor: Sized {
    /// Visit a truth value.
    fn visit_boolean(&mut self, b: &mut Type)
        requires
            *old(b) is Boolean,
        default_ensures
            *final(self) == *old(self),
            *final(b) == *old(b),
    {
    }

    /// Visit a whole number.
    fn visit_integer(&mut self, i: &mut Type)
        requires
            *old(i) is Integer,
        default_ensures
            *final(self) == *old(self),
            *final(i) == *old(i),
    {
    }

    /// Visit a floating point number.
    fn visit_float(&mut self, f: &mut Type)
        requires
            *old(f) is Float,
        default_ensures
            *final(self) == *old(self),
            *final(f) == *old(f),
    {
    }

    /// Visit a text.
    fn visit_string(&mut self, s: &mut Type)
        requires
            *old(s) is String,
        default_ensures
            *final(self) == *old(self),
            *final(s) == *old(s),
    {
    }

    /// Visit a symbol.
    fn visit_symbol(&mut self, s: &mut Type)
        requires
            *old(s) is Symbol,
        default_ensures
            *final(self) == *old(self),
            *final(s) == *old(s),
    {
    }
}

/// Whether a tree has no leaf that a visitor is shown: it is nothing, or a
/// list of such trees.
pub open spec fn is_hollow(tree: Tree) -> bool
    decreases tree,
{
    match tree {
        Tree::Nil => true,
        Tree::List(items) => forall|i: int| 0 <= i < items.len() ==> is_hollow(#[trigger] items[i]),
        _ => false,
    }
}

/// Every item of a hollow list is hollow.
pub proof fn lemma_hollow_item(items: Seq<Tree>, i: int)
    requires
        is_hollow(Tree::List(items)),
        0 <= i < items.len(),
    ensures
        is_hollow(items[i]),
{
    let list = Tree::List(items);
    assert(list->List_0[i] == items[i]);
    assert(is_hollow(list->List_0[i]));
}

/// Whether `after` may be what a walk makes of `before`, whatever the
/// visitor does: nothing stays nothing, a list stays a list of as many
/// items, each of which may be what the walk makes of the item that was
/// there, and any other leaf may become anything.
pub open spec fn may_become(before: Tree, after: Tree) -> bool
    decreases before,
{
    match before {
        Tree::Nil => after == Tree::Nil,
        Tree::List(items) => {
            &&& after matches Tree::List(now)
            &&& now.len() == items.len()
            &&& forall|i: int| 0 <= i < items.len() ==> may_become(items[i], #[trigger] now[i])
        },
        _ => true,
    }
}

/// Whether a walk through `before` with a visitor that is `v0` at the start
/// ends with the visitor `v1` and the tree `after`, where `leaf` says what
/// the visitor's methods do to a leaf: `leaf(a, x, b, y)` is to hold where
/// the method for the leaf `x`, called on the visitor `a`, may come back
/// with the visitor `b` and the leaf `y`.
///
/// Nothing is done with `Nil`. Any other leaf goes through its method once.
/// A list stays a list of as many items; its items are walked through one
/// after the other, from the first to the last, each with the visitor as the
/// item before it left it.
pub open spec fn walked<V>(
    leaf: spec_fn(V, Type, V, Type) -> bool,
    v0: V,
    before: Type,
    v1: V,
    after: Type,
) -> bool
    decreases before,
{
    match before {
        Type::List(items) => {
            &&& after matches Type::List(now)
            &&& now.len() == items.len()
            &&& exists|states: Seq<V>|
                {
                    &&& #[trigger] states.len() == items.len() + 1
                    &&& states[0] == v0
                    &&& states[items.len() as int] == v1
                    &&& forall|i: int|
                        0 <= i < items.len() ==> walked(
                            leaf,
                            #[trigger] states[i],
                            items[i],
                            states[i + 1],
                            now[i],
                        )
                }
        },
        Type::Nil => v1 == v0 && after == before,
        _ => leaf(v0, before, v1, after),
    }
}

/// What `walked` says of a list, item by item: there are the visitors
/// `states` that the walk went through, the first as it was before the
/// first item and each other as the item before it left it, and every item
/// was walked through with its visitor.
pub proof fn lemma_walked_list<V>(
    leaf: spec_fn(V, Type, V, Type) -> bool,
    v0: V,
    before: Type,
    v1: V,
    after: Type,
) -> (states: Seq<V>)
    requires
        before is List,
        walked(leaf, v0, before, v1, after),
    ensures
        after is List,
        after->List_0.len() == before->List_0.len(),
        states.len() == before->List_0.len() + 1,
        states[0] == v0,
        states[before->List_0.len() as int] == v1,
        forall|i: int|
            0 <= i < before->List_0.len() ==> walked(
                leaf,
                #[trigger] states[i],
                before->List_0[i],
                states[i + 1],
                after->List_0[i],
            ),
{
    let items = before->List_0;
    let now = after->List_0;
    let states = choose|states: Seq<V>|
        {
            &&& #[trigger] states.len() == items.len() + 1
            &&& states[0] == v0
            &&& states[items.len() as int] == v1
            &&& forall|i: int|
                0 <= i < items.len() ==> walked(
                    leaf,
                    #[trigger] states[i],
                    items[i],
                    states[i + 1],
                    now[i],
                )
        };
    states
}

/// The walk through a tree that every visitor has.
pub trait Walk: Visitor + Sized {
    /// Visits `node`: a list by `visit_list`, everything else by
    /// `visit_atom`.
    ///
    /// The contract says with `walked` what the walk has done: every leaf
    /// but `Nil` went through the method of its kind once, in the order in
    /// which the leaves stand in the tree, each with the visitor as the
    /// leaf before it left it, and the tree holds what the methods left.
    /// The relation that is handed to `walked` says of one leaf that the
    /// visitor and the leaf went into the method as `a` and `x` and came
    /// out of it as `b` and `y`. So whatever a visitor states of its own
    /// methods can be carried through the tree, with `lemma_walked_list`
    /// for the lists.
    fn visit(&mut self, node: &mut Type)
        ensures
            walked(
                (|a: Self, x: Type, b: Self, y: Type|
                    {
                        &&& x is Boolean ==> (exists|v: &mut Self, n: &mut Type|
                            {
                                &&& *v == a && *final(v) == b
                                &&& *n == x && *final(n) == y
                                &&& #[trigger] call_ensures(Self::visit_boolean, (v, n), ())
                            })
                        &&& x is Integer ==> (exists|v: &mut Self, n: &mut Type|
                            {
                                &&& *v == a && *final(v) == b
                                &&& *n == x && *final(n) == y
                                &&& #[trigger] call_ensures(Self::visit_integer, (v, n), ())
                            })
                        &&& x is Float ==> (exists|v: &mut Self, n: &mut Type|
                            {
                                &&& *v == a && *final(v) == b
                                &&& *n == x && *final(n) == y
                                &&& #[trigger] call_ensures(Self::visit_float, (v, n), ())
                            })
                        &&& x is String ==> (exists|v: &mut Self, n: &mut Type|
                            {
                                &&& *v == a && *final(v) == b
                                &&& *n == x && *final(n) == y
                                &&& #[trigger] call_ensures(Self::visit_string, (v, n), ())
                            })
                        &&& x is Symbol ==> (exists|v: &mut Self, n: &mut Type|
                            {
                                &&& *v == a && *final(v) == b
                                &&& *n == x && *final(n) == y
                                &&& #[trigger] call_ensures(Self::visit_symbol, (v, n), ())
                            })
                    }),
                *old(self),
                *old(node),
                *final(self),
                *final(node),
            ),
            may_become(old(node)@, final(node)@),
            is_hollow(old(node)@) ==> *final(self) == *old(self) && final(node)@ == old(node)@,
    ;

    /// Visits every item of the list `node`, from the first to the last,
    /// each by `visit`. The contract is that of `visit`.
    fn visit_list(&mut self, node: &mut Type)
        requires
            *old(node) is List,
        ensures
            walked(
                (|a: Self, x: Type, b: Self, y: Type|
                    {
                        &&& x is Boolean ==> (exists|v: &mut Self, n: &mut Type|
                            {
                                &&& *v == a && *final(v) == b
                                &&& *n == x && *final(n) == y
                                &&& #[trigger] call_ensures(Self::visit_boolean, (v, n), ())
                            })
                        &&& x is Integer ==> (exists|v: &mut Self, n: &mut Type|
                            {
                                &&& *v == a && *final(v) == b
                                &&& *n == x && *final(n) == y
                                &&& #[trigger] call_ensures(Self::visit_integer, (v, n), ())
                            })
                        &&& x is Float ==> (exists|v: &mut Self, n: &mut Type|
                            {
                                &&& *v == a && *final(v) == b
                                &&& *n == x && *final(n) == y
                                &&& #[trigger] call_ensures(Self::visit_float, (v, n), ())
                            })
                        &&& x is String ==> (exists|v: &mut Self, n: &mut Type|
                            {
                                &&& *v == a && *final(v) == b
                                &&& *n == x && *final(n) == y
                                &&& #[trigger] call_ensures(Self::visit_string, (v, n), ())
                            })
                        &&& x is Symbol ==> (exists|v: &mut Self, n: &mut Type|
                            {
                                &&& *v == a && *final(v) == b
                                &&& *n == x && *final(n) == y
                                &&& #[trigger] call_ensures(Self::visit_symbol, (v, n), ())
                            })
                    }),
                *old(self),
                *old(node),
                *final(self),
                *final(node),
            ),
            may_become(old(node)@, final(node)@),
            is_hollow(old(node)@) ==> *final(self) == *old(self) && final(node)@ == old(node)@,
    ;

    /// Hands the leaf `node` to the method of its kind, once. Nothing is
    /// done with `Nil`.
    ///
    /// What has become of the visitor and of the leaf is what that method
    /// has made of them: the contract says for each kind that the visitor
    /// and the leaf went into the method as they were, and came out of it
    /// as they are now. So whatever a visitor states of its own methods
    /// holds of `visit_atom` too.
    fn visit_atom(&mut self, node: &mut Type)
        requires
            !(*old(node) is List),
        ensures
            walked(
                (|a: Self, x: Type, b: Self, y: Type|
                    {
                        &&& x is Boolean ==> (exists|v: &mut Self, n: &mut Type|
                            {
                                &&& *v == a && *final(v) == b
                                &&& *n == x && *final(n) == y
                                &&& #[trigger] call_ensures(Self::visit_boolean, (v, n), ())
                            })
                        &&& x is Integer ==> (exists|v: &mut Self, n: &mut Type|
                            {
                                &&& *v == a && *final(v) == b
                                &&& *n == x && *final(n) == y
                                &&& #[trigger] call_ensures(Self::visit_integer, (v, n), ())
                            })
                        &&& x is Float ==> (exists|v: &mut Self, n: &mut Type|
                            {
                                &&& *v == a && *final(v) == b
                                &&& *n == x && *final(n) == y
                                &&& #[trigger] call_ensures(Self::visit_float, (v, n), ())
                            })
                        &&& x is String ==> (exists|v: &mut Self, n: &mut Type|
                            {
                                &&& *v == a && *final(v) == b
                                &&& *n == x && *final(n) == y
                                &&& #[trigger] call_ensures(Self::visit_string, (v, n), ())
                            })
                        &&& x is Symbol ==> (exists|v: &mut Self, n: &mut Type|
                            {
                                &&& *v == a && *final(v) == b
                                &&& *n == x && *final(n) == y
                                &&& #[trigger] call_ensures(Self::visit_symbol, (v, n), ())
                            })
                    }),
                *old(self),
                *old(node),
                *final(self),
                *final(node),
            ),
            *old(node) is Nil ==> *final(self) == *old(self) && *final(node) == *old(node),
            *old(node) is Boolean ==> (exists|v: &mut Self, n: &mut Type|
                {
                    &&& *v == *old(self) && *final(v) == *final(self)
                    &&& *n == *old(node) && *final(n) == *final(node)
                    &&& #[trigger] call_ensures(Self::visit_boolean, (v, n), ())
                }),
            *old(node) is Integer ==> (exists|v: &mut Self, n: &mut Type|
                {
                    &&& *v == *old(self) && *final(v) == *final(self)
                    &&& *n == *old(node) && *final(n) == *final(node)
                    &&& #[trigger] call_ensures(Self::visit_integer, (v, n), ())
                }),
            *old(node) is Float ==> (exists|v: &mut Self, n: &mut Type|
                {
                    &&& *v == *old(self) && *final(v) == *final(self)
                    &&& *n == *old(node) && *final(n) == *final(node)
                    &&& #[trigger] call_ensures(Self::visit_float, (v, n), ())
                }),
            *old(node) is String ==> (exists|v: &mut Self, n: &mut Type|
                {
                    &&& *v == *old(self) && *final(v) == *final(self)
                    &&& *n == *old(node) && *final(n) == *final(node)
                    &&& #[trigger] call_ensures(Self::visit_string, (v, n), ())
                }),
            *old(node) is Symbol ==> (exists|v: &mut Self, n: &mut Type|
                {
                    &&& *v == *old(self) && *final(v) == *final(self)
                    &&& *n == *old(node) && *final(n) == *final(node)
                    &&& #[trigger] call_ensures(Self::visit_symbol, (v, n), ())
                }),
    ;
}

impl<V: Visitor> Walk for V {
    fn visit(&mut self, node: &mut Type) {
        walk(self, node)
    }

    fn visit_list(&mut self, node: &mut Type) {
        walk_list(self, node)
    }

    fn visit_atom(&mut self, node: &mut Type) {
        walk_atom(self, node)
    }
}

/// Visits `node` with `visitor`: a list item by item, a leaf by the method
/// of its kind.
fn walk<V: Visitor>(visitor: &mut V, node: &mut Type)
    ensures
        walked(
            (|a: V, x: Type, b: V, y: Type|
                {
                    &&& x is Boolean ==> (exists|v: &mut V, n: &mut Type|
                        {
                            &&& *v == a && *final(v) == b
                            &&& *n == x && *final(n) == y
                            &&& #[trigger] call_ensures(V::visit_boolean, (v, n), ())
                        })
                    &&& x is Integer ==> (exists|v: &mut V, n: &mut Type|
                        {
                            &&& *v == a && *final(v) == b
                            &&& *n == x && *final(n) == y
                            &&& #[trigger] call_ensures(V::visit_integer, (v, n), ())
                        })
                    &&& x is Float ==> (exists|v: &mut V, n: &mut Type|
                        {
                            &&& *v == a && *final(v) == b
                            &&& *n == x && *final(n) == y
                            &&& #[trigger] call_ensures(V::visit_float, (v, n), ())
                        })
                    &&& x is String ==> (exists|v: &mut V, n: &mut Type|
                        {
                            &&& *v == a && *final(v) == b
                            &&& *n == x && *final(n) == y
                            &&& #[trigger] call_ensures(V::visit_string, (v, n), ())
                        })
                    &&& x is Symbol ==> (exists|v: &mut V, n: &mut Type|
                        {
                            &&& *v == a && *final(v) == b
                            &&& *n == x && *final(n) == y
                            &&& #[trigger] call_ensures(V::visit_symbol, (v, n), ())
                        })
                }),
            *old(visitor),
            *old(node),
            *final(visitor),
            *final(node),
        ),
        may_become(old(node)@, final(node)@),
        is_hollow(old(node)@) ==> *final(visitor) == *old(visitor) && final(node)@ == old(node)@,
    decreases *old(node), 1nat,
{
    match node {
        Type::List(_) => walk_list(visitor, node),
        _ => walk_atom(visitor, node),
    }
}

/// Visits every item of the list `node`, from the first to the last.
#[verifier::loop_isolation(false)]
fn walk_list<V: Visitor>(visitor: &mut V, node: &mut Type)
    requires
        *old(node) is List,
    ensures
        walked(
            (|a: V, x: Type, b: V, y: Type|
                {
                    &&& x is Boolean ==> (exists|v: &mut V, n: &mut Type|
                        {
                            &&& *v == a && *final(v) == b
                            &&& *n == x && *final(n) == y
                            &&& #[trigger] call_ensures(V::visit_boolean, (v, n), ())
                        })
                    &&& x is Integer ==> (exists|v: &mut V, n: &mut Type|
                        {
                            &&& *v == a && *final(v) == b
                            &&& *n == x && *final(n) == y
                            &&& #[trigger] call_ensures(V::visit_integer, (v, n), ())
                        })
                    &&& x is Float ==> (exists|v: &mut V, n: &mut Type|
                        {
                            &&& *v == a && *final(v) == b
                            &&& *n == x && *final(n) == y
                            &&& #[trigger] call_ensures(V::visit_float, (v, n), ())
                        })
                    &&& x is String ==> (exists|v: &mut V, n: &mut Type|
                        {
                            &&& *v == a && *final(v) == b
                            &&& *n == x && *final(n) == y
                            &&& #[trigger] call_ensures(V::visit_string, (v, n), ())
                        })
                    &&& x is Symbol ==> (exists|v: &mut V, n: &mut Type|
                        {
                            &&& *v == a && *final(v) == b
                            &&& *n == x && *final(n) == y
                            &&& #[trigger] call_ensures(V::visit_symbol, (v, n), ())
                        })
                }),
            *old(visitor),
            *old(node),
            *final(visitor),
            *final(node),
        ),
        may_become(old(node)@, final(node)@),
        is_hollow(old(node)@) ==> *final(visitor) == *old(visitor) && final(node)@ == old(node)@,
    decreases *old(node), 0nat,
{
    let ghost leaf = (|a: V, x: Type, b: V, y: Type|
        {
            &&& x is Boolean ==> (exists|v: &mut V, n: &mut Type|
                {
                    &&& *v == a && *final(v) == b
                    &&& *n == x && *final(n) == y
                    &&& #[trigger] call_ensures(V::visit_boolean, (v, n), ())
                })
            &&& x is Integer ==> (exists|v: &mut V, n: &mut Type|
                {
                    &&& *v == a && *final(v) == b
                    &&& *n == x && *final(n) == y
                    &&& #[trigger] call_ensures(V::visit_integer, (v, n), ())
                })
            &&& x is Float ==> (exists|v: &mut V, n: &mut Type|
                {
                    &&& *v == a && *final(v) == b
                    &&& *n == x && *final(n) == y
                    &&& #[trigger] call_ensures(V::visit_float, (v, n), ())
                })
            &&& x is String ==> (exists|v: &mut V, n: &mut Type|
                {
                    &&& *v == a && *final(v) == b
                    &&& *n == x && *final(n) == y
                    &&& #[trigger] call_ensures(V::visit_string, (v, n), ())
                })
            &&& x is Symbol ==> (exists|v: &mut V, n: &mut Type|
                {
                    &&& *v == a && *final(v) == b
                    &&& *n == x && *final(n) == y
                    &&& #[trigger] call_ensures(V::visit_symbol, (v, n), ())
                })
        });
    match node {
        Type::List(list) => {
            let ghost before = *list;
            let ghost items = old(node)@->List_0;
            let ghost mut states: Seq<V> = seq![*visitor];
            let mut i: usize = 0;
            while i < list.len()
                invariant
                    i <= list.len(),
                    states.len() == i + 1,
                    states[0] == *old(visitor),
                    states[i as int] == *visitor,
                    forall|j: int|
                        0 <= j < i ==> walked(
                            leaf,
                            #[trigger] states[j],
                            before[j],
                            states[j + 1],
                            list[j],
                        ),
                    list.len() == before.len(),
                    items.len() == before.len(),
                    old(node)@ == Tree::List(items),
                    forall|j: int| 0 <= j < before.len() ==> #[trigger] items[j] == before[j]@,
                    forall|j: int| i <= j < before.len() ==> list[j] == before[j],
                    forall|j: int| 0 <= j < i ==> may_become(items[j], #[trigger] list[j]@),
                    is_hollow(old(node)@) ==> *visitor == *old(visitor) && forall|j: int|
                        0 <= j < i ==> #[trigger] list[j]@ == items[j],
                    decreases_to!(*old(node) => before),
                decreases list.len() - i,
            {
                proof {
                    vstd::std_specs::vec::axiom_vec_index_decreases(before, i as int);
                    if is_hollow(old(node)@) {
                        lemma_hollow_item(items, i as int);
                    }
                }
                let ghost so_far = states;
                let ghost held = *list;
                walk(visitor, &mut list[i]);
                proof {
                    states = states.push(*visitor);
                    assert(walked(leaf, so_far[i as int], before[i as int], *visitor, list[i as int]));
                    assert forall|j: int| 0 <= j < i + 1 implies walked(
                        leaf,
                        #[trigger] states[j],
                        before[j],
                        states[j + 1],
                        list[j],
                    ) by {
                        if j < i {
                            assert(states[j] == so_far[j]);
                            assert(states[j + 1] == so_far[j + 1]);
                            assert(list[j] == held[j]);
                        }
                    }
                }
                i += 1;
            }
            proof {
                let whole = Type::List(before);
                let made = Type::List(*list);
                assert(states.len() == before.len() + 1);
                assert forall|j: int| 0 <= j < before.len() implies walked(
                    leaf,
                    #[trigger] states[j],
                    whole->List_0[j],
                    states[j + 1],
                    made->List_0[j],
                ) by {}
                assert(walked(leaf, *old(visitor), whole, *visitor, made));
                let now = Type::List(*list)@->List_0;
                assert forall|j: int| 0 <= j < items.len() implies may_become(
                    items[j],
                    #[trigger] now[j],
                ) by {
                    assert(now[j] == list[j]@);
                }
                if is_hollow(old(node)@) {
                    assert forall|j: int| 0 <= j < items.len() implies now[j] == items[j] by {
                        assert(now[j] == list[j]@);
                    }
                    assert(now =~= items);
                }
            }
        },
        _ => {},
    }
}

/// Hands the leaf `node` to the method of `visitor` that is there for its
/// kind, once. Nothing is done with `Nil`. What has become of the visitor
/// and of the leaf is what that method has made of them.
fn walk_atom<V: Visitor>(visitor: &mut V, node: &mut Type)
    requires
        !(*old(node) is List),
    ensures
        may_become(old(node)@, final(node)@),
        walked(
            (|a: V, x: Type, b: V, y: Type|
                {
                    &&& x is Boolean ==> (exists|v: &mut V, n: &mut Type|
                        {
                            &&& *v == a && *final(v) == b
                            &&& *n == x && *final(n) == y
                            &&& #[trigger] call_ensures(V::visit_boolean, (v, n), ())
                        })
                    &&& x is Integer ==> (exists|v: &mut V, n: &mut Type|
                        {
                            &&& *v == a && *final(v) == b
                            &&& *n == x && *final(n) == y
                            &&& #[trigger] call_ensures(V::visit_integer, (v, n), ())
                        })
                    &&& x is Float ==> (exists|v: &mut V, n: &mut Type|
                        {
                            &&& *v == a && *final(v) == b
                            &&& *n == x && *final(n) == y
                            &&& #[trigger] call_ensures(V::visit_float, (v, n), ())
                        })
                    &&& x is String ==> (exists|v: &mut V, n: &mut Type|
                        {
                            &&& *v == a && *final(v) == b
                            &&& *n == x && *final(n) == y
                            &&& #[trigger] call_ensures(V::visit_string, (v, n), ())
                        })
                    &&& x is Symbol ==> (exists|v: &mut V, n: &mut Type|
                        {
                            &&& *v == a && *final(v) == b
                            &&& *n == x && *final(n) == y
                            &&& #[trigger] call_ensures(V::visit_symbol, (v, n), ())
                        })
                }),
            *old(visitor),
            *old(node),
            *final(visitor),
            *final(node),
        ),
        *old(node) is Nil ==> *final(visitor) == *old(visitor) && *final(node) == *old(node),
        *old(node) is Boolean ==> (exists|v: &mut V, n: &mut Type|
            {
                &&& *v == *old(visitor) && *final(v) == *final(visitor)
                &&& *n == *old(node) && *final(n) == *final(node)
                &&& #[trigger] call_ensures(V::visit_boolean, (v, n), ())
            }),
        *old(node) is Integer ==> (exists|v: &mut V, n: &mut Type|
            {
                &&& *v == *old(visitor) && *final(v) == *final(visitor)
                &&& *n == *old(node) && *final(n) == *final(node)
                &&& #[trigger] call_ensures(V::visit_integer, (v, n), ())
            }),
        *old(node) is Float ==> (exists|v: &mut V, n: &mut Type|
            {
                &&& *v == *old(visitor) && *final(v) == *final(visitor)
                &&& *n == *old(node) && *final(n) == *final(node)
                &&& #[trigger] call_ensures(V::visit_float, (v, n), ())
            }),
        *old(node) is String ==> (exists|v: &mut V, n: &mut Type|
            {
                &&& *v == *old(visitor) && *final(v) == *final(visitor)
                &&& *n == *old(node) && *final(n) == *final(node)
                &&& #[trigger] call_ensures(V::visit_string, (v, n), ())
            }),
        *old(node) is Symbol ==> (exists|v: &mut V, n: &mut Type|
            {
                &&& *v == *old(visitor) && *final(v) == *final(visitor)
                &&& *n == *old(node) && *final(n) == *final(node)
                &&& #[trigger] call_ensures(V::visit_symbol, (v, n), ())
            }),
{
    match node {
        Type::Boolean(_) => visitor.visit_boolean(node),
        Type::Integer(_) => visitor.visit_integer(node),
        Type::Float(_) => visitor.visit_float(node),
        Type::String(_) => visitor.visit_string(node),
        Type::Symbol(_) => visitor.visit_symbol(node),
        Type::Nil => {
            // this is a leaf that no method is there for
        },
        Type::List(_) => {},
    }
}

} // verus!

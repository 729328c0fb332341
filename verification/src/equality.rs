//! Equality of values: two values are equal when they are the same atom, or
//! the same kind of collection with equal children in the same order.

use vstd::prelude::*;
use vstd::std_specs::cmp::PartialEqSpecImpl;
use crate::keyword::Keyword;
use crate::symbol::Symbol;
use crate::value::{lemma_collection_views, pair_views, views, Value, ValuePtr};

verus! {

fn same_symbol(a: &Symbol, b: &Symbol) -> (r: bool)
    ensures
        r == (a@ == b@),
{
    match (a, b) {
        (Symbol::Unqualified { name: l }, Symbol::Unqualified { name: r }) => *l == *r,
        (
            Symbol::Qualified { namespace: lns, name: l },
            Symbol::Qualified { namespace: rns, name: r },
        ) => *lns == *rns && *l == *r,
        _ => false,
    }
}

fn same_keyword(a: &Keyword, b: &Keyword) -> (r: bool)
    ensures
        r == (a@ == b@),
{
    match (a, b) {
        (Keyword::Unqualified { name: l }, Keyword::Unqualified { name: r }) => *l == *r,
        (
            Keyword::Qualified { namespace: lns, name: l },
            Keyword::Qualified { namespace: rns, name: r },
        ) => *lns == *rns && *l == *r,
        (Keyword::SelfQualified { name: l }, Keyword::SelfQualified { name: r }) => *l == *r,
        (
            Keyword::AliasQualified { alias: la, name: l },
            Keyword::AliasQualified { alias: ra, name: r },
        ) => *la == *ra && *l == *r,
        _ => false,
    }
}

fn same_children(a: &Vec<ValuePtr>, b: &Vec<ValuePtr>) -> (r: bool)
    ensures
        r == (views(a@) == views(b@)),
    decreases a,
{
    if a.len() != b.len() {
        assert(views(a@).len() != views(b@).len());
        return false;
    }
    let mut i: usize = 0;
    while i < a.len()
        invariant
            i <= a.len(),
            a.len() == b.len(),
            forall|k: int| 0 <= k < i ==> (*a@[k])@ == (*b@[k])@,
        decreases a.len() - i,
    {
        if !same_value(&a[i], &b[i]) {
            assert(views(a@)[i as int] != views(b@)[i as int]);
            return false;
        }
        i += 1;
    }
    assert(views(a@) =~= views(b@));
    true
}

fn same_pairs(a: &Vec<(ValuePtr, ValuePtr)>, b: &Vec<(ValuePtr, ValuePtr)>) -> (r: bool)
    ensures
        r == (pair_views(a@) == pair_views(b@)),
    decreases a,
{
    if a.len() != b.len() {
        assert(pair_views(a@).len() != pair_views(b@).len());
        return false;
    }
    let mut i: usize = 0;
    while i < a.len()
        invariant
            i <= a.len(),
            a.len() == b.len(),
            forall|k: int|
                0 <= k < i ==> (*a@[k].0)@ == (*b@[k].0)@ && (*a@[k].1)@ == (*b@[k].1)@,
        decreases a.len() - i,
    {
        if !same_value(&a[i].0, &b[i].0) || !same_value(&a[i].1, &b[i].1) {
            assert(pair_views(a@)[i as int] != pair_views(b@)[i as int]);
            return false;
        }
        i += 1;
    }
    assert(pair_views(a@) =~= pair_views(b@));
    true
}

fn same_value(a: &Value, b: &Value) -> (r: bool)
    ensures
        r == (a@ == b@),
    decreases a,
{
    proof {
        lemma_collection_views(*a);
        lemma_collection_views(*b);
    }
    match (a, b) {
        (Value::Nil, Value::Nil) => true,
        (Value::Bool(l0), Value::Bool(r0)) => *l0 == *r0,
        (Value::Num(l0), Value::Num(r0)) => *l0 == *r0,
        (Value::Str(l0), Value::Str(r0)) => *l0 == *r0,
        (Value::Keyword(l0), Value::Keyword(r0)) => same_keyword(l0, r0),
        (Value::Symbol(l0), Value::Symbol(r0)) => same_symbol(l0, r0),
        (Value::List(l0), Value::List(r0)) => same_children(l0, r0),
        (Value::Vect(l0), Value::Vect(r0)) => same_children(l0, r0),
        (Value::SetForm(l0), Value::SetForm(r0)) => same_children(l0, r0),
        (Value::MapForm(l0), Value::MapForm(r0)) => same_pairs(l0, r0),
        _ => false,
    }
}

impl PartialEq for Value {
    fn eq(&self, other: &Self) -> (r: bool) {
        same_value(self, other)
    }
}

impl PartialEqSpecImpl for Value {
    open spec fn obeys_eq_spec() -> bool {
        true
    }

    open spec fn eq_spec(&self, other: &Self) -> bool {
        self@ == other@
    }
}

} // verus!

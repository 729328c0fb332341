//! The immutable values that the reader produces.

use vstd::prelude::*;
use crate::keyword::{Keyword, KeywordView};
use crate::symbol::{Symbol, SymbolView};
use crate::text::{decimal, push_char, push_decimal};

verus! {

/// An owning pointer to a child value.
pub type ValuePtr = Box<Value>;

pub type RcValue = Value;

pub type ArcValue = Value;

pub type RcValuePtr = std::rc::Rc<Value>;

pub type ArcValuePtr = std::sync::Arc<Value>;

pub type RcValuePtrs = Vec<RcValuePtr>;

pub type ArcValuePtrs = Vec<ArcValuePtr>;

pub type List = Vec<ValuePtr>;

pub type Vect = Vec<ValuePtr>;

pub type SetForm = Vec<ValuePtr>;

pub type MapForm = Vec<(ValuePtr, ValuePtr)>;

/// A value as read: an atom, or a collection of values in the order written.
///
/// Sets and maps keep their elements as written; telling duplicates apart is
/// left to whoever consumes the value.
#[derive(Debug)]
pub enum Value {
    Nil,
    Bool(bool),
    Num(i64),
    /// The text between the quotes, as written.
    Str(String),
    Keyword(Keyword),
    Symbol(Symbol),
    /// `( ... )`
    List(List),
    /// `[ ... ]`
    Vect(Vect),
    /// `#{ ... }`
    SetForm(SetForm),
    /// `{ ... }`, as key-value pairs.
    MapForm(MapForm),
}

/// The mathematical value of a [`Value`].
pub enum ValueView {
    Nil,
    Bool(bool),
    Num(int),
    Str(Seq<char>),
    Keyword(KeywordView),
    Symbol(SymbolView),
    List(Seq<ValueView>),
    Vect(Seq<ValueView>),
    SetForm(Seq<ValueView>),
    MapForm(Seq<(ValueView, ValueView)>),
}

impl Value {
    /// The mathematical value, by recursion on the structure.
    pub open spec fn model(self) -> ValueView
        decreases self,
    {
        match self {
            Value::Nil => ValueView::Nil,
            Value::Bool(b) => ValueView::Bool(b),
            Value::Num(n) => ValueView::Num(n as int),
            Value::Str(s) => ValueView::Str(s@),
            Value::Keyword(k) => ValueView::Keyword(k@),
            Value::Symbol(s) => ValueView::Symbol(s@),
            Value::List(items) => ValueView::List(
                Seq::new(
                    items@.len(),
                    |i: int|
                        if 0 <= i < items@.len() {
                            (*items@[i]).model()
                        } else {
                            ValueView::Nil
                        },
                ),
            ),
            Value::Vect(items) => ValueView::Vect(
                Seq::new(
                    items@.len(),
                    |i: int|
                        if 0 <= i < items@.len() {
                            (*items@[i]).model()
                        } else {
                            ValueView::Nil
                        },
                ),
            ),
            Value::SetForm(items) => ValueView::SetForm(
                Seq::new(
                    items@.len(),
                    |i: int|
                        if 0 <= i < items@.len() {
                            (*items@[i]).model()
                        } else {
                            ValueView::Nil
                        },
                ),
            ),
            Value::MapForm(pairs) => ValueView::MapForm(
                Seq::new(
                    pairs@.len(),
                    |i: int|
                        if 0 <= i < pairs@.len() {
                            ((*pairs@[i].0).model(), (*pairs@[i].1).model())
                        } else {
                            (ValueView::Nil, ValueView::Nil)
                        },
                ),
            ),
        }
    }
}

impl View for Value {
    type V = ValueView;

    open spec fn view(&self) -> ValueView {
        self.model()
    }
}

/// The mathematical values of a run of children.
pub open spec fn views(items: Seq<ValuePtr>) -> Seq<ValueView> {
    Seq::new(items.len(), |i: int| (*items[i]).model())
}

/// The mathematical values of a run of key-value pairs.
pub open spec fn pair_views(pairs: Seq<(ValuePtr, ValuePtr)>) -> Seq<(ValueView, ValueView)> {
    Seq::new(pairs.len(), |i: int| ((*pairs[i].0).model(), (*pairs[i].1).model()))
}

/// The mathematical values of a run of values held directly.
pub open spec fn plain_views(items: Seq<Value>) -> Seq<ValueView> {
    Seq::new(items.len(), |i: int| items[i].model())
}

/// The mathematical values of a run of key-value pairs held directly.
pub open spec fn plain_pair_views(pairs: Seq<(Value, Value)>) -> Seq<(ValueView, ValueView)> {
    Seq::new(pairs.len(), |i: int| (pairs[i].0.model(), pairs[i].1.model()))
}

/// What a collection value is, in terms of its children.
pub proof fn lemma_collection_views(v: Value)
    ensures
        v matches Value::List(items) ==> v@ == ValueView::List(views(items@)),
        v matches Value::Vect(items) ==> v@ == ValueView::Vect(views(items@)),
        v matches Value::SetForm(items) ==> v@ == ValueView::SetForm(views(items@)),
        v matches Value::MapForm(pairs) ==> v@ == ValueView::MapForm(pair_views(pairs@)),
{
    match v {
        Value::List(items) => {
            assert(v@->List_0 =~= views(items@));
        },
        Value::Vect(items) => {
            assert(v@->Vect_0 =~= views(items@));
        },
        Value::SetForm(items) => {
            assert(v@->SetForm_0 =~= views(items@));
        },
        Value::MapForm(pairs) => {
            assert(v@->MapForm_0 =~= pair_views(pairs@));
        },
        _ => {},
    }
}

// which case a value is
impl Value {
    pub fn is_nil(&self) -> (b: bool)
        ensures
            b == (self@ is Nil),
    {
        match self {
            Value::Nil => true,
            _ => false,
        }
    }

    pub fn is_bool(&self) -> (b: bool)
        ensures
            b == (self@ is Bool),
    {
        match self {
            Value::Bool(..) => true,
            _ => false,
        }
    }

    pub fn is_num(&self) -> (b: bool)
        ensures
            b == (self@ is Num),
    {
        match self {
            Value::Num(..) => true,
            _ => false,
        }
    }

    pub fn is_str(&self) -> (b: bool)
        ensures
            b == (self@ is Str),
    {
        match self {
            Value::Str(..) => true,
            _ => false,
        }
    }

    pub fn is_keyword(&self) -> (b: bool)
        ensures
            b == (self@ is Keyword),
    {
        match self {
            Value::Keyword(..) => true,
            _ => false,
        }
    }

    pub fn is_symbol(&self) -> (b: bool)
        ensures
            b == (self@ is Symbol),
    {
        match self {
            Value::Symbol(..) => true,
            _ => false,
        }
    }

    pub fn is_list(&self) -> (b: bool)
        ensures
            b == (self@ is List),
    {
        match self {
            Value::List(..) => true,
            _ => false,
        }
    }

    pub fn is_vect(&self) -> (b: bool)
        ensures
            b == (self@ is Vect),
    {
        match self {
            Value::Vect(..) => true,
            _ => false,
        }
    }

    pub fn is_set(&self) -> (b: bool)
        ensures
            b == (self@ is SetForm),
    {
        match self {
            Value::SetForm(..) => true,
            _ => false,
        }
    }

    pub fn is_map(&self) -> (b: bool)
        ensures
            b == (self@ is MapForm),
    {
        match self {
            Value::MapForm(..) => true,
            _ => false,
        }
    }
}

// the children of a collection
impl Value {
    pub fn try_as_list(&self) -> (r: Option<&List>)
        ensures
            r is Some <==> self is List,
            r matches Some(items) ==> *self == Value::List(*items),
    {
        match self {
            Value::List(list) => Some(list),
            _ => None,
        }
    }

    pub fn as_list(&self) -> (items: &List)
        requires
            self is List,
        ensures
            *self == Value::List(*items),
    {
        match self {
            Value::List(list) => list,
            _ => vstd::pervasive::unreached(),
        }
    }

    pub fn try_into_list(self) -> (r: Option<List>)
        ensures
            r is Some <==> self is List,
            r matches Some(items) ==> self == Value::List(items),
    {
        match self {
            Value::List(list) => Some(list),
            _ => None,
        }
    }

    pub fn into_list(self) -> (items: List)
        requires
            self is List,
        ensures
            self == Value::List(items),
    {
        match self {
            Value::List(list) => list,
            _ => vstd::pervasive::unreached(),
        }
    }

    pub fn try_as_vect(&self) -> (r: Option<&Vect>)
        ensures
            r is Some <==> self is Vect,
            r matches Some(items) ==> *self == Value::Vect(*items),
    {
        match self {
            Value::Vect(vect) => Some(vect),
            _ => None,
        }
    }

    pub fn as_vect(&self) -> (items: &Vect)
        requires
            self is Vect,
        ensures
            *self == Value::Vect(*items),
    {
        match self {
            Value::Vect(vect) => vect,
            _ => vstd::pervasive::unreached(),
        }
    }

    pub fn try_into_vect(self) -> (r: Option<Vect>)
        ensures
            r is Some <==> self is Vect,
            r matches Some(items) ==> self == Value::Vect(items),
    {
        match self {
            Value::Vect(vect) => Some(vect),
            _ => None,
        }
    }

    pub fn into_vect(self) -> (items: Vect)
        requires
            self is Vect,
        ensures
            self == Value::Vect(items),
    {
        match self {
            Value::Vect(vect) => vect,
            _ => vstd::pervasive::unreached(),
        }
    }

    pub fn try_as_set(&self) -> (r: Option<&SetForm>)
        ensures
            r is Some <==> self is SetForm,
            r matches Some(items) ==> *self == Value::SetForm(*items),
    {
        match self {
            Value::SetForm(set) => Some(set),
            _ => None,
        }
    }

    pub fn as_set(&self) -> (items: &SetForm)
        requires
            self is SetForm,
        ensures
            *self == Value::SetForm(*items),
    {
        match self {
            Value::SetForm(set) => set,
            _ => vstd::pervasive::unreached(),
        }
    }

    pub fn try_into_set(self) -> (r: Option<SetForm>)
        ensures
            r is Some <==> self is SetForm,
            r matches Some(items) ==> self == Value::SetForm(items),
    {
        match self {
            Value::SetForm(set) => Some(set),
            _ => None,
        }
    }

    pub fn into_set(self) -> (items: SetForm)
        requires
            self is SetForm,
        ensures
            self == Value::SetForm(items),
    {
        match self {
            Value::SetForm(set) => set,
            _ => vstd::pervasive::unreached(),
        }
    }

    pub fn try_as_map(&self) -> (r: Option<&MapForm>)
        ensures
            r is Some <==> self is MapForm,
            r matches Some(pairs) ==> *self == Value::MapForm(*pairs),
    {
        match self {
            Value::MapForm(map) => Some(map),
            _ => None,
        }
    }

    pub fn as_map(&self) -> (pairs: &MapForm)
        requires
            self is MapForm,
        ensures
            *self == Value::MapForm(*pairs),
    {
        match self {
            Value::MapForm(map) => map,
            _ => vstd::pervasive::unreached(),
        }
    }

    pub fn try_into_map(self) -> (r: Option<MapForm>)
        ensures
            r is Some <==> self is MapForm,
            r matches Some(pairs) ==> self == Value::MapForm(pairs),
    {
        match self {
            Value::MapForm(map) => Some(map),
            _ => None,
        }
    }

    pub fn into_map(self) -> (pairs: MapForm)
        requires
            self is MapForm,
        ensures
            self == Value::MapForm(pairs),
    {
        match self {
            Value::MapForm(map) => map,
            _ => vstd::pervasive::unreached(),
        }
    }
}

/// Moves each value behind a pointer of its own, keeping the order.
fn box_all(values: Vec<Value>) -> (ptrs: Vec<ValuePtr>)
    ensures
        views(ptrs@) == plain_views(values@),
{
    let mut ptrs: Vec<ValuePtr> = Vec::new();
    for v in it: values
        invariant
            it.seq() == values@,
            ptrs@.len() == it.index(),
            forall|k: int| 0 <= k < ptrs@.len() ==> *ptrs@[k] == values@[k],
    {
        ptrs.push(Box::new(v));
    }
    assert(views(ptrs@) =~= plain_views(values@));
    ptrs
}

/// Moves each key and each value behind a pointer of its own, keeping the order.
fn box_all_pairs(pairs: Vec<(Value, Value)>) -> (ptrs: Vec<(ValuePtr, ValuePtr)>)
    ensures
        pair_views(ptrs@) == plain_pair_views(pairs@),
{
    let mut ptrs: Vec<(ValuePtr, ValuePtr)> = Vec::new();
    for kv in it: pairs
        invariant
            it.seq() == pairs@,
            ptrs@.len() == it.index(),
            forall|k: int|
                0 <= k < ptrs@.len() ==> *ptrs@[k].0 == pairs@[k].0 && *ptrs@[k].1 == pairs@[k].1,
    {
        let (k, v) = kv;
        ptrs.push((Box::new(k), Box::new(v)));
    }
    assert(pair_views(ptrs@) =~= plain_pair_views(pairs@));
    ptrs
}

// constructors
impl Value {
    pub fn string(s: String) -> (v: Self)
        ensures
            v@ == ValueView::Str(s@),
    {
        Value::Str(s)
    }

    pub fn empty_list() -> (v: Self)
        ensures
            v@ == ValueView::List(Seq::empty()),
    {
        let v = Value::List(Vec::new());
        proof {
            lemma_collection_views(v);
            assert(views(Seq::<ValuePtr>::empty()) =~= Seq::<ValueView>::empty());
        }
        v
    }

    pub fn list_from_values(values: Vec<Value>) -> (v: Self)
        ensures
            v@ == ValueView::List(plain_views(values@)),
    {
        let v = Value::List(box_all(values));
        proof {
            lemma_collection_views(v);
        }
        v
    }

    pub fn list_from_value_ptrs(ptrs: Vec<ValuePtr>) -> (v: Self)
        ensures
            v == Value::List(ptrs),
            v@ == ValueView::List(views(ptrs@)),
    {
        let v = Value::List(ptrs);
        proof {
            lemma_collection_views(v);
        }
        v
    }

    pub fn list_ptr_from_values(values: Vec<Value>) -> (p: ValuePtr)
        ensures
            p@ == ValueView::List(plain_views(values@)),
    {
        Box::new(Value::list_from_values(values))
    }

    pub fn list_ptr_from_value_ptrs(ptrs: Vec<ValuePtr>) -> (p: ValuePtr)
        ensures
            *p == Value::List(ptrs),
            p@ == ValueView::List(views(ptrs@)),
    {
        Box::new(Value::list_from_value_ptrs(ptrs))
    }

    pub fn empty_vect() -> (v: Self)
        ensures
            v@ == ValueView::Vect(Seq::empty()),
    {
        let v = Value::Vect(Vec::new());
        proof {
            lemma_collection_views(v);
            assert(views(Seq::<ValuePtr>::empty()) =~= Seq::<ValueView>::empty());
        }
        v
    }

    pub fn vect_from_values(values: Vec<Value>) -> (v: Self)
        ensures
            v@ == ValueView::Vect(plain_views(values@)),
    {
        let v = Value::Vect(box_all(values));
        proof {
            lemma_collection_views(v);
        }
        v
    }

    pub fn vect_from_value_ptrs(ptrs: Vec<ValuePtr>) -> (v: Self)
        ensures
            v == Value::Vect(ptrs),
            v@ == ValueView::Vect(views(ptrs@)),
    {
        let v = Value::Vect(ptrs);
        proof {
            lemma_collection_views(v);
        }
        v
    }

    pub fn vect_ptr_from_values(values: Vec<Value>) -> (p: ValuePtr)
        ensures
            p@ == ValueView::Vect(plain_views(values@)),
    {
        Box::new(Value::vect_from_values(values))
    }

    pub fn vect_ptr_from_value_ptrs(ptrs: Vec<ValuePtr>) -> (p: ValuePtr)
        ensures
            *p == Value::Vect(ptrs),
            p@ == ValueView::Vect(views(ptrs@)),
    {
        Box::new(Value::vect_from_value_ptrs(ptrs))
    }

    pub fn empty_set() -> (v: Self)
        ensures
            v@ == ValueView::SetForm(Seq::empty()),
    {
        let v = Value::SetForm(Vec::new());
        proof {
            lemma_collection_views(v);
            assert(views(Seq::<ValuePtr>::empty()) =~= Seq::<ValueView>::empty());
        }
        v
    }

    pub fn set_from_values(values: Vec<Value>) -> (v: Self)
        ensures
            v@ == ValueView::SetForm(plain_views(values@)),
    {
        let v = Value::SetForm(box_all(values));
        proof {
            lemma_collection_views(v);
        }
        v
    }

    pub fn set_from_value_ptrs(ptrs: Vec<ValuePtr>) -> (v: Self)
        ensures
            v == Value::SetForm(ptrs),
            v@ == ValueView::SetForm(views(ptrs@)),
    {
        let v = Value::SetForm(ptrs);
        proof {
            lemma_collection_views(v);
        }
        v
    }

    pub fn set_ptr_from_values(values: Vec<Value>) -> (p: ValuePtr)
        ensures
            p@ == ValueView::SetForm(plain_views(values@)),
    {
        Box::new(Value::set_from_values(values))
    }

    pub fn set_ptr_from_value_ptrs(ptrs: Vec<ValuePtr>) -> (p: ValuePtr)
        ensures
            *p == Value::SetForm(ptrs),
            p@ == ValueView::SetForm(views(ptrs@)),
    {
        Box::new(Value::set_from_value_ptrs(ptrs))
    }

    pub fn empty_map() -> (v: Self)
        ensures
            v@ == ValueView::MapForm(Seq::empty()),
    {
        let v = Value::MapForm(Vec::new());
        proof {
            lemma_collection_views(v);
            assert(pair_views(Seq::<(ValuePtr, ValuePtr)>::empty()) =~= Seq::<
                (ValueView, ValueView),
            >::empty());
        }
        v
    }

    pub fn map_from_value_pairs(pairs: Vec<(Value, Value)>) -> (v: Self)
        ensures
            v@ == ValueView::MapForm(plain_pair_views(pairs@)),
    {
        let v = Value::MapForm(box_all_pairs(pairs));
        proof {
            lemma_collection_views(v);
        }
        v
    }

    pub fn map_from_value_ptr_pairs(ptrs: Vec<(ValuePtr, ValuePtr)>) -> (v: Self)
        ensures
            v == Value::MapForm(ptrs),
            v@ == ValueView::MapForm(pair_views(ptrs@)),
    {
        let v = Value::MapForm(ptrs);
        proof {
            lemma_collection_views(v);
        }
        v
    }

    pub fn map_ptr_from_values(pairs: Vec<(Value, Value)>) -> (p: ValuePtr)
        ensures
            p@ == ValueView::MapForm(plain_pair_views(pairs@)),
    {
        Box::new(Value::map_from_value_pairs(pairs))
    }

    pub fn map_ptr_from_value_ptrs(ptrs: Vec<(ValuePtr, ValuePtr)>) -> (p: ValuePtr)
        ensures
            *p == Value::MapForm(ptrs),
            p@ == ValueView::MapForm(pair_views(ptrs@)),
    {
        Box::new(Value::map_from_value_ptr_pairs(ptrs))
    }

    pub fn symbol(symbol: Symbol) -> (v: Self)
        ensures
            v@ == ValueView::Symbol(symbol@),
    {
        Value::Symbol(symbol)
    }

    pub fn unqualified_symbol(name: String) -> (v: Self)
        ensures
            v@ == ValueView::Symbol(SymbolView::Unqualified { name: name@ }),
    {
        Value::Symbol(Symbol::unqualified(name))
    }

    pub fn qualified_symbol(namespace: String, name: String) -> (v: Self)
        ensures
            v@ == ValueView::Symbol(SymbolView::Qualified { namespace: namespace@, name: name@ }),
    {
        Value::Symbol(Symbol::qualified(namespace, name))
    }

    pub fn keyword(keyword: Keyword) -> (v: Self)
        ensures
            v@ == ValueView::Keyword(keyword@),
    {
        Value::Keyword(keyword)
    }

    pub fn unqualified_keyword(name: String) -> (v: Self)
        ensures
            v@ == ValueView::Keyword(KeywordView::Unqualified { name: name@ }),
    {
        Value::Keyword(Keyword::unqualified(name))
    }

    pub fn qualified_keyword(namespace: String, name: String) -> (v: Self)
        ensures
            v@ == ValueView::Keyword(
                KeywordView::Qualified { namespace: namespace@, name: name@ },
            ),
    {
        Value::Keyword(Keyword::qualified(namespace, name))
    }

    pub fn self_qualified_keyword(name: String) -> (v: Self)
        ensures
            v@ == ValueView::Keyword(KeywordView::SelfQualified { name: name@ }),
    {
        Value::Keyword(Keyword::self_qualified(name))
    }

    pub fn alias_qualified_keyword(alias: String, name: String) -> (v: Self)
        ensures
            v@ == ValueView::Keyword(KeywordView::AliasQualified { alias: alias@, name: name@ }),
    {
        Value::Keyword(Keyword::alias_qualified(alias, name))
    }

    pub fn to_ptr(self) -> (p: ValuePtr)
        ensures
            *p == self,
    {
        Box::new(self)
    }

    /// Hands the value over to shared, single-threaded ownership.
    pub fn to_rc(self) -> (p: RcValuePtr)
        ensures
            *p == self,
    {
        std::rc::Rc::new(self)
    }

    /// Hands the value over to shared ownership across threads.
    pub fn to_arc(self) -> (p: ArcValuePtr)
        ensures
            *p == self,
    {
        std::sync::Arc::new(self)
    }
}

/// A copy of each child, in order.
fn clone_all(items: &Vec<ValuePtr>) -> (copies: Vec<ValuePtr>)
    ensures
        views(copies@) == views(items@),
    decreases items,
{
    let mut copies: Vec<ValuePtr> = Vec::new();
    let mut i: usize = 0;
    while i < items.len()
        invariant
            i <= items.len(),
            copies@.len() == i,
            forall|k: int| 0 <= k < i ==> (*copies@[k])@ == (*items@[k])@,
        decreases items.len() - i,
    {
        let copy = Value::clone(&items[i]);
        copies.push(Box::new(copy));
        i += 1;
    }
    assert(views(copies@) =~= views(items@));
    copies
}

/// A copy of each key and each value, in order.
fn clone_all_pairs(pairs: &Vec<(ValuePtr, ValuePtr)>) -> (copies: Vec<(ValuePtr, ValuePtr)>)
    ensures
        pair_views(copies@) == pair_views(pairs@),
    decreases pairs,
{
    let mut copies: Vec<(ValuePtr, ValuePtr)> = Vec::new();
    let mut i: usize = 0;
    while i < pairs.len()
        invariant
            i <= pairs.len(),
            copies@.len() == i,
            forall|k: int|
                0 <= k < i ==> (*copies@[k].0)@ == (*pairs@[k].0)@ && (*copies@[k].1)@ == (
                *pairs@[k].1)@,
        decreases pairs.len() - i,
    {
        let key = Value::clone(&pairs[i].0);
        let value = Value::clone(&pairs[i].1);
        copies.push((Box::new(key), Box::new(value)));
        i += 1;
    }
    assert(pair_views(copies@) =~= pair_views(pairs@));
    copies
}

impl Value {
    /// A copy of this value: the same atoms, the same children in the same
    /// order.
    pub fn clone(&self) -> (v: Self)
        ensures
            v@ == self@,
        decreases self,
    {
        proof {
            lemma_collection_views(*self);
        }
        let v = match self {
            Value::Nil => Value::Nil,
            Value::Bool(b) => Value::Bool(*b),
            Value::Num(n) => Value::Num(*n),
            Value::Str(s) => Value::Str(s.clone()),
            Value::Keyword(k) => Value::Keyword(k.duplicate()),
            Value::Symbol(s) => Value::Symbol(s.duplicate()),
            Value::List(items) => Value::List(clone_all(items)),
            Value::Vect(items) => Value::Vect(clone_all(items)),
            Value::SetForm(items) => Value::SetForm(clone_all(items)),
            Value::MapForm(pairs) => Value::MapForm(clone_all_pairs(pairs)),
        };
        proof {
            lemma_collection_views(v);
        }
        v
    }
}

impl ValueView {
    /// The value as it is written. Collections hold their children in order,
    /// with a space between them; a map holds each key with its value, with a
    /// comma and a space between the pairs.
    pub open spec fn text(self) -> Seq<char>
        decreases self, 0nat,
    {
        match self {
            ValueView::Nil => "nil"@,
            ValueView::Bool(b) => if b {
                "true"@
            } else {
                "false"@
            },
            ValueView::Num(n) => decimal(n),
            ValueView::Str(s) => seq!['"'] + s + seq!['"'],
            ValueView::Keyword(k) => k.text(),
            ValueView::Symbol(s) => s.text(),
            ValueView::List(items) => seq!['('] + joined(items, items.len()) + seq![')'],
            ValueView::Vect(items) => seq!['['] + joined(items, items.len()) + seq![']'],
            ValueView::SetForm(items) => seq!['#', '{'] + joined(items, items.len()) + seq!['}'],
            ValueView::MapForm(pairs) => seq!['{'] + joined_pairs(pairs, pairs.len()) + seq!['}'],
        }
    }
}

/// The first `n` of `items` as they are written, with a space between them.
pub open spec fn joined(items: Seq<ValueView>, n: nat) -> Seq<char>
    decreases items, n,
{
    if n == 0 || n > items.len() {
        Seq::empty()
    } else if n == 1 {
        items[0].text()
    } else {
        joined(items, (n - 1) as nat) + seq![' '] + items[n - 1].text()
    }
}

/// The first `n` of `pairs` as they are written: each key, a space and its
/// value, with a comma and a space between the pairs.
pub open spec fn joined_pairs(pairs: Seq<(ValueView, ValueView)>, n: nat) -> Seq<char>
    decreases pairs, n,
{
    if n == 0 || n > pairs.len() {
        Seq::empty()
    } else if n == 1 {
        pairs[0].0.text() + seq![' '] + pairs[0].1.text()
    } else {
        joined_pairs(pairs, (n - 1) as nat) + seq![',', ' '] + pairs[n - 1].0.text() + seq![' ']
            + pairs[n - 1].1.text()
    }
}

/// Appends the children as they are written, with a space between them.
fn append_joined(s: &mut String, items: &Vec<ValuePtr>)
    ensures
        final(s)@ == old(s)@ + joined(views(items@), items@.len()),
    decreases items,
{
    let mut i: usize = 0;
    assert(s@ =~= old(s)@ + joined(views(items@), 0));
    while i < items.len()
        invariant
            i <= items.len(),
            s@ == old(s)@ + joined(views(items@), i as nat),
        decreases items.len() - i,
    {
        let ghost before = s@;
        if i > 0 {
            push_char(s, ' ');
        }
        append_value(s, &items[i]);
        proof {
            assert(views(items@)[i as int] == (*items@[i as int])@);
            assert(s@ =~= old(s)@ + joined(views(items@), (i + 1) as nat));
        }
        i += 1;
    }
}

/// Appends the pairs as they are written, with a comma and a space between
/// them.
fn append_joined_pairs(s: &mut String, pairs: &Vec<(ValuePtr, ValuePtr)>)
    ensures
        final(s)@ == old(s)@ + joined_pairs(pair_views(pairs@), pairs@.len()),
    decreases pairs,
{
    let mut i: usize = 0;
    assert(s@ =~= old(s)@ + joined_pairs(pair_views(pairs@), 0));
    while i < pairs.len()
        invariant
            i <= pairs.len(),
            s@ == old(s)@ + joined_pairs(pair_views(pairs@), i as nat),
        decreases pairs.len() - i,
    {
        if i > 0 {
            push_char(s, ',');
            push_char(s, ' ');
        }
        append_value(s, &pairs[i].0);
        push_char(s, ' ');
        append_value(s, &pairs[i].1);
        proof {
            assert(pair_views(pairs@)[i as int] == ((*pairs@[i as int].0)@, (*pairs@[i as int].1)@));
            assert(s@ =~= old(s)@ + joined_pairs(pair_views(pairs@), (i + 1) as nat));
        }
        i += 1;
    }
}

/// Appends the value as it is written.
fn append_value(s: &mut String, v: &Value)
    ensures
        final(s)@ == old(s)@ + v@.text(),
    decreases v,
{
    proof {
        lemma_collection_views(*v);
    }
    match v {
        Value::Nil => {
            s.append("nil");
        },
        Value::Bool(b) => {
            if *b {
                s.append("true");
            } else {
                s.append("false");
            }
        },
        Value::Num(n) => {
            push_decimal(s, *n);
        },
        Value::Str(text) => {
            push_char(s, '"');
            s.append(text.as_str());
            push_char(s, '"');
            assert(s@ =~= old(s)@ + (seq!['"'] + text@ + seq!['"']));
        },
        Value::Keyword(k) => {
            let text = k.to_string();
            s.append(text.as_str());
        },
        Value::Symbol(sym) => {
            let text = sym.to_string();
            s.append(text.as_str());
        },
        Value::List(items) => {
            push_char(s, '(');
            append_joined(s, items);
            push_char(s, ')');
            assert(s@ =~= old(s)@ + (seq!['('] + joined(views(items@), items@.len()) + seq![')']));
        },
        Value::Vect(items) => {
            push_char(s, '[');
            append_joined(s, items);
            push_char(s, ']');
            assert(s@ =~= old(s)@ + (seq!['['] + joined(views(items@), items@.len()) + seq![']']));
        },
        Value::SetForm(items) => {
            push_char(s, '#');
            push_char(s, '{');
            append_joined(s, items);
            push_char(s, '}');
            assert(s@ =~= old(s)@ + (seq!['#', '{'] + joined(views(items@), items@.len())
                + seq!['}']));
        },
        Value::MapForm(pairs) => {
            push_char(s, '{');
            append_joined_pairs(s, pairs);
            push_char(s, '}');
            assert(s@ =~= old(s)@ + (seq!['{'] + joined_pairs(pair_views(pairs@), pairs@.len())
                + seq!['}']));
        },
    }
}

impl Value {
    /// The value as it is written.
    pub fn to_string(&self) -> (s: String)
        ensures
            s@ == self@.text(),
    {
        let mut s = String::new();
        append_value(&mut s, self);
        assert(Seq::<char>::empty() + self@.text() =~= self@.text());
        s
    }
}

} // verus!

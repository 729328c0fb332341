//! Symbols: plain names, optionally qualified by a namespace.

use vstd::prelude::*;

verus! {

/// A symbol as written in source.
#[derive(Debug, Clone, PartialEq, Eq, Hash, PartialOrd, Ord)]
pub enum Symbol {
    /// `foo`
    Unqualified { name: String },
    /// `foo/bar`
    Qualified { namespace: String, name: String },
}

/// The mathematical value of a [`Symbol`]: its parts as character sequences.
pub enum SymbolView {
    Unqualified { name: Seq<char> },
    Qualified { namespace: Seq<char>, name: Seq<char> },
}

impl SymbolView {
    pub open spec fn name(self) -> Seq<char> {
        match self {
            SymbolView::Unqualified { name } => name,
            SymbolView::Qualified { name, .. } => name,
        }
    }

    pub open spec fn try_namespace(self) -> Option<Seq<char>> {
        match self {
            SymbolView::Unqualified { .. } => None,
            SymbolView::Qualified { namespace, .. } => Some(namespace),
        }
    }

    /// The symbol as it is written: `name` or `namespace/name`.
    pub open spec fn text(self) -> Seq<char> {
        match self {
            SymbolView::Unqualified { name } => name,
            SymbolView::Qualified { namespace, name } => namespace + seq!['/'] + name,
        }
    }
}

impl View for Symbol {
    type V = SymbolView;

    open spec fn view(&self) -> SymbolView {
        match self {
            Symbol::Unqualified { name } => SymbolView::Unqualified { name: name@ },
            Symbol::Qualified { namespace, name } => SymbolView::Qualified {
                namespace: namespace@,
                name: name@,
            },
        }
    }
}

// constructors
impl Symbol {
    pub fn qualified(namespace: String, name: String) -> (sym: Self)
        ensures
            sym@ == (SymbolView::Qualified { namespace: namespace@, name: name@ }),
    {
        Symbol::Qualified { namespace, name }
    }

    pub fn unqualified(name: String) -> (sym: Self)
        ensures
            sym@ == (SymbolView::Unqualified { name: name@ }),
    {
        Symbol::Unqualified { name }
    }
}

// data readers
impl Symbol {
    pub fn try_namespace(&self) -> (ns: Option<String>)
        ensures
            ns is Some <==> self is Qualified,
            ns matches Some(s) ==> Some(s@) == self@.try_namespace(),
    {
        match self {
            Symbol::Unqualified { .. } => None,
            Symbol::Qualified { namespace, .. } => Some(namespace.clone()),
        }
    }

    pub fn name(&self) -> (n: String)
        ensures
            n@ == self@.name(),
    {
        match self {
            Symbol::Unqualified { name } => name.clone(),
            Symbol::Qualified { name, .. } => name.clone(),
        }
    }

    /// The namespace of a qualified symbol.
    pub fn namespace(&self) -> (ns: String)
        requires
            self is Qualified,
        ensures
            Some(ns@) == self@.try_namespace(),
    {
        match self {
            Symbol::Unqualified { .. } => vstd::pervasive::unreached(),
            Symbol::Qualified { namespace, .. } => namespace.clone(),
        }
    }

    /// A copy of this symbol.
    pub fn duplicate(&self) -> (sym: Self)
        ensures
            sym@ == self@,
    {
        match self {
            Symbol::Unqualified { name } => Symbol::Unqualified { name: name.clone() },
            Symbol::Qualified { namespace, name } => Symbol::Qualified {
                namespace: namespace.clone(),
                name: name.clone(),
            },
        }
    }

    /// The symbol as it is written: `name` or `namespace/name`.
    pub fn to_string(&self) -> (s: String)
        ensures
            s@ == self@.text(),
    {
        match self {
            Symbol::Unqualified { name } => name.clone(),
            Symbol::Qualified { namespace, name } => {
                let mut s = namespace.clone();
                s.append("/");
                proof {
                    reveal_strlit("/");
                    assert("/"@ =~= seq!['/']);
                }
                s.append(name.as_str());
                s
            },
        }
    }
}

} // verus!

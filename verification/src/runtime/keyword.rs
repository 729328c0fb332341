//! Runtime keywords: a symbol in keyword position.

use vstd::prelude::*;
use crate::symbol::{Symbol, SymbolView};

verus! {

/// `:foo` or `:foo/bar`, held as the symbol that follows the colon.
#[derive(Debug, Clone, PartialEq)]
pub struct Keyword(pub Symbol);

impl View for Keyword {
    type V = SymbolView;

    open spec fn view(&self) -> SymbolView {
        self.0@
    }
}

impl Keyword {
    pub fn from_symbol(symbol: Symbol) -> (kw: Self)
        ensures
            kw.0 == symbol,
    {
        Keyword(symbol)
    }

    pub fn unqualified(name: String) -> (kw: Self)
        ensures
            kw@ == (SymbolView::Unqualified { name: name@ }),
    {
        Keyword(Symbol::unqualified(name))
    }

    pub fn qualified(namespace: String, name: String) -> (kw: Self)
        ensures
            kw@ == (SymbolView::Qualified { namespace: namespace@, name: name@ }),
    {
        Keyword(Symbol::qualified(namespace, name))
    }

    pub fn symbol(&self) -> (sym: Symbol)
        ensures
            sym@ == self@,
    {
        self.0.duplicate()
    }

    pub fn namespace(&self) -> (ns: Option<String>)
        ensures
            ns is Some <==> self.0 is Qualified,
            ns matches Some(s) ==> Some(s@) == self@.try_namespace(),
    {
        self.0.try_namespace()
    }

    pub fn name(&self) -> (n: String)
        ensures
            n@ == self@.name(),
    {
        self.0.name()
    }

    /// The keyword as it is written: a colon, then the symbol.
    pub fn to_string(&self) -> (s: String)
        ensures
            s@ == seq![':'] + self@.text(),
    {
        let mut s = String::from_str(":");
        proof {
            reveal_strlit(":");
            assert(":"@ =~= seq![':']);
        }
        let sym = self.0.to_string();
        s.append(sym.as_str());
        s
    }
}

} // verus!

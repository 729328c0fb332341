//! Keywords as the reader sees them, before any namespace is resolved.

use vstd::prelude::*;

verus! {

/// A keyword as written in source.
#[derive(Debug, Clone, PartialEq)]
pub enum Keyword {
    /// `:foo`
    Unqualified { name: String },
    /// `:foo/bar`
    Qualified { namespace: String, name: String },
    /// `::foo`, to be resolved in the current namespace at a later stage.
    SelfQualified { name: String },
    /// `::abc/foo`, where `abc` is an alias of some namespace.
    AliasQualified { alias: String, name: String },
}

/// The mathematical value of a [`Keyword`].
pub enum KeywordView {
    Unqualified { name: Seq<char> },
    Qualified { namespace: Seq<char>, name: Seq<char> },
    SelfQualified { name: Seq<char> },
    AliasQualified { alias: Seq<char>, name: Seq<char> },
}

impl KeywordView {
    /// The keyword as it is written, colons included.
    pub open spec fn text(self) -> Seq<char> {
        match self {
            KeywordView::Unqualified { name } => seq![':'] + name,
            KeywordView::Qualified { namespace, name } => seq![':'] + namespace + seq!['/'] + name,
            KeywordView::SelfQualified { name } => seq![':', ':'] + name,
            KeywordView::AliasQualified { alias, name } => seq![':', ':'] + alias + seq!['/']
                + name,
        }
    }
}

impl View for Keyword {
    type V = KeywordView;

    open spec fn view(&self) -> KeywordView {
        match self {
            Keyword::Unqualified { name } => KeywordView::Unqualified { name: name@ },
            Keyword::Qualified { namespace, name } => KeywordView::Qualified {
                namespace: namespace@,
                name: name@,
            },
            Keyword::SelfQualified { name } => KeywordView::SelfQualified { name: name@ },
            Keyword::AliasQualified { alias, name } => KeywordView::AliasQualified {
                alias: alias@,
                name: name@,
            },
        }
    }
}

impl Keyword {
    pub fn unqualified(name: String) -> (kw: Self)
        ensures
            kw@ == (KeywordView::Unqualified { name: name@ }),
    {
        Keyword::Unqualified { name }
    }

    pub fn qualified(namespace: String, name: String) -> (kw: Self)
        ensures
            kw@ == (KeywordView::Qualified { namespace: namespace@, name: name@ }),
    {
        Keyword::Qualified { namespace, name }
    }

    pub fn self_qualified(name: String) -> (kw: Self)
        ensures
            kw@ == (KeywordView::SelfQualified { name: name@ }),
    {
        Keyword::SelfQualified { name }
    }

    pub fn alias_qualified(alias: String, name: String) -> (kw: Self)
        ensures
            kw@ == (KeywordView::AliasQualified { alias: alias@, name: name@ }),
    {
        Keyword::AliasQualified { alias, name }
    }

    /// A copy of this keyword.
    pub fn duplicate(&self) -> (kw: Self)
        ensures
            kw@ == self@,
    {
        match self {
            Keyword::Unqualified { name } => Keyword::Unqualified { name: name.clone() },
            Keyword::Qualified { namespace, name } => Keyword::Qualified {
                namespace: namespace.clone(),
                name: name.clone(),
            },
            Keyword::SelfQualified { name } => Keyword::SelfQualified { name: name.clone() },
            Keyword::AliasQualified { alias, name } => Keyword::AliasQualified {
                alias: alias.clone(),
                name: name.clone(),
            },
        }
    }

    /// The keyword as it is written, colons included.
    pub fn to_string(&self) -> (s: String)
        ensures
            s@ == self@.text(),
    {
        proof {
            reveal_strlit(":");
            reveal_strlit("::");
            reveal_strlit("/");
            assert(":"@ =~= seq![':']);
            assert("::"@ =~= seq![':', ':']);
            assert("/"@ =~= seq!['/']);
        }
        match self {
            Keyword::Unqualified { name } => {
                let mut s = String::from_str(":");
                s.append(name.as_str());
                s
            },
            Keyword::Qualified { namespace, name } => {
                let mut s = String::from_str(":");
                s.append(namespace.as_str());
                s.append("/");
                s.append(name.as_str());
                s
            },
            Keyword::SelfQualified { name } => {
                let mut s = String::from_str("::");
                s.append(name.as_str());
                s
            },
            Keyword::AliasQualified { alias, name } => {
                let mut s = String::from_str("::");
                s.append(alias.as_str());
                s.append("/");
                s.append(name.as_str());
                s
            },
        }
    }
}

} // verus!

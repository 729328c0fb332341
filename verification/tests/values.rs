use cljrs::keyword::Keyword;
use cljrs::reader;
use cljrs::runtime::keyword::Keyword as RuntimeKeyword;
use cljrs::symbol::Symbol;
use cljrs::value::{Value, ValuePtr};
use cljrs::{SpanValue, WithSpan};

fn s(text: &str) -> String {
    String::from(text)
}

fn sym(name: &str) -> Value {
    Value::unqualified_symbol(s(name))
}

fn one_of_each() -> Vec<Value> {
    vec![
        Value::Nil,
        Value::Bool(true),
        Value::Num(7),
        Value::string(s("x")),
        Value::unqualified_keyword(s("k")),
        sym("a"),
        Value::list_from_values(vec![sym("a")]),
        Value::vect_from_values(vec![sym("a")]),
        Value::set_from_values(vec![sym("a")]),
        Value::map_from_value_pairs(vec![(sym("a"), sym("b"))]),
    ]
}

#[test]
fn symbol_parts() {
    let plain = Symbol::unqualified(s("foo"));
    assert_eq!(plain, Symbol::Unqualified { name: s("foo") });
    assert_eq!(plain.name(), "foo");
    assert_eq!(plain.try_namespace(), None);
    assert_eq!(plain.to_string(), "foo");

    let qualified = Symbol::qualified(s("ns"), s("foo"));
    assert_eq!(
        qualified,
        Symbol::Qualified {
            namespace: s("ns"),
            name: s("foo")
        }
    );
    assert_eq!(qualified.name(), "foo");
    assert_eq!(qualified.try_namespace(), Some(s("ns")));
    assert_eq!(qualified.namespace(), "ns");
    assert_eq!(qualified.to_string(), "ns/foo");
    assert_eq!(qualified.duplicate(), qualified);
    assert_ne!(qualified, plain);
}

#[test]
fn keyword_shapes() {
    assert_eq!(
        Keyword::unqualified(s("a")),
        Keyword::Unqualified { name: s("a") }
    );
    assert_eq!(
        Keyword::qualified(s("n"), s("a")),
        Keyword::Qualified {
            namespace: s("n"),
            name: s("a")
        }
    );
    assert_eq!(
        Keyword::self_qualified(s("a")),
        Keyword::SelfQualified { name: s("a") }
    );
    assert_eq!(
        Keyword::alias_qualified(s("n"), s("a")),
        Keyword::AliasQualified {
            alias: s("n"),
            name: s("a")
        }
    );
    assert_eq!(Keyword::unqualified(s("a")).to_string(), ":a");
    assert_eq!(Keyword::qualified(s("n"), s("a")).to_string(), ":n/a");
    assert_eq!(Keyword::self_qualified(s("a")).to_string(), "::a");
    assert_eq!(Keyword::alias_qualified(s("n"), s("a")).to_string(), "::n/a");
    let kw = Keyword::alias_qualified(s("n"), s("a"));
    assert_eq!(kw.duplicate(), kw);
}

#[test]
fn runtime_keyword_is_a_symbol_behind_a_colon() {
    let kw = RuntimeKeyword::qualified(s("n"), s("a"));
    assert_eq!(kw, RuntimeKeyword::from_symbol(Symbol::qualified(s("n"), s("a"))));
    assert_eq!(kw.symbol(), Symbol::qualified(s("n"), s("a")));
    assert_eq!(kw.namespace(), Some(s("n")));
    assert_eq!(kw.name(), "a");
    assert_eq!(kw.to_string(), ":n/a");

    let kw = RuntimeKeyword::unqualified(s("a"));
    assert_eq!(kw.symbol(), Symbol::unqualified(s("a")));
    assert_eq!(kw.namespace(), None);
    assert_eq!(kw.name(), "a");
    assert_eq!(kw.to_string(), ":a");
}

#[test]
fn each_value_is_of_one_kind() {
    let tests: Vec<fn(&Value) -> bool> = vec![
        Value::is_nil,
        Value::is_bool,
        Value::is_num,
        Value::is_str,
        Value::is_keyword,
        Value::is_symbol,
        Value::is_list,
        Value::is_vect,
        Value::is_set,
        Value::is_map,
    ];
    for (i, value) in one_of_each().iter().enumerate() {
        for (j, test) in tests.iter().enumerate() {
            assert_eq!(test(value), i == j, "{:?} {}", value, j);
        }
    }
}

#[test]
fn children_of_collections() {
    let children = vec![ValuePtr::from(sym("a")), ValuePtr::from(sym("b"))];
    let copy = || vec![ValuePtr::from(sym("a")), ValuePtr::from(sym("b"))];

    let list = Value::list_from_value_ptrs(copy());
    assert_eq!(list.try_as_list(), Some(&children));
    assert_eq!(list.as_list(), &children);
    assert_eq!(list.try_as_vect(), None);
    assert_eq!(list.try_as_set(), None);
    assert_eq!(list.try_as_map(), None);
    assert_eq!(Value::list_from_value_ptrs(copy()).try_into_list(), Some(copy()));
    assert_eq!(Value::list_from_value_ptrs(copy()).into_list(), copy());
    assert_eq!(Value::list_from_value_ptrs(copy()).try_into_vect(), None);

    let vect = Value::vect_from_value_ptrs(copy());
    assert_eq!(vect.try_as_vect(), Some(&children));
    assert_eq!(vect.as_vect(), &children);
    assert_eq!(vect.try_as_list(), None);
    assert_eq!(Value::vect_from_value_ptrs(copy()).try_into_vect(), Some(copy()));
    assert_eq!(Value::vect_from_value_ptrs(copy()).into_vect(), copy());
    assert_eq!(Value::vect_from_value_ptrs(copy()).try_into_set(), None);

    let set = Value::set_from_value_ptrs(copy());
    assert_eq!(set.try_as_set(), Some(&children));
    assert_eq!(set.as_set(), &children);
    assert_eq!(Value::set_from_value_ptrs(copy()).try_into_set(), Some(copy()));
    assert_eq!(Value::set_from_value_ptrs(copy()).into_set(), copy());
    assert_eq!(Value::set_from_value_ptrs(copy()).try_into_map(), None);

    let pairs = vec![(ValuePtr::from(sym("k")), ValuePtr::from(sym("v")))];
    let pairs_copy = || vec![(ValuePtr::from(sym("k")), ValuePtr::from(sym("v")))];
    let map = Value::map_from_value_ptr_pairs(pairs_copy());
    assert_eq!(map.try_as_map(), Some(&pairs));
    assert_eq!(map.as_map(), &pairs);
    assert_eq!(map.try_as_list(), None);
    assert_eq!(
        Value::map_from_value_ptr_pairs(pairs_copy()).try_into_map(),
        Some(pairs_copy())
    );
    assert_eq!(Value::map_from_value_ptr_pairs(pairs_copy()).into_map(), pairs_copy());
    assert_eq!(Value::map_from_value_ptr_pairs(pairs_copy()).try_into_list(), None);

    assert_eq!(Value::Nil.try_as_list(), None);
    assert_eq!(Value::Nil.try_into_map(), None);
}

#[test]
fn constructors_agree() {
    let values = || vec![sym("a"), Value::Nil];
    let ptrs = || vec![ValuePtr::from(sym("a")), ValuePtr::from(Value::Nil)];
    assert_eq!(Value::list_from_values(values()), Value::List(ptrs()));
    assert_eq!(Value::list_from_value_ptrs(ptrs()), Value::List(ptrs()));
    assert_eq!(*Value::list_ptr_from_values(values()), Value::List(ptrs()));
    assert_eq!(*Value::list_ptr_from_value_ptrs(ptrs()), Value::List(ptrs()));
    assert_eq!(Value::vect_from_values(values()), Value::Vect(ptrs()));
    assert_eq!(Value::vect_from_value_ptrs(ptrs()), Value::Vect(ptrs()));
    assert_eq!(*Value::vect_ptr_from_values(values()), Value::Vect(ptrs()));
    assert_eq!(*Value::vect_ptr_from_value_ptrs(ptrs()), Value::Vect(ptrs()));
    assert_eq!(Value::set_from_values(values()), Value::SetForm(ptrs()));
    assert_eq!(Value::set_from_value_ptrs(ptrs()), Value::SetForm(ptrs()));
    assert_eq!(*Value::set_ptr_from_values(values()), Value::SetForm(ptrs()));
    assert_eq!(*Value::set_ptr_from_value_ptrs(ptrs()), Value::SetForm(ptrs()));

    let pairs = || vec![(sym("k"), Value::Bool(false))];
    let pair_ptrs = || vec![(ValuePtr::from(sym("k")), ValuePtr::from(Value::Bool(false)))];
    assert_eq!(Value::map_from_value_pairs(pairs()), Value::MapForm(pair_ptrs()));
    assert_eq!(Value::map_from_value_ptr_pairs(pair_ptrs()), Value::MapForm(pair_ptrs()));
    assert_eq!(*Value::map_ptr_from_values(pairs()), Value::MapForm(pair_ptrs()));
    assert_eq!(*Value::map_ptr_from_value_ptrs(pair_ptrs()), Value::MapForm(pair_ptrs()));

    assert_eq!(Value::empty_list(), Value::List(vec![]));
    assert_eq!(Value::empty_vect(), Value::Vect(vec![]));
    assert_eq!(Value::empty_set(), Value::SetForm(vec![]));
    assert_eq!(Value::empty_map(), Value::MapForm(vec![]));

    assert_eq!(Value::string(s("x")), Value::Str(s("x")));
    assert_eq!(
        Value::symbol(Symbol::unqualified(s("a"))),
        Value::Symbol(Symbol::Unqualified { name: s("a") })
    );
    assert_eq!(sym("a"), Value::Symbol(Symbol::Unqualified { name: s("a") }));
    assert_eq!(
        Value::qualified_symbol(s("n"), s("a")),
        Value::Symbol(Symbol::Qualified {
            namespace: s("n"),
            name: s("a")
        })
    );
    assert_eq!(
        Value::keyword(Keyword::unqualified(s("a"))),
        Value::Keyword(Keyword::Unqualified { name: s("a") })
    );
    assert_eq!(
        Value::unqualified_keyword(s("a")),
        Value::Keyword(Keyword::Unqualified { name: s("a") })
    );
    assert_eq!(
        Value::qualified_keyword(s("n"), s("a")),
        Value::Keyword(Keyword::Qualified {
            namespace: s("n"),
            name: s("a")
        })
    );
    assert_eq!(
        Value::self_qualified_keyword(s("a")),
        Value::Keyword(Keyword::SelfQualified { name: s("a") })
    );
    assert_eq!(
        Value::alias_qualified_keyword(s("n"), s("a")),
        Value::Keyword(Keyword::AliasQualified {
            alias: s("n"),
            name: s("a")
        })
    );
}

#[test]
fn pointers_hold_the_value() {
    assert_eq!(*sym("a").to_ptr(), sym("a"));
    assert_eq!(*sym("a").to_rc(), sym("a"));
    assert_eq!(*sym("a").to_arc(), sym("a"));
}

#[test]
fn values_are_equal_when_kind_and_contents_are() {
    let values = one_of_each();
    let again = one_of_each();
    for (i, left) in values.iter().enumerate() {
        for (j, right) in again.iter().enumerate() {
            assert_eq!(left == right, i == j, "{:?} {:?}", left, right);
        }
    }
    assert_ne!(Value::Bool(true), Value::Bool(false));
    assert_ne!(Value::Num(1), Value::Num(2));
    assert_ne!(Value::string(s("a")), Value::string(s("b")));
    assert_ne!(sym("a"), sym("b"));
    assert_ne!(sym("a"), Value::qualified_symbol(s("a"), s("a")));
    assert_ne!(
        Value::unqualified_keyword(s("a")),
        Value::self_qualified_keyword(s("a"))
    );
    assert_ne!(
        Value::qualified_keyword(s("n"), s("a")),
        Value::alias_qualified_keyword(s("n"), s("a"))
    );
    assert_ne!(
        Value::list_from_values(vec![sym("a"), sym("b")]),
        Value::list_from_values(vec![sym("b"), sym("a")])
    );
    assert_ne!(
        Value::list_from_values(vec![sym("a")]),
        Value::list_from_values(vec![sym("a"), sym("a")])
    );
    assert_ne!(
        Value::list_from_values(vec![sym("a")]),
        Value::vect_from_values(vec![sym("a")])
    );
    assert_ne!(
        Value::map_from_value_pairs(vec![(sym("a"), sym("b"))]),
        Value::map_from_value_pairs(vec![(sym("a"), sym("c"))])
    );
    assert_ne!(
        Value::list_from_values(vec![Value::list_from_values(vec![sym("a")])]),
        Value::list_from_values(vec![Value::list_from_values(vec![sym("b")])])
    );
}

#[test]
fn clone_gives_an_equal_value() {
    for value in one_of_each() {
        assert_eq!(value.clone(), value);
    }
    let nested = reader("(a [b {c #{d \"e\"}} ::f/g] nil)")
        .unwrap()
        .try_read_one()
        .unwrap()
        .unwrap()
        .data;
    assert_eq!(ners(&nested), nested);
}

fn ners(value: &Value) -> Value {
    value.clone()
}

#[test]
fn values_as_written() {
    assert_eq!(Value::Nil.to_string(), "nil");
    assert_eq!(Value::Bool(true).to_string(), "true");
    assert_eq!(Value::Bool(false).to_string(), "false");
    assert_eq!(Value::string(s("a b")).to_string(), "\"a b\"");
    assert_eq!(Value::string(s("")).to_string(), "\"\"");
    assert_eq!(sym("a").to_string(), "a");
    assert_eq!(Value::qualified_symbol(s("n"), s("a")).to_string(), "n/a");
    assert_eq!(Value::unqualified_keyword(s("a")).to_string(), ":a");
    assert_eq!(Value::alias_qualified_keyword(s("n"), s("a")).to_string(), "::n/a");
    assert_eq!(Value::empty_list().to_string(), "()");
    assert_eq!(Value::empty_vect().to_string(), "[]");
    assert_eq!(Value::empty_set().to_string(), "#{}");
    assert_eq!(Value::empty_map().to_string(), "{}");
    assert_eq!(Value::list_from_values(vec![sym("a")]).to_string(), "(a)");
    assert_eq!(
        Value::list_from_values(vec![sym("a"), sym("b"), sym("c")]).to_string(),
        "(a b c)"
    );
    assert_eq!(
        Value::vect_from_values(vec![sym("a"), Value::Nil]).to_string(),
        "[a nil]"
    );
    assert_eq!(
        Value::set_from_values(vec![sym("a"), sym("a")]).to_string(),
        "#{a a}"
    );
    assert_eq!(
        Value::map_from_value_pairs(vec![(sym("a"), sym("b"))]).to_string(),
        "{a b}"
    );
    assert_eq!(
        Value::map_from_value_pairs(vec![
            (sym("a"), sym("b")),
            (sym("c"), Value::empty_list()),
            (Value::Num(1), Value::Num(2))
        ])
        .to_string(),
        "{a b, c (), 1 2}"
    );
}

#[test]
fn numbers_as_written() {
    assert_eq!(Value::Num(0).to_string(), "0");
    assert_eq!(Value::Num(7).to_string(), "7");
    assert_eq!(Value::Num(10).to_string(), "10");
    assert_eq!(Value::Num(1234567890).to_string(), "1234567890");
    assert_eq!(Value::Num(-1).to_string(), "-1");
    assert_eq!(Value::Num(-42).to_string(), "-42");
    assert_eq!(Value::Num(i64::MAX).to_string(), "9223372036854775807");
    assert_eq!(Value::Num(i64::MIN).to_string(), "-9223372036854775808");
}

#[test]
fn with_span_holds_span_and_data() {
    let read: WithSpan<(usize, usize), u8> = WithSpan {
        span: (1, 2),
        data: 3,
    };
    assert_eq!(read.clone().span, (1, 2));
    assert_eq!(read.data, 3);
    let read: SpanValue = WithSpan {
        span: (1, 2),
        data: Value::Nil,
    };
    assert_eq!(read.span(), (1, 2));
}

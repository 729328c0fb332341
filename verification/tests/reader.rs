use cljrs::char_reader::{self, is_whitespace, CharReader};
use cljrs::keyword::Keyword;
use cljrs::reader;
use cljrs::symbol::Symbol;
use cljrs::value::{RcValue, Value, ValuePtr};
use cljrs::{ReadError, ReadResult, SpanValue};

#[test]
fn single_forward_slash_symbol() {
    let mut rdr = reader("/").unwrap();
    let v: RcValue = rdr.try_read_one().unwrap().unwrap().data;
    assert_eq!(v, RcValue::Symbol(Symbol::unqualified(String::from("/"))));
}

#[test]
fn double_forward_slash_symbol() {
    let mut rdr = reader("//").unwrap();
    let v: ReadResult = rdr.try_read_one();
    assert_eq!(v.unwrap_err(), ReadError::invalid_input((0, 1)));
}

#[test]
fn unqualified_symbol() {
    let mut rdr = reader("assoc").unwrap();
    let v: RcValue = rdr.try_read_one().unwrap().unwrap().data;
    assert_eq!(
        v,
        RcValue::Symbol(Symbol::unqualified(String::from("assoc")))
    );
}

#[test]
fn qualified_symbol() {
    let mut rdr = reader("foo/bar").unwrap();
    let v: RcValue = rdr.try_read_one().unwrap().unwrap().data;
    assert_eq!(
        v,
        RcValue::Symbol(Symbol::qualified(String::from("foo"), String::from("bar")))
    );
}

#[test]
fn empty_list() {
    let mut rdr = reader("()").unwrap();
    assert_eq!(
        rdr.try_read_one()
            .map(|opt| opt.map(|SpanValue { data: value, .. }| value)),
        Ok(Some(RcValue::empty_list())),
    );
}

#[test]
fn simple_list() {
    let mut rdr = CharReader::try_from_str("(assoc)").unwrap();
    assert_eq!(rdr.current_byte_idx().unwrap(), 0);

    let v: RcValue = rdr.try_read_one().unwrap().unwrap().data;

    assert!(rdr.current_char().is_none());
    assert!(rdr.is_beyond_end());

    assert_eq!(
        v,
        RcValue::list_from_value_ptrs(vec![ValuePtr::from(RcValue::Symbol(
            Symbol::unqualified(String::from("assoc"))
        )),])
    );
}

#[test]
fn empty_vect() {
    let mut rdr = reader("[]").unwrap();
    assert_eq!(
        rdr.try_read_one()
            .map(|opt| opt.map(|SpanValue { data: value, .. }| value)),
        Ok(Some(RcValue::empty_vect())),
    );
}

#[test]
fn simple_vect() {
    let mut rdr = CharReader::try_from_str("[assoc]").unwrap();
    let v: RcValue = rdr.try_read_one().unwrap().unwrap().data;
    assert!(rdr.is_beyond_end());
    assert!(rdr.current().is_none());
    assert_eq!(
        v,
        RcValue::vect_from_value_ptrs(vec![ValuePtr::from(RcValue::Symbol(
            Symbol::unqualified(String::from("assoc"))
        )),])
    );
}

#[test]
fn empty_set() {
    let mut rdr = CharReader::try_from_str("#{}").unwrap();
    let v: RcValue = rdr.try_read_one().unwrap().unwrap().data;
    assert_eq!(v, RcValue::empty_set());
}

#[test]
fn simple_set() {
    let mut rdr = CharReader::try_from_str("#{assoc}").unwrap();
    let v: RcValue = rdr.try_read_one().unwrap().unwrap().data;
    assert_eq!(
        v,
        RcValue::set_from_value_ptrs(vec![ValuePtr::from(RcValue::Symbol(
            Symbol::unqualified(String::from("assoc"))
        )),])
    );
}

#[test]
fn empty_map() {
    let mut rdr = reader("{}").unwrap();
    assert_eq!(
        rdr.try_read_one()
            .map(|opt| opt.map(|SpanValue { data: value, .. }| value)),
        Ok(Some(RcValue::empty_map())),
    );
}

#[test]
fn simple_map() {
    let mut rdr = reader("{k v}").unwrap();
    assert_eq!(
        rdr.try_read_one()
            .map(|opt| opt.map(|SpanValue { data: value, .. }| value)),
        Ok(Some(RcValue::map_from_value_ptr_pairs(vec![(
            ValuePtr::from(RcValue::Symbol(Symbol::unqualified(String::from("k")))),
            ValuePtr::from(RcValue::Symbol(Symbol::unqualified(String::from("v"))))
        )]))),
    );
}

#[test]
fn unbalanced_map() {
    let mut rdr = reader("{k}").unwrap();
    assert_eq!(
        rdr.try_read_one()
            .map(|opt| opt.map(|SpanValue { data: value, .. }| value)),
        Err(ReadError::insufficient_input((0, 2))),
    );
}

#[test]
fn unbalanced_map_2() {
    let src = "{k v, x}";
    let mut rdr = reader(src).unwrap();
    let res = rdr.try_read_one().unwrap_err();
    assert_eq!(res, ReadError::insufficient_input((0, 7)),);
}

#[test]
fn unclosed_unbalanced_map() {
    let src = "{k v, x";
    let mut rdr = reader(src).unwrap();
    let res = rdr.try_read_one().unwrap_err();
    assert_eq!(res, ReadError::insufficient_input((0, 6)),);
}

#[test]
fn given_currently_on_whitespace_when_skip_whitespaces_called_then_advances_beyond_whitespace() {
    let src = "(hello) (world)";
    // ....... 0123456789...
    let mut rdr = CharReader::try_from_str(src).unwrap();
    assert_eq!(rdr.current_byte_idx().unwrap(), 0);
    for _ in 0..7 {
        rdr.advance();
    }
    assert!(is_whitespace(rdr.current_char().unwrap()));
    rdr.skip_whitespaces();
    assert!(!is_whitespace(rdr.current_char().unwrap()));
    assert_eq!(rdr.current_byte_idx().unwrap(), 8);
}

#[test]
fn is_beyond_end() {
    let mut rdr = CharReader::try_from_str("(assoc)").unwrap();
    let _res: ReadResult = rdr.try_read_one();

    assert!(rdr.current_char().is_none());
    assert!(rdr.is_beyond_end());
}

#[test]
fn empty_set_in_list() {
    let mut rdr = reader("(#{})").unwrap();
    assert_eq!(
        rdr.try_read_one()
            .map(|opt| opt.map(|SpanValue { data: value, .. }| value)),
        Ok(Some(RcValue::list_from_value_ptrs(vec![ValuePtr::from(
            RcValue::empty_set()
        )]))),
    );
}

#[test]
fn simple_set_in_list() {
    let mut rdr = reader("(#{assoc})").unwrap();
    assert_eq!(
        rdr.try_read_one()
            .map(|opt| opt.map(|SpanValue { data: value, .. }| value)),
        Ok(Some(RcValue::list_from_value_ptrs(vec![
            RcValue::set_ptr_from_value_ptrs(vec![ValuePtr::from(RcValue::Symbol(
                Symbol::unqualified(String::from("assoc"))
            ))])
        ]))),
    );
}

#[test]
fn sequential_reads() {
    let mut rdr = reader("hello world").unwrap();
    let r1 = rdr.try_read_one().unwrap().unwrap().data;
    let r2 = rdr.try_read_one().unwrap().unwrap().data;
    assert_eq!(
        r1,
        RcValue::Symbol(Symbol::unqualified(String::from("hello")))
    );
    assert_eq!(
        r2,
        RcValue::Symbol(Symbol::unqualified(String::from("world")))
    );
}

#[test]
fn leading_forward_slash_invalid_symbol() {
    let src = "/assoc";
    let mut rdr = reader(src).unwrap();
    let res: ReadResult = rdr.try_read_one();
    let err = res.expect_err("invalid symbol form (leading slash)");
    assert!(err.is_invalid_input());
}

#[test]
fn trailing_forward_slash_invalid_unqualified_symbol() {
    let src = "assoc/";
    let mut rdr = reader(src).unwrap();
    let res: ReadResult = rdr.try_read_one();
    let err = res.expect_err("invalid symbol form (trailing slash)");
    assert!(err.is_invalid_input());
}

#[test]
fn trailing_forward_slash_valid_qualified_symbol() {
    let src = "clojure.core//";
    let mut rdr = reader(src).unwrap();
    let value = rdr.try_read_one().unwrap().unwrap().data;
    assert_eq!(
        value,
        RcValue::Symbol(Symbol::qualified(
            String::from("clojure.core"),
            String::from("/")
        ))
    )
}

#[test]
fn symbol_part() {
    let src = "foo";
    let mut rdr = CharReader::try_from_str(src).unwrap();
    let res = char_reader::try_read_symbol_part(&mut rdr);
    let value = res.unwrap().unwrap().data;
    assert_eq!(value, String::from("foo"));
}

#[test]
fn composite_symbol_parts() {
    let src = "foo/bar";
    let mut rdr = CharReader::try_from_str(src).unwrap();
    let sym_part_1 = char_reader::try_read_symbol_part(&mut rdr)
        .expect("read-able symbol part")
        .expect("non-empty")
        .data;
    assert_eq!(sym_part_1, String::from("foo"));
    rdr.advance();
    let sym_part_2 = char_reader::try_read_symbol_part(&mut rdr)
        .expect("read-able symbol part")
        .expect("non-empty")
        .data;
    assert_eq!(sym_part_2, String::from("bar"));
}

#[test]
fn quoted_returns_list() {
    let src = "'foo";
    let mut rdr = reader(src).unwrap();
    let quoted = rdr
        .try_read_one()
        .expect("read-able quoted symbol")
        .expect("non-empty")
        .data;
    assert_eq!(
        quoted,
        RcValue::list_from_value_ptrs(vec![
            ValuePtr::from(Value::Symbol(Symbol::unqualified(String::from("quote")))),
            ValuePtr::from(Value::Symbol(Symbol::unqualified(String::from("foo")))),
        ])
    );
}

#[test]
fn unqualified_keyword() {
    let src = ":foo";
    let mut rdr = reader(src).unwrap();
    let value = rdr
        .try_read_one()
        .expect("read-able unqualified keyword")
        .expect("non-empty")
        .data;
    assert_eq!(
        value,
        RcValue::Keyword(Keyword::unqualified(String::from("foo")))
    );
}

#[test]
fn qualified_keyword() {
    let src = ":foo/bar";
    let mut rdr = reader(src).unwrap();
    let value = rdr
        .try_read_one()
        .expect("read-able qualified keyword")
        .expect("non-empty")
        .data;
    assert_eq!(
        value,
        RcValue::Keyword(Keyword::qualified(String::from("foo"), String::from("bar")))
    );
}

#[test]
fn self_qualified_keyword() {
    let src = "::foo";
    let mut rdr = reader(src).unwrap();
    let value = rdr
        .try_read_one()
        .expect("read-able self-qualified keyword")
        .expect("non-empty")
        .data;
    assert_eq!(
        value,
        RcValue::Keyword(Keyword::self_qualified(String::from("foo")))
    );
}

#[test]
fn alias_qualified_keyword() {
    let src = "::foo/bar";
    let mut rdr = reader(src).unwrap();
    let value = rdr
        .try_read_one()
        .expect("read-able alias-qualified keyword")
        .expect("non-empty")
        .data;
    assert_eq!(
        value,
        RcValue::Keyword(Keyword::alias_qualified(
            String::from("foo"),
            String::from("bar")
        ))
    );
}

#[test]
fn simple_string() {
    let src = "\"hello\"";
    let mut rdr = reader(src).unwrap();
    let value = rdr
        .try_read_one()
        .expect("read-able string")
        .expect("non-empty")
        .data;
    assert_eq!(value, RcValue::Str(String::from("hello")),);
}

#[test]
fn symbol_ends_at_newline() {
    let src = "x\ny";
    let mut rdr = reader(src).unwrap();
    let mut values = vec![];
    loop {
        match rdr.try_read_one() {
            Ok(Some(SpanValue { data, .. })) => {
                values.push(data);
            }
            Ok(None) => break,
            Err(err) => println!("{:?}", err),
        }
    }
    assert_eq!(
        values,
        vec![
            RcValue::Symbol(Symbol::unqualified(String::from("x"))),
            RcValue::Symbol(Symbol::unqualified(String::from("y"))),
        ]
    );
}

#[test]
fn comment_on_own_line() {
    let src = "hello\n; world\nbob";
    let mut rdr = reader(src).unwrap();
    let mut values = vec![];
    while let Ok(opt_span_val) = rdr.try_read_one() {
        match opt_span_val {
            Some(SpanValue { data, .. }) => values.push(data),
            None => {
                if rdr.is_beyond_end() {
                    break;
                }
            }
        }
    }
    assert_eq!(
        values,
        vec![
            RcValue::Symbol(Symbol::unqualified(String::from("hello"))),
            RcValue::Symbol(Symbol::unqualified(String::from("bob"))),
        ]
    );
}

#[test]
fn qualified_map() {
    let src = "#:foo{:bar :zap}";
    let mut rdr = reader(src).unwrap();
    let SpanValue { data: val, span } = rdr.try_read_one().unwrap().unwrap();
    // the namespace tag is read and left aside: the keys stay as written
    assert_ne!(
        val,
        RcValue::map_from_value_pairs(vec![(
            Value::qualified_keyword(String::from("foo"), String::from("bar")),
            Value::unqualified_keyword(String::from("zap")),
        )]),
    );
    assert_eq!(
        val,
        RcValue::map_from_value_pairs(vec![(
            Value::unqualified_keyword(String::from("bar")),
            Value::unqualified_keyword(String::from("zap")),
        )]),
    );
    assert_eq!(span, (0, 15));
}

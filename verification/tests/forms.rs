use cljrs::char_reader::CharReader;
use cljrs::keyword::Keyword;
use cljrs::reader;
use cljrs::symbol::Symbol;
use cljrs::value::Value;
use cljrs::{ReadClj, ReadError, ReadResult, SpanValue};

fn sym(name: &str) -> Value {
    Value::unqualified_symbol(String::from(name))
}

type Parts = Result<Option<((usize, usize), Value)>, ReadError>;

fn parts(result: ReadResult) -> Parts {
    result.map(|read| read.map(|SpanValue { span, data }| (span, data)))
}

fn read_first(src: &str) -> ReadResult {
    reader(src).unwrap().try_read_one()
}

fn read_ok(src: &str) -> SpanValue {
    read_first(src).unwrap().unwrap()
}

fn read_values(src: &str) -> Vec<Value> {
    let mut rdr = reader(src).unwrap();
    let mut values = vec![];
    loop {
        match rdr.try_read_one() {
            Ok(Some(SpanValue { data, .. })) => values.push(data),
            Ok(None) => break,
            Err(err) => panic!("{:?}", err),
        }
    }
    values
}

#[test]
fn reads_empty_list() {
    let read = read_ok("()");
    assert_eq!(read.data, Value::empty_list());
    assert_eq!(read.span, (0, 1));
}

#[test]
fn reads_list_of_one_symbol() {
    let read = read_ok("(assoc)");
    assert_eq!(read.data, Value::list_from_values(vec![sym("assoc")]));
    assert_eq!(read.span, (0, 6));
}

#[test]
fn reads_map_of_one_pair() {
    let read = read_ok("{k v}");
    assert_eq!(
        read.data,
        Value::map_from_value_pairs(vec![(sym("k"), sym("v"))])
    );
    assert_eq!(read.span, (0, 4));
}

#[test]
fn rejects_key_without_value() {
    assert_eq!(
        read_first("{k}").unwrap_err(),
        ReadError::InsufficientInput((0, 2))
    );
}

#[test]
fn reads_quote() {
    let read = read_ok("'foo");
    assert_eq!(
        read.data,
        Value::list_from_values(vec![sym("quote"), sym("foo")])
    );
    assert_eq!(read.span, (0, 3));
}

#[test]
fn reads_self_qualified_keyword() {
    let read = read_ok("::foo");
    assert_eq!(
        read.data,
        Value::Keyword(Keyword::SelfQualified {
            name: String::from("foo")
        })
    );
    assert_eq!(read.span, (0, 4));
}

#[test]
fn reads_alias_qualified_keyword() {
    let read = read_ok("::foo/bar");
    assert_eq!(
        read.data,
        Value::Keyword(Keyword::AliasQualified {
            alias: String::from("foo"),
            name: String::from("bar")
        })
    );
    assert_eq!(read.span, (0, 8));
}

#[test]
fn reads_qualified_symbol_named_slash() {
    let read = read_ok("clojure.core//");
    assert_eq!(
        read.data,
        Value::Symbol(Symbol::Qualified {
            namespace: String::from("clojure.core"),
            name: String::from("/")
        })
    );
    assert_eq!(read.span, (0, 13));
}

#[test]
fn rejects_leading_slash() {
    assert_eq!(
        read_first("/assoc").unwrap_err(),
        ReadError::InvalidInput((0, 5))
    );
}

#[test]
fn rejects_unclosed_string() {
    assert_eq!(
        read_first("\"hello").unwrap_err(),
        ReadError::InsufficientInput((0, 5))
    );
}

#[test]
fn reads_past_comment_between_symbols() {
    assert_eq!(
        read_values("hello\n; world\nbob"),
        vec![sym("hello"), sym("bob")]
    );
}

#[test]
fn reads_set_in_list() {
    let read = read_ok("(#{assoc})");
    assert_eq!(
        read.data,
        Value::list_from_values(vec![Value::set_from_values(vec![sym("assoc")])])
    );
    assert_eq!(read.span, (0, 9));
}

#[test]
fn only_whitespace_and_comments_gives_no_form() {
    for src in [" ", " ,\n\t", "; just a comment", " ; one\n ; two\r\n , "] {
        let mut rdr = reader(src).unwrap();
        assert_eq!(parts(rdr.try_read_one()), Ok(None), "{:?}", src);
        assert!(rdr.is_beyond_end());
        assert_eq!(parts(rdr.try_read_one()), Ok(None));
    }
}

#[test]
fn source_ending_in_mid_form_is_insufficient() {
    assert_eq!(
        read_first("\"abc").unwrap_err(),
        ReadError::InsufficientInput((0, 3))
    );
    assert_eq!(
        read_first("(a b").unwrap_err(),
        ReadError::InsufficientInput((0, 3))
    );
    assert_eq!(
        read_first("[a b  ").unwrap_err(),
        ReadError::InsufficientInput((0, 5))
    );
    assert_eq!(
        read_first("#{a").unwrap_err(),
        ReadError::InsufficientInput((0, 2))
    );
    assert_eq!(
        read_first("{a b").unwrap_err(),
        ReadError::InsufficientInput((0, 3))
    );
    assert_eq!(
        read_first(" (").unwrap_err(),
        ReadError::InsufficientInput((1, 1))
    );
    assert_eq!(
        read_first("(a (b").unwrap_err(),
        ReadError::InsufficientInput((3, 4))
    );
    assert_eq!(
        read_first("[a ; rest").unwrap_err(),
        ReadError::InsufficientInput((0, 8))
    );
}

#[test]
fn stray_closing_delimiter_is_unclosed_collection() {
    assert_eq!(
        read_first(")").unwrap_err(),
        ReadError::UnclosedCollection((0, 0))
    );
    assert_eq!(
        read_first("  ]").unwrap_err(),
        ReadError::UnclosedCollection((2, 2))
    );
    assert_eq!(parts(read_first("é}")), Ok(Some(((0, 0), sym("é")))));
    let mut rdr = reader("é}").unwrap();
    let _ = rdr.try_read_one();
    assert_eq!(
        rdr.try_read_one().unwrap_err(),
        ReadError::UnclosedCollection((2, 2))
    );
    assert!(rdr.is_beyond_end());
}

#[test]
fn mismatched_closer_inside_a_collection_is_unclosed_collection() {
    assert_eq!(
        read_first("(a]").unwrap_err(),
        ReadError::UnclosedCollection((2, 2))
    );
}

#[test]
fn nil_true_false_are_atoms() {
    assert_eq!(
        read_values("nil true false nil? a/nil :nil"),
        vec![
            Value::Nil,
            Value::Bool(true),
            Value::Bool(false),
            sym("nil?"),
            Value::qualified_symbol(String::from("a"), String::from("nil")),
            Value::unqualified_keyword(String::from("nil")),
        ]
    );
}

#[test]
fn numbers_are_read_as_symbols() {
    assert_eq!(read_values("42 -1.5"), vec![sym("42"), sym("-1.5")]);
}

#[test]
fn deref_is_read_as_a_list() {
    let read = read_ok(" @ state");
    assert_eq!(
        read.data,
        Value::list_from_values(vec![sym("deref"), sym("state")])
    );
    assert_eq!(read.span, (1, 7));
}

#[test]
fn nested_quote() {
    let read = read_ok("''a");
    assert_eq!(
        read.data,
        Value::list_from_values(vec![
            sym("quote"),
            Value::list_from_values(vec![sym("quote"), sym("a")])
        ])
    );
    assert_eq!(read.span, (0, 2));
}

#[test]
fn dangling_quote_is_invalid() {
    assert_eq!(read_first("'").unwrap_err(), ReadError::InvalidInput((0, 0)));
    assert_eq!(parts(read_first("a @ ")), Ok(Some(((0, 0), sym("a")))));
    let mut rdr = reader("a @ ").unwrap();
    let _ = rdr.try_read_one();
    assert_eq!(
        rdr.try_read_one().unwrap_err(),
        ReadError::InvalidInput((2, 2))
    );
}

#[test]
fn quote_passes_on_the_fault_of_its_form() {
    assert_eq!(
        read_first("'(a").unwrap_err(),
        ReadError::InsufficientInput((1, 2))
    );
}

#[test]
fn discard_drops_one_form() {
    assert_eq!(read_values("#_ a b"), vec![sym("b")]);
    assert_eq!(read_values("#_(a b) c #_d"), vec![sym("c")]);
    assert_eq!(read_values("#_ #_ a b c"), vec![sym("c")]);
    let read = read_ok("#_a b");
    assert_eq!(read.span, (4, 4));
}

#[test]
fn discard_inside_a_collection() {
    assert_eq!(
        read_ok("[a #_ b c]").data,
        Value::vect_from_values(vec![sym("a"), sym("c")])
    );
}

#[test]
fn dangling_discard_is_invalid() {
    assert_eq!(
        read_first("#_").unwrap_err(),
        ReadError::InvalidInput((0, 1))
    );
    assert_eq!(
        read_first(" #_  ; nothing").unwrap_err(),
        ReadError::InvalidInput((1, 13))
    );
}

#[test]
fn discard_of_an_unclosed_collection_points_back_to_the_hash() {
    assert_eq!(parts(read_first("a #_ )")), Ok(Some(((0, 0), sym("a")))));
    let mut rdr = reader("a #_ )").unwrap();
    let _ = rdr.try_read_one();
    assert_eq!(
        rdr.try_read_one().unwrap_err(),
        ReadError::UnclosedCollection((2, 5))
    );
}

#[test]
fn discard_passes_on_other_faults_of_its_form() {
    assert_eq!(
        read_first("#_ /x y").unwrap_err(),
        ReadError::InvalidInput((3, 4))
    );
    assert_eq!(
        read_first("#_ \"x").unwrap_err(),
        ReadError::InsufficientInput((3, 4))
    );
}

#[test]
fn hash_alone_is_a_symbol() {
    assert_eq!(read_values("# #a"), vec![sym("#"), sym("#a")]);
}

#[test]
fn symbols_may_hold_dispatch_characters() {
    assert_eq!(
        read_values("a;b c\"d e'f g#h i:j"),
        vec![sym("a;b"), sym("c\"d"), sym("e'f"), sym("g#h"), sym("i:j")]
    );
}

#[test]
fn symbol_faults() {
    assert_eq!(read_first("//").unwrap_err(), ReadError::InvalidInput((0, 1)));
    assert_eq!(
        read_first("assoc/").unwrap_err(),
        ReadError::InvalidInput((0, 5))
    );
    assert_eq!(
        read_first("a//b").unwrap_err(),
        ReadError::InvalidInput((2, 3))
    );
    assert_eq!(
        read_first(" a/ b").unwrap_err(),
        ReadError::InvalidInput((1, 1))
    );
    assert_eq!(
        read_first("(a/)").unwrap_err(),
        ReadError::InvalidInput((1, 1))
    );
}

#[test]
fn slash_behind_a_qualified_symbol_is_a_form_of_its_own() {
    assert_eq!(
        read_values("clojure.core///"),
        vec![
            Value::qualified_symbol(String::from("clojure.core"), String::from("/")),
            sym("/"),
        ]
    );
}

#[test]
fn symbol_reader_gives_none_where_no_symbol_begins() {
    let mut rdr = CharReader::try_from_str("(a)").unwrap();
    assert_eq!(parts(CharReader::try_read_symbol(&mut rdr)), Ok(None));
    assert_eq!(rdr.current(), Some((0, '(')));
    rdr.advance();
    rdr.advance();
    rdr.advance();
    assert_eq!(parts(CharReader::try_read_symbol(&mut rdr)), Ok(None));

    let mut rdr = CharReader::try_from_str("a/ b").unwrap();
    assert_eq!(parts(CharReader::try_read_symbol(&mut rdr)), Ok(None));
    assert_eq!(rdr.current(), Some((2, ' ')));
}

#[test]
fn symbol_reader_does_not_turn_nil_into_an_atom() {
    let mut rdr = CharReader::try_from_str("nil").unwrap();
    assert_eq!(
        parts(CharReader::try_read_symbol(&mut rdr)),
        Ok(Some(((0, 2), sym("nil"))))
    );
}

#[test]
fn keyword_flavours() {
    assert_eq!(
        read_values(":a :n/a ::a ::n/a :::a"),
        vec![
            Value::unqualified_keyword(String::from("a")),
            Value::qualified_keyword(String::from("n"), String::from("a")),
            Value::self_qualified_keyword(String::from("a")),
            Value::alias_qualified_keyword(String::from("n"), String::from("a")),
            Value::self_qualified_keyword(String::from(":a")),
        ]
    );
    assert_eq!(read_ok(" :foo/bar ").span, (1, 8));
}

#[test]
fn keyword_faults() {
    assert_eq!(read_first(":").unwrap_err(), ReadError::InvalidInput((0, 0)));
    assert_eq!(
        read_first(" :: ").unwrap_err(),
        ReadError::InvalidInput((1, 1))
    );
    assert_eq!(
        read_first(":)").unwrap_err(),
        ReadError::InvalidInput((0, 0))
    );
    assert_eq!(
        read_first(":a/").unwrap_err(),
        ReadError::InvalidInput((1, 2))
    );
    assert_eq!(
        read_first(":/a").unwrap_err(),
        ReadError::InvalidInput((1, 2))
    );
}

#[test]
fn string_holds_the_text_between_the_quotes_as_written() {
    let read = read_ok(" \"a\\nb (c) ; d, é\" x");
    assert_eq!(read.data, Value::string(String::from("a\\nb (c) ; d, é")));
    assert_eq!(read.span, (1, 18));
    assert_eq!(read_ok("\"\"").data, Value::string(String::new()));
    assert_eq!(read_ok("\"\"").span, (0, 1));
}

#[test]
fn string_with_a_backslash_before_the_quote_ends_at_the_quote() {
    assert_eq!(
        read_values("\"a\\\" b"),
        vec![Value::string(String::from("a\\")), sym("b")]
    );
}

#[test]
fn lone_quote_is_insufficient() {
    assert_eq!(
        read_first("\"").unwrap_err(),
        ReadError::InsufficientInput((0, 0))
    );
}

#[test]
fn collections_keep_order_and_duplicates() {
    assert_eq!(
        read_ok("#{b a b}").data,
        Value::set_from_values(vec![sym("b"), sym("a"), sym("b")])
    );
    assert_eq!(
        read_ok("{k 1, k 2}").data,
        Value::map_from_value_pairs(vec![(sym("k"), sym("1")), (sym("k"), sym("2"))])
    );
}

#[test]
fn nested_collections() {
    let read = read_ok("(a [b {c #{d}}] \"e\")");
    assert_eq!(
        read.data,
        Value::list_from_values(vec![
            sym("a"),
            Value::vect_from_values(vec![
                sym("b"),
                Value::map_from_value_pairs(vec![(
                    sym("c"),
                    Value::set_from_values(vec![sym("d")])
                )]),
            ]),
            Value::string(String::from("e")),
        ])
    );
    assert_eq!(read.span, (0, 19));
}

#[test]
fn comment_inside_a_collection() {
    assert_eq!(
        read_ok("(a ; one\n b)").data,
        Value::list_from_values(vec![sym("a"), sym("b")])
    );
}

#[test]
fn map_faults() {
    assert_eq!(
        read_first("{k v, x}").unwrap_err(),
        ReadError::InsufficientInput((0, 7))
    );
    assert_eq!(
        read_first("{k v, x").unwrap_err(),
        ReadError::InsufficientInput((0, 6))
    );
    assert_eq!(
        read_first("{k ]").unwrap_err(),
        ReadError::UnclosedCollection((3, 3))
    );
    assert_eq!(
        read_first("{k ; v\n").unwrap_err(),
        ReadError::InsufficientInput((0, 6))
    );
}

#[test]
fn namespaced_map_is_the_map_as_written() {
    let read = read_ok(" #:foo{:bar :zap, baz 1}");
    assert_eq!(
        read.data,
        Value::map_from_value_pairs(vec![
            (
                Value::unqualified_keyword(String::from("bar")),
                Value::unqualified_keyword(String::from("zap"))
            ),
            (sym("baz"), sym("1")),
        ])
    );
    assert_eq!(read.span, (1, 23));
}

#[test]
fn namespaced_map_faults() {
    assert_eq!(
        read_first("#:foo").unwrap_err(),
        ReadError::InsufficientInput((0, 4))
    );
    assert_eq!(
        read_first("#:foo x").unwrap_err(),
        ReadError::InvalidInput((0, 5))
    );
    assert_eq!(
        read_first("#:foo[a]").unwrap_err(),
        ReadError::InvalidInput((0, 5))
    );
    assert_eq!(
        read_first("#:{a b}").unwrap_err(),
        ReadError::InvalidInput((1, 1))
    );
    assert_eq!(
        read_first("#:foo{a").unwrap_err(),
        ReadError::InsufficientInput((5, 6))
    );
}

#[test]
fn spans_are_byte_offsets() {
    let mut rdr = reader("é (越 \"ü\") :ß").unwrap();
    assert_eq!(rdr.try_read_one().unwrap().unwrap().span, (0, 0));
    assert_eq!(rdr.try_read_one().unwrap().unwrap().span, (3, 12));
    assert_eq!(rdr.try_read_one().unwrap().unwrap().span, (14, 15));
    assert_eq!(parts(rdr.try_read_one()), Ok(None));
}

#[test]
fn form_readers_read_the_form_under_the_cursor() {
    let mut rdr = CharReader::try_from_str("; c\r(a)[b]#{c}{d e}:k \"s\"").unwrap();
    assert_eq!(parts(CharReader::try_read_comment(&mut rdr)), Ok(None));
    assert_eq!(rdr.current(), Some((4, '(')));
    assert_eq!(
        CharReader::try_read_list(&mut rdr).unwrap().unwrap().span,
        (4, 6)
    );
    assert_eq!(
        CharReader::try_read_vect(&mut rdr).unwrap().unwrap().span,
        (7, 9)
    );
    assert_eq!(
        CharReader::try_read_set(&mut rdr).unwrap().unwrap().span,
        (10, 13)
    );
    assert_eq!(
        CharReader::try_read_map(&mut rdr).unwrap().unwrap().span,
        (14, 18)
    );
    assert_eq!(
        CharReader::try_read_keyword(&mut rdr).unwrap().unwrap().span,
        (19, 20)
    );
    rdr.advance();
    assert_eq!(
        CharReader::try_read_string(&mut rdr).unwrap().unwrap().span,
        (22, 24)
    );
    assert!(rdr.is_beyond_end());
}

#[test]
fn comment_reader_stops_behind_the_line_break() {
    let mut rdr = CharReader::try_from_str("; a\n\nb").unwrap();
    assert_eq!(parts(CharReader::try_read_comment(&mut rdr)), Ok(None));
    assert_eq!(rdr.current(), Some((4, '\n')));

    let mut rdr = CharReader::try_from_str(";").unwrap();
    assert_eq!(parts(CharReader::try_read_comment(&mut rdr)), Ok(None));
    assert!(rdr.is_beyond_end());
}

#[test]
fn reading_through_the_trait_is_reading_with_the_reader() {
    fn first<R: ReadClj>(rdr: &mut R) -> ReadResult {
        rdr.try_read_one()
    }
    let mut rdr = reader("(a b) c").unwrap();
    assert_eq!(
        parts(first(&mut rdr)),
        Ok(Some((
            (0, 4),
            Value::list_from_values(vec![sym("a"), sym("b")])
        )))
    );
    assert_eq!(parts(ReadClj::try_read_symbol(&mut rdr)), Ok(None));
    rdr.skip_whitespaces();
    assert_eq!(
        parts(ReadClj::try_read_symbol(&mut rdr)),
        Ok(Some(((6, 6), sym("c"))))
    );
}

#[test]
fn span_value_hands_out_its_parts() {
    assert_eq!(read_ok(" ab").span(), (1, 2));
    assert_eq!(read_ok(" ab").data(), sym("ab"));
}

#[test]
fn read_error_constructors_and_tests() {
    let e = ReadError::insufficient_input((1, 2));
    assert_eq!(e, ReadError::InsufficientInput((1, 2)));
    assert!(e.is_insufficient_input() && !e.is_invalid_input() && !e.is_unclosed_collection());
    let e = ReadError::invalid_input((3, 4));
    assert_eq!(e, ReadError::InvalidInput((3, 4)));
    assert!(!e.is_insufficient_input() && e.is_invalid_input() && !e.is_unclosed_collection());
    let e = ReadError::unclosed_collection((5, 6));
    assert_eq!(e, ReadError::UnclosedCollection((5, 6)));
    assert!(!e.is_insufficient_input() && !e.is_invalid_input() && e.is_unclosed_collection());
}

use cljrs::reader;
use cljrs::value::Value;
use cljrs::{ReadClj, ReadResult, SpanValue};

fn sym(name: &str) -> Value {
    Value::unqualified_symbol(String::from(name))
}

fn read_first(src: &str) -> ReadResult {
    let mut rdr = reader(src).unwrap();
    ReadClj::try_read_one(&mut rdr)
}

/// The values and spans of the forms read one after another, up to the first
/// read that gives none.
fn read_all(src: &str) -> Vec<SpanValue> {
    let mut forms = vec![];
    if let Some(mut rdr) = reader(src) {
        while let Ok(Some(form)) = rdr.try_read_one() {
            forms.push(form);
        }
    }
    forms
}

fn values(src: &str) -> Vec<Value> {
    read_all(src).into_iter().map(|form| form.data).collect()
}

const SOURCE: &str = "(defn f [x] {:a x, :b \"y z\"}) #{1 2} 'q @r ::k/w nil";

/// The byte offsets at which the cursor stands between the forms of `SOURCE`:
/// before the first read, and after each read.
fn cursor_stops(src: &str) -> Vec<usize> {
    let mut stops = vec![0];
    for form in read_all(src) {
        stops.push(form.span.1 + 1);
    }
    stops
}

#[test]
fn whitespace_between_forms_changes_no_value() {
    let expected = values(SOURCE);
    assert_eq!(expected.len(), 6);
    for stop in cursor_stops(SOURCE) {
        for inserted in [" ", ",", "\n\t ,,", "\u{2003}\u{A0}"] {
            let mut changed = String::from(SOURCE);
            changed.insert_str(stop, inserted);
            assert_eq!(values(&changed), expected, "{:?}", changed);
        }
    }
}

#[test]
fn whitespace_between_forms_only_shifts_spans() {
    let before = read_all("ab (c d)");
    let after = read_all("ab  , (c d)");
    assert_eq!(before[0].span, (0, 1));
    assert_eq!(after[0].span, (0, 1));
    assert_eq!(before[1].span, (3, 7));
    assert_eq!(after[1].span, (6, 10));
}

#[test]
fn whitespace_inside_a_collection_changes_no_value() {
    assert_eq!(values("(a  ,b\n[ c ] )"), values("(a b [c])"));
    assert_eq!(values("{ a b,,c d }"), values("{a b c d}"));
}

#[test]
fn comment_between_forms_changes_no_value() {
    let expected = values(SOURCE);
    let stops = cursor_stops(SOURCE);
    // behind a closing delimiter or a quote, and before the first form
    for stop in [stops[0], stops[1], stops[2]] {
        for comment in [";\n", "; (a comment\r", ";; \"more\" ;\n"] {
            let mut changed = String::from(SOURCE);
            changed.insert_str(stop, comment);
            assert_eq!(values(&changed), expected, "{:?}", changed);
        }
    }
    // behind whitespace
    for stop in stops {
        let mut changed = String::from(SOURCE);
        changed.insert_str(stop, " ; comment\n");
        assert_eq!(values(&changed), expected, "{:?}", changed);
    }
}

#[test]
fn comment_inside_a_collection_changes_no_value() {
    assert_eq!(values("(a ; one\n [b ; two\r c] ; three\n d)"), values("(a [b c] d)"));
    assert_eq!(values("{; zero\n a ; one\n b, ; two\n c d}"), values("{a b c d}"));
    assert_eq!(values("#{(a); one\n b}"), values("#{(a) b}"));
    assert_eq!(values("'; one\n a #_ ; two\n b c"), values("'a #_ b c"));
}

#[test]
fn comment_last_in_a_collection_leaves_the_closing_delimiter_alone() {
    assert_eq!(values("((a) )").len(), 1);
    assert!(read_first("((a) ; one\n)").unwrap_err().is_unclosed_collection());
}

#[test]
fn comment_directly_behind_a_symbol_goes_into_the_symbol() {
    assert_eq!(values("a b"), vec![sym("a"), sym("b")]);
    assert_eq!(values("a;c\n b"), vec![sym("a;c"), sym("b")]);
}

#[test]
fn discarded_form_changes_no_value() {
    let expected = values(SOURCE);
    for discarded in ["x", "(a b)", "\"s\"", "{k v}", ":k", "'(a)", "#_ a b"] {
        let mut changed = String::from("#_ ");
        changed.push_str(discarded);
        changed.push(' ');
        changed.push_str(SOURCE);
        assert_eq!(values(&changed), expected, "{:?}", changed);
    }
}

#[test]
fn quote_is_the_list_of_quote_and_the_form() {
    for form in ["a", "(a b)", "[1 2]", "\"s\"", ":k", "{a b}", "#{a}", "'a", "@a", "nil"] {
        let alone = read_first(form).unwrap().unwrap();
        let mut quoted = String::from("'");
        quoted.push_str(form);
        let read = read_first(&quoted).unwrap().unwrap();
        assert_eq!(
            read.data,
            Value::list_from_values(vec![sym("quote"), alone.data.clone()])
        );
        assert_eq!(read.span, (0, alone.span.1 + 1));

        let mut dereferenced = String::from("@");
        dereferenced.push_str(form);
        let read = read_first(&dereferenced).unwrap().unwrap();
        assert_eq!(
            read.data,
            Value::list_from_values(vec![sym("deref"), alone.data])
        );
        assert_eq!(read.span, (0, alone.span.1 + 1));
    }
}

#[test]
fn cursor_stops_behind_each_form() {
    let src = " a ; c\n (b) #_ x \"s\"  ";
    let mut rdr = reader(src).unwrap();
    let mut last_end = None;
    while let Ok(Some(form)) = rdr.try_read_one() {
        assert!(form.span.0 <= form.span.1);
        if let Some(end) = last_end {
            assert!(end < form.span.0);
        }
        assert_eq!(rdr.current_byte_idx().unwrap(), form.span.1 + 1);
        last_end = Some(form.span.1);
    }
    assert_eq!(last_end, Some(19));
    assert!(rdr.is_beyond_end());
}

#[test]
fn spans_of_children_lie_inside_the_span_of_the_collection() {
    let src = " (a [b c] {d e}) ";
    let outer = read_first(src).unwrap().unwrap();
    assert_eq!(outer.span, (1, 15));
    // the children, read on their own from where they stand
    let mut rdr = reader(src).unwrap();
    rdr.advance();
    rdr.advance();
    let mut last_end = outer.span.0;
    for _ in 0..3 {
        let child = rdr.try_read_one().unwrap().unwrap();
        assert!(last_end < child.span.0);
        assert!(child.span.0 <= child.span.1);
        assert!(child.span.1 < outer.span.1);
        last_end = child.span.1;
    }
    assert_eq!(last_end, 14);
}

#[test]
fn written_value_reads_back_equal() {
    for src in [
        SOURCE,
        "a/b // n// :::x #a a;b",
        "(() [] #{} {} \"\" \"a b\")",
        "{a {b {c d}}, e [f (g)]}",
        "'(a . b) @@x '#{a}",
    ] {
        for form in read_all(src) {
            let written = form.data.to_string();
            let back = read_first(&written).unwrap().unwrap();
            assert_eq!(back.data, form.data, "{:?}", written);
            assert_eq!(back.span, (0, written.len() - 1));
        }
    }
}

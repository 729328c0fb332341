//! What reading means, as mathematical functions on character sequences.
//!
//! A position is an index into the sequence of characters; a span is a pair of
//! positions, both inclusive. Every function here takes the source and the
//! position of the cursor and gives an [`Outcome`]: what was read, and where
//! the cursor stands afterwards. The executable reader computes exactly these
//! functions, with positions turned into byte offsets.

use vstd::prelude::*;
use crate::keyword::KeywordView;
use crate::offsets::byte_offset;
use crate::symbol::SymbolView;
use crate::value::ValueView;
use crate::{ByteIndexSpan, ReadError, WithSpan};

verus! {

/// A pair of positions, both inclusive.
pub type Span = (int, int);

/// A value with the span it was read from.
pub type SpanForm = WithSpan<Span, ValueView>;

/// Why a read fails, with the span of the offending region.
pub enum Fault {
    InsufficientInput(Span),
    InvalidInput(Span),
    UnclosedCollection(Span),
}

/// The result of a read together with the position of the cursor after it.
pub struct Outcome<T> {
    pub result: Result<Option<T>, Fault>,
    pub pos: int,
}

/// The code points with the Unicode property `White_Space`.
pub open spec fn is_unicode_whitespace(c: char) -> bool {
    let v = c as u32;
    ||| 0x09 <= v <= 0x0D
    ||| v == 0x20
    ||| v == 0x85
    ||| v == 0xA0
    ||| v == 0x1680
    ||| 0x2000 <= v <= 0x200A
    ||| v == 0x2028
    ||| v == 0x2029
    ||| v == 0x202F
    ||| v == 0x205F
    ||| v == 0x3000
}

/// Whitespace for the reader: Unicode whitespace, and the comma.
pub open spec fn is_whitespace_char(c: char) -> bool {
    is_unicode_whitespace(c) || c == ','
}

/// One of `( ) [ ] { }`.
pub open spec fn is_delimiter(c: char) -> bool {
    c == '(' || c == ')' || c == '[' || c == ']' || c == '{' || c == '}'
}

/// One of `) ] }`.
pub open spec fn is_closer(c: char) -> bool {
    c == ')' || c == ']' || c == '}'
}

/// A character that may stand in a symbol: neither whitespace nor a delimiter.
pub open spec fn is_symbol_char(c: char) -> bool {
    !is_whitespace_char(c) && !is_delimiter(c)
}

/// Whether the character at position `i` is `c`.
pub open spec fn char_at_is(src: Seq<char>, i: int, c: char) -> bool {
    0 <= i < src.len() && src[i] == c
}

/// The first position at or after `i` that holds no whitespace (the length of
/// the source if there is none).
pub open spec fn skip_whitespace(src: Seq<char>, i: int) -> int
    decreases src.len() - i,
{
    if 0 <= i < src.len() && is_whitespace_char(src[i]) {
        skip_whitespace(src, i + 1)
    } else {
        i
    }
}

/// The first position at or after `i` that ends a symbol part: whitespace, a
/// delimiter, `/`, or the end of the source.
pub open spec fn symbol_part_end(src: Seq<char>, i: int) -> int
    decreases src.len() - i,
{
    if 0 <= i < src.len() && src[i] != '/' && is_symbol_char(src[i]) {
        symbol_part_end(src, i + 1)
    } else {
        i
    }
}

/// The first position at or after `i` that holds `"` (the length of the source
/// if there is none).
pub open spec fn closing_quote(src: Seq<char>, i: int) -> int
    decreases src.len() - i,
{
    if 0 <= i < src.len() && src[i] != '"' {
        closing_quote(src, i + 1)
    } else {
        i
    }
}

/// The first position at or after `i` that holds a line break (the length of
/// the source if there is none).
pub open spec fn line_end(src: Seq<char>, i: int) -> int
    decreases src.len() - i,
{
    if 0 <= i < src.len() && src[i] != '\n' && src[i] != '\r' {
        line_end(src, i + 1)
    } else {
        i
    }
}

/// Where the cursor stands after the comment that begins at `i`: behind the
/// line break that ends it, or at the end of the source.
pub open spec fn comment_end(src: Seq<char>, i: int) -> int {
    let e = line_end(src, i + 1);
    if e < src.len() {
        e + 1
    } else {
        e
    }
}

/// The position of the last character of the source.
pub open spec fn last_position(src: Seq<char>) -> int {
    src.len() - 1
}

/// A part that cannot stand in a symbol: a `/` with more behind it.
pub open spec fn has_leading_slash(part: Seq<char>) -> bool {
    part.len() >= 2 && part[0] == '/'
}

/// Reads one symbol part at `i`: the run of symbol characters up to the next
/// `/`. The first character may itself be `/`. Nothing is read, and the cursor
/// stays, where `i` holds no symbol character.
pub open spec fn read_symbol_part(src: Seq<char>, i: int) -> Outcome<WithSpan<Span, Seq<char>>> {
    if 0 <= i < src.len() && is_symbol_char(src[i]) {
        let end = symbol_part_end(src, i + 1);
        Outcome {
            result: Ok(Some(WithSpan { span: (i, end - 1), data: src.subrange(i, end) })),
            pos: end,
        }
    } else {
        Outcome { result: Ok(None), pos: i }
    }
}

/// Reads a symbol at `i`: `name`, or `namespace/name`.
///
/// A part that is a `/` with more behind it is invalid, and so is a symbol
/// with a `/` behind it that ends the source. Nothing is read where `i` holds
/// no symbol character, nor where none follows the `/`.
pub open spec fn read_symbol(src: Seq<char>, i: int) -> Outcome<WithSpan<Span, SymbolView>> {
    let first = read_symbol_part(src, i);
    match first.result {
        Ok(Some(part1)) => {
            let slash = first.pos;
            if has_leading_slash(part1.data) {
                Outcome { result: Err(Fault::InvalidInput(part1.span)), pos: first.pos }
            } else if char_at_is(src, slash, '/') {
                if slash == last_position(src) {
                    Outcome { result: Err(Fault::InvalidInput((i, slash))), pos: slash }
                } else {
                    let second = read_symbol_part(src, slash + 1);
                    match second.result {
                        Ok(Some(part2)) => {
                            if has_leading_slash(part2.data) {
                                Outcome {
                                    result: Err(Fault::InvalidInput(part2.span)),
                                    pos: second.pos,
                                }
                            } else {
                                Outcome {
                                    result: Ok(
                                        Some(
                                            WithSpan {
                                                span: (i, part2.span.1),
                                                data: SymbolView::Qualified {
                                                    namespace: part1.data,
                                                    name: part2.data,
                                                },
                                            },
                                        ),
                                    ),
                                    pos: second.pos,
                                }
                            }
                        },
                        _ => Outcome { result: Ok(None), pos: second.pos },
                    }
                }
            } else {
                Outcome {
                    result: Ok(
                        Some(
                            WithSpan {
                                span: part1.span,
                                data: SymbolView::Unqualified { name: part1.data },
                            },
                        ),
                    ),
                    pos: first.pos,
                }
            }
        },
        _ => Outcome { result: Ok(None), pos: first.pos },
    }
}

/// The keyword that a symbol stands for behind one colon or two.
pub open spec fn keyword_of(double_colon: bool, symbol: SymbolView) -> KeywordView {
    match symbol {
        SymbolView::Unqualified { name } => if double_colon {
            KeywordView::SelfQualified { name }
        } else {
            KeywordView::Unqualified { name }
        },
        SymbolView::Qualified { namespace, name } => if double_colon {
            KeywordView::AliasQualified { alias: namespace, name }
        } else {
            KeywordView::Qualified { namespace, name }
        },
    }
}

/// Reads the keyword whose first colon stands at `i`: one colon or two, then
/// a symbol. Colons with no symbol behind them are invalid.
pub open spec fn read_keyword(src: Seq<char>, i: int) -> Outcome<SpanForm> {
    let double_colon = char_at_is(src, i + 1, ':');
    let start = if double_colon {
        i + 2
    } else {
        i + 1
    };
    let symbol = read_symbol(src, start);
    match symbol.result {
        Ok(Some(sym)) => Outcome {
            result: Ok(
                Some(
                    WithSpan {
                        span: (i, sym.span.1),
                        data: ValueView::Keyword(keyword_of(double_colon, sym.data)),
                    },
                ),
            ),
            pos: symbol.pos,
        },
        Ok(None) => Outcome { result: Err(Fault::InvalidInput((i, i))), pos: symbol.pos },
        Err(fault) => Outcome { result: Err(fault), pos: symbol.pos },
    }
}

/// Reads the string whose opening quote stands at `i`. The text between the
/// quotes is taken as it stands. Without a closing quote the input is
/// insufficient, from the opening quote to the end of the source.
pub open spec fn read_string(src: Seq<char>, i: int) -> Outcome<SpanForm> {
    let close = closing_quote(src, i + 1);
    if close < src.len() {
        Outcome {
            result: Ok(
                Some(WithSpan { span: (i, close), data: ValueView::Str(src.subrange(i + 1, close)) }),
            ),
            pos: close + 1,
        }
    } else {
        Outcome { result: Err(Fault::InsufficientInput((i, last_position(src)))), pos: close }
    }
}

/// What a symbol is as a value: `nil`, `true` and `false` are atoms of their
/// own, every other symbol is itself.
pub open spec fn symbol_value(symbol: SymbolView) -> ValueView {
    match symbol {
        SymbolView::Unqualified { name } => if name == "nil"@ {
            ValueView::Nil
        } else if name == "true"@ {
            ValueView::Bool(true)
        } else if name == "false"@ {
            ValueView::Bool(false)
        } else {
            ValueView::Symbol(symbol)
        },
        _ => ValueView::Symbol(symbol),
    }
}

/// The list `(name form)` that a reader macro such as `'form` stands for.
pub open spec fn wrapped(name: Seq<char>, form: ValueView) -> ValueView {
    ValueView::List(seq![ValueView::Symbol(SymbolView::Unqualified { name }), form])
}

/// The outcome of a read that fails with `fault` and leaves the cursor at `pos`.
pub open spec fn failed<T>(fault: Fault, pos: int) -> Outcome<T> {
    Outcome { result: Err(fault), pos }
}

/// The outcome of a read that cannot arise: reading never moves the cursor
/// back (see `laws::lemma_read_one_advances`). The recursive definitions
/// below test for it only so that they are seen to terminate.
pub open spec fn no_progress<T>(pos: int) -> Outcome<T> {
    Outcome { result: Ok(None), pos }
}

/// The values of a run of read forms, without their spans.
pub open spec fn data_of(items: Seq<SpanForm>) -> Seq<ValueView> {
    Seq::new(items.len(), |k: int| items[k].data)
}

/// The values of a run of read key-value pairs, without their spans.
pub open spec fn pair_data_of(pairs: Seq<(SpanForm, SpanForm)>) -> Seq<(ValueView, ValueView)> {
    Seq::new(pairs.len(), |k: int| (pairs[k].0.data, pairs[k].1.data))
}

/// Reads one form at or after `i`, passing over whitespace, comments and
/// discarded forms. `Ok(None)` means that the source ended before any form
/// began.
///
/// A closing delimiter where a form should begin is an unclosed collection;
/// the cursor moves beyond it. Where a symbol should begin and none can be
/// read, the input is invalid.
pub open spec fn read_one(src: Seq<char>, i: int) -> Outcome<SpanForm>
    decreases src.len() - i, 2int,
{
    if !(0 <= i < src.len()) {
        Outcome { result: Ok(None), pos: i }
    } else {
        let ch = src[i];
        if is_whitespace_char(ch) {
            read_one(src, i + 1)
        } else if is_closer(ch) {
            failed(Fault::UnclosedCollection((i, i)), i + 1)
        } else if ch == '(' {
            read_list(src, i)
        } else if ch == '[' {
            read_vect(src, i)
        } else if ch == '{' {
            read_map(src, i)
        } else if ch == '\'' {
            read_wrapped(src, i, "quote"@)
        } else if ch == '@' {
            read_wrapped(src, i, "deref"@)
        } else if ch == '#' && char_at_is(src, i + 1, '{') {
            read_set(src, i)
        } else if ch == '#' && char_at_is(src, i + 1, ':') {
            read_namespaced_map(src, i)
        } else if ch == '#' && char_at_is(src, i + 1, '_') {
            read_discard(src, i)
        } else if ch == ':' {
            read_keyword(src, i)
        } else if ch == '"' {
            read_string(src, i)
        } else if ch == ';' {
            let next = comment_end(src, i);
            if i < next <= src.len() {
                read_one(src, next)
            } else {
                no_progress(i)
            }
        } else {
            let symbol = read_symbol(src, i);
            match symbol.result {
                Ok(Some(sym)) => Outcome {
                    result: Ok(Some(WithSpan { span: sym.span, data: symbol_value(sym.data) })),
                    pos: symbol.pos,
                },
                Ok(None) => failed(Fault::InvalidInput((i, i)), symbol.pos),
                Err(fault) => failed(fault, symbol.pos),
            }
        }
    }
}

/// Reads `'form` or `@form`, whose first character stands at `i`, as the list
/// `(name form)`, with the span from that character to the end of the form.
/// Without a form behind it the character is invalid.
pub open spec fn read_wrapped(src: Seq<char>, i: int, name: Seq<char>) -> Outcome<SpanForm>
    decreases src.len() - i, 1int,
{
    if !(0 <= i < src.len()) {
        no_progress(i)
    } else {
        let inner = read_one(src, i + 1);
        match inner.result {
            Ok(Some(form)) => Outcome {
                result: Ok(
                    Some(WithSpan { span: (i, form.span.1), data: wrapped(name, form.data) }),
                ),
                pos: inner.pos,
            },
            Ok(None) => failed(Fault::InvalidInput((i, i)), inner.pos),
            Err(fault) => failed(fault, inner.pos),
        }
    }
}

/// Reads past `#_ form`, whose `#` stands at `i`, and then reads the form
/// that follows it.
///
/// Without a form to discard the input is invalid, from the `#` to the end of
/// the source. Where the form to discard is an unclosed collection, the fault
/// begins at the `#`; every other fault of that form is passed on as it is.
pub open spec fn read_discard(src: Seq<char>, i: int) -> Outcome<SpanForm>
    decreases src.len() - i, 1int,
{
    if !(0 <= i && i + 2 <= src.len()) {
        no_progress(i)
    } else {
        let dropped = read_one(src, i + 2);
        match dropped.result {
            Ok(Some(_)) => if i < dropped.pos <= src.len() {
                read_one(src, dropped.pos)
            } else {
                no_progress(i)
            },
            Ok(None) => failed(Fault::InvalidInput((i, last_position(src))), dropped.pos),
            Err(Fault::UnclosedCollection(span)) => failed(
                Fault::UnclosedCollection((i, span.1)),
                dropped.pos,
            ),
            Err(fault) => failed(fault, dropped.pos),
        }
    }
}

/// Reads forms from `i` up to the closing delimiter `closer`, behind the forms
/// in `acc`. `open` is the position of the opening delimiter. Gives the forms
/// and the position of the closing delimiter.
///
/// Where the source ends first, the input is insufficient, from the opening
/// delimiter to the end of the source. The fault of a form is passed on.
pub open spec fn read_items(
    src: Seq<char>,
    i: int,
    open: int,
    closer: char,
    acc: Seq<SpanForm>,
) -> Outcome<(Seq<SpanForm>, int)>
    decreases src.len() - i, 3int,
{
    let at = skip_whitespace(src, i);
    if !(0 <= i <= at < src.len()) {
        failed(Fault::InsufficientInput((open, last_position(src))), at)
    } else if src[at] == closer {
        Outcome { result: Ok(Some((acc, at))), pos: at + 1 }
    } else {
        let item = read_one(src, at);
        match item.result {
            Ok(Some(form)) => if at < item.pos <= src.len() {
                read_items(src, item.pos, open, closer, acc.push(form))
            } else {
                no_progress(at)
            },
            Ok(None) => failed(Fault::InsufficientInput((open, last_position(src))), item.pos),
            Err(fault) => failed(fault, item.pos),
        }
    }
}

/// Reads key-value pairs from `i` up to the closing `}`, behind the pairs in
/// `acc`. `open` is the position of the opening delimiter. Gives the pairs and
/// the position of the closing delimiter.
///
/// Where the source ends first, the input is insufficient, from the opening
/// delimiter to the end of the source; where the `}` follows a key, from the
/// opening delimiter to that `}`. The fault of a form is passed on.
pub open spec fn read_pairs(
    src: Seq<char>,
    i: int,
    open: int,
    acc: Seq<(SpanForm, SpanForm)>,
) -> Outcome<(Seq<(SpanForm, SpanForm)>, int)>
    decreases src.len() - i, 3int,
{
    let at = skip_whitespace(src, i);
    if !(0 <= i <= at < src.len()) {
        failed(Fault::InsufficientInput((open, last_position(src))), at)
    } else if src[at] == '}' {
        Outcome { result: Ok(Some((acc, at))), pos: at + 1 }
    } else {
        let key = read_one(src, at);
        match key.result {
            Ok(Some(k)) => {
                let then = skip_whitespace(src, key.pos);
                if !(at < key.pos <= then <= src.len()) {
                    no_progress(at)
                } else if char_at_is(src, then, '}') {
                    failed(Fault::InsufficientInput((open, then)), then + 1)
                } else {
                    let value = read_one(src, then);
                    match value.result {
                        Ok(Some(v)) => if then < value.pos <= src.len() {
                            read_pairs(src, value.pos, open, acc.push((k, v)))
                        } else {
                            no_progress(at)
                        },
                        Ok(None) => failed(
                            Fault::InsufficientInput((open, last_position(src))),
                            value.pos,
                        ),
                        Err(fault) => failed(fault, value.pos),
                    }
                }
            },
            Ok(None) => failed(Fault::InsufficientInput((open, last_position(src))), key.pos),
            Err(fault) => failed(fault, key.pos),
        }
    }
}

/// A collection read between the opening delimiter at `open` and its closer.
pub open spec fn collected(
    open: int,
    items: Outcome<(Seq<SpanForm>, int)>,
    build: spec_fn(Seq<ValueView>) -> ValueView,
) -> Outcome<SpanForm> {
    match items.result {
        Ok(Some((forms, close))) => Outcome {
            result: Ok(Some(WithSpan { span: (open, close), data: build(data_of(forms)) })),
            pos: items.pos,
        },
        Ok(None) => Outcome { result: Ok(None), pos: items.pos },
        Err(fault) => failed(fault, items.pos),
    }
}

/// Reads the list whose `(` stands at `i`.
pub open spec fn read_list(src: Seq<char>, i: int) -> Outcome<SpanForm>
    decreases src.len() - i, 1int,
{
    if !(0 <= i < src.len()) {
        no_progress(i)
    } else {
        collected(
            i,
            read_items(src, i + 1, i, ')', Seq::empty()),
            |items: Seq<ValueView>| ValueView::List(items),
        )
    }
}

/// Reads the vector whose `[` stands at `i`.
pub open spec fn read_vect(src: Seq<char>, i: int) -> Outcome<SpanForm>
    decreases src.len() - i, 1int,
{
    if !(0 <= i < src.len()) {
        no_progress(i)
    } else {
        collected(
            i,
            read_items(src, i + 1, i, ']', Seq::empty()),
            |items: Seq<ValueView>| ValueView::Vect(items),
        )
    }
}

/// Reads the set whose `#` stands at `i`, with `{` behind it.
pub open spec fn read_set(src: Seq<char>, i: int) -> Outcome<SpanForm>
    decreases src.len() - i, 1int,
{
    if !(0 <= i && i + 2 <= src.len()) {
        no_progress(i)
    } else {
        collected(
            i,
            read_items(src, i + 2, i, '}', Seq::empty()),
            |items: Seq<ValueView>| ValueView::SetForm(items),
        )
    }
}

/// Reads the map whose `{` stands at `i`.
pub open spec fn read_map(src: Seq<char>, i: int) -> Outcome<SpanForm>
    decreases src.len() - i, 1int,
{
    if !(0 <= i < src.len()) {
        no_progress(i)
    } else {
        let pairs = read_pairs(src, i + 1, i, Seq::empty());
        match pairs.result {
            Ok(Some((kvs, close))) => Outcome {
                result: Ok(
                    Some(WithSpan { span: (i, close), data: ValueView::MapForm(pair_data_of(kvs)) }),
                ),
                pos: pairs.pos,
            },
            Ok(None) => Outcome { result: Ok(None), pos: pairs.pos },
            Err(fault) => failed(fault, pairs.pos),
        }
    }
}

/// Reads the map with a namespace tag, `#:ns{ ... }`, whose `#` stands at `i`.
/// The tag is read and left aside: the value is the map as written, with the
/// span from the `#` to the closing delimiter.
///
/// Where the source ends behind the tag the input is insufficient; where
/// another character than `{` follows the tag it is invalid, from the `#` to
/// that character.
pub open spec fn read_namespaced_map(src: Seq<char>, i: int) -> Outcome<SpanForm>
    decreases src.len() - i, 1int,
{
    if !(0 <= i < src.len()) {
        no_progress(i)
    } else {
        let tag = read_keyword(src, i + 1);
        match tag.result {
            Ok(Some(_)) => {
                if !(i < tag.pos) {
                    no_progress(i)
                } else if tag.pos >= src.len() {
                    failed(Fault::InsufficientInput((i, last_position(src))), tag.pos)
                } else if src[tag.pos] != '{' {
                    failed(Fault::InvalidInput((i, tag.pos)), tag.pos)
                } else {
                    let map = read_map(src, tag.pos);
                    match map.result {
                        Ok(Some(m)) => Outcome {
                            result: Ok(Some(WithSpan { span: (i, m.span.1), data: m.data })),
                            pos: map.pos,
                        },
                        Ok(None) => Outcome { result: Ok(None), pos: map.pos },
                        Err(fault) => failed(fault, map.pos),
                    }
                }
            },
            Ok(None) => failed(Fault::InvalidInput((i, i)), tag.pos),
            Err(fault) => failed(fault, tag.pos),
        }
    }
}

/// A span of positions as the span of byte offsets that the reader reports.
pub open spec fn span_in_bytes(src: Seq<char>, span: Span) -> ByteIndexSpan {
    (byte_offset(src, span.0) as usize, byte_offset(src, span.1) as usize)
}

/// A fault as the error that the reader reports.
pub open spec fn fault_in_bytes(src: Seq<char>, fault: Fault) -> ReadError {
    match fault {
        Fault::InsufficientInput(span) => ReadError::InsufficientInput(span_in_bytes(src, span)),
        Fault::InvalidInput(span) => ReadError::InvalidInput(span_in_bytes(src, span)),
        Fault::UnclosedCollection(span) => ReadError::UnclosedCollection(span_in_bytes(src, span)),
    }
}

/// The result of a read as the reader reports it: every span in byte offsets.
pub open spec fn in_bytes<T>(src: Seq<char>, result: Result<Option<WithSpan<Span, T>>, Fault>)
    -> Result<Option<WithSpan<ByteIndexSpan, T>>, ReadError> {
    match result {
        Ok(Some(form)) => Ok(
            Some(WithSpan { span: span_in_bytes(src, form.span), data: form.data }),
        ),
        Ok(None) => Ok(None),
        Err(fault) => Err(fault_in_bytes(src, fault)),
    }
}

/// A symbol that was read, as a value.
pub open spec fn symbol_form(out: Outcome<WithSpan<Span, SymbolView>>) -> Outcome<SpanForm> {
    Outcome {
        result: match out.result {
            Ok(Some(sym)) => Ok(
                Some(WithSpan { span: sym.span, data: ValueView::Symbol(sym.data) }),
            ),
            Ok(None) => Ok(None),
            Err(fault) => Err(fault),
        },
        pos: out.pos,
    }
}

} // verus!

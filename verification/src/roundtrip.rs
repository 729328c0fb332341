//! Writing a value and reading it back: every value that is read is read
//! again from the text that stands for it.

use vstd::prelude::*;
use crate::grammar::{
    char_at_is, closing_quote, data_of, has_leading_slash, is_closer, is_symbol_char,
    is_whitespace_char, pair_data_of, read_discard, read_items, read_keyword, read_list, read_map,
    read_namespaced_map, read_one, read_pairs, read_set, read_string, read_symbol, read_symbol_part,
    read_vect, read_wrapped, skip_whitespace, symbol_part_end, symbol_value, Outcome, Span,
    SpanForm,
};
use crate::keyword::KeywordView;
use crate::progress::{
    lemma_closing_quote, lemma_comment_end, lemma_read_keyword_tiles, lemma_read_one_advances,
    lemma_read_symbol_part_tiles, lemma_skip_whitespace, lemma_symbol_part_end,
};
use crate::symbol::SymbolView;
use crate::value::{joined, joined_pairs, ValueView};
use crate::WithSpan;

verus! {

/// A run of characters that is read as one symbol part: symbol characters,
/// with no `/` among them unless the part is the `/` alone.
pub open spec fn is_part(part: Seq<char>) -> bool {
    &&& part.len() >= 1
    &&& forall|k: int| 0 <= k < part.len() ==> is_symbol_char(#[trigger] part[k])
    &&& forall|k: int| 1 <= k < part.len() ==> #[trigger] part[k] != '/'
    &&& part[0] == '/' ==> part.len() == 1
}

/// A symbol whose parts are read as symbol parts.
pub open spec fn is_written_symbol(symbol: SymbolView) -> bool {
    match symbol {
        SymbolView::Unqualified { name } => is_part(name),
        SymbolView::Qualified { namespace, name } => is_part(namespace) && is_part(name),
    }
}

/// A text at whose beginning the reader looks for a symbol: the text does not
/// begin as another kind of form does.
pub open spec fn begins_as_symbol(text: Seq<char>) -> bool {
    &&& text.len() >= 1
    &&& text[0] != '\'' && text[0] != '@' && text[0] != ':' && text[0] != '"' && text[0] != ';'
    &&& text[0] == '#' && text.len() >= 2 ==> text[1] != '{' && text[1] != ':' && text[1] != '_'
}

/// A keyword as the reader gives it: its parts are read as symbol parts, and
/// behind a single colon no second colon follows.
pub open spec fn is_written_keyword(keyword: KeywordView) -> bool {
    match keyword {
        KeywordView::Unqualified { name } => is_part(name) && name[0] != ':',
        KeywordView::Qualified { namespace, name } => is_part(namespace) && is_part(name)
            && namespace[0] != ':',
        KeywordView::SelfQualified { name } => is_part(name),
        KeywordView::AliasQualified { alias, name } => is_part(alias) && is_part(name),
    }
}

/// A value as the reader gives it. There are no numbers among these values; a
/// string holds no quote; a symbol is none of `nil`, `true` and `false`, which
/// are atoms of their own.
pub open spec fn is_written(value: ValueView) -> bool
    decreases value,
{
    match value {
        ValueView::Nil => true,
        ValueView::Bool(_) => true,
        ValueView::Num(_) => false,
        ValueView::Str(s) => forall|k: int| 0 <= k < s.len() ==> #[trigger] s[k] != '"',
        ValueView::Keyword(k) => is_written_keyword(k),
        ValueView::Symbol(s) => is_written_symbol(s) && begins_as_symbol(s.text())
            && symbol_value(s) == value,
        ValueView::List(items) => forall|k: int|
            0 <= k < items.len() ==> is_written(#[trigger] items[k]),
        ValueView::Vect(items) => forall|k: int|
            0 <= k < items.len() ==> is_written(#[trigger] items[k]),
        ValueView::SetForm(items) => forall|k: int|
            0 <= k < items.len() ==> is_written(#[trigger] items[k]),
        ValueView::MapForm(pairs) => forall|k: int|
            0 <= k < pairs.len() ==> is_written((#[trigger] pairs[k]).0) && is_written(
                pairs[k].1,
            ),
    }
}

proof fn lemma_part_read(src: Seq<char>, i: int)
    requires
        0 <= i <= src.len(),
    ensures
        read_symbol_part(src, i).result matches Ok(Some(part)) ==> part.data.len() >= 1
            && part.data[0] == src[i] && (!has_leading_slash(part.data) ==> is_part(part.data)),
{
    if i < src.len() && is_symbol_char(src[i]) {
        lemma_symbol_part_end(src, i + 1);
        let end = symbol_part_end(src, i + 1);
        let data = src.subrange(i, end);
        assert forall|k: int| 0 <= k < data.len() implies is_symbol_char(#[trigger] data[k]) by {
            assert(data[k] == src[i + k]);
        }
        assert forall|k: int| 1 <= k < data.len() implies #[trigger] data[k] != '/' by {
            assert(data[k] == src[i + k]);
        }
    }
}

proof fn lemma_symbol_read(src: Seq<char>, i: int)
    requires
        0 <= i <= src.len(),
    ensures
        read_symbol(src, i).result matches Ok(Some(sym)) ==> is_written_symbol(sym.data)
            && sym.data.text().len() >= 1 && sym.data.text()[0] == src[i] && (
        sym.data.text().len() >= 2 ==> i + 1 < src.len() && sym.data.text()[1] == src[i + 1]),
{
    lemma_part_read(src, i);
    lemma_read_symbol_part_tiles(src, i);
    let first = read_symbol_part(src, i);
    if let Ok(Some(part1)) = first.result {
        if first.pos < src.len() {
            lemma_part_read(src, first.pos + 1);
            lemma_read_symbol_part_tiles(src, first.pos + 1);
        }
        lemma_symbol_part_end(src, i + 1);
        if let Ok(Some(sym)) = read_symbol(src, i).result {
            let text = sym.data.text();
            if text.len() >= 2 {
                if part1.data.len() >= 2 {
                    assert(part1.data[1] == src[i + 1]);
                }
            }
        }
    }
}

proof fn lemma_keyword_read(src: Seq<char>, i: int)
    requires
        0 <= i < src.len(),
    ensures
        read_keyword(src, i).result matches Ok(Some(kw)) ==> is_written(kw.data),
{
    let double_colon = char_at_is(src, i + 1, ':');
    let start = if double_colon {
        i + 2
    } else {
        i + 1
    };
    lemma_symbol_read(src, start);
}

proof fn lemma_string_read(src: Seq<char>, i: int)
    requires
        0 <= i < src.len(),
    ensures
        read_string(src, i).result matches Ok(Some(s)) ==> is_written(s.data),
{
    lemma_closing_quote(src, i + 1);
    let close = closing_quote(src, i + 1);
    if close < src.len() {
        let text = src.subrange(i + 1, close);
        assert forall|k: int| 0 <= k < text.len() implies #[trigger] text[k] != '"' by {
            assert(text[k] == src[i + 1 + k]);
        }
    }
}

/// That each of the forms holds a value as the reader gives it.
pub open spec fn all_written(forms: Seq<SpanForm>) -> bool {
    forall|k: int| 0 <= k < forms.len() ==> is_written((#[trigger] forms[k]).data)
}

/// That each of the pairs holds values as the reader gives them.
pub open spec fn all_pairs_written(pairs: Seq<(SpanForm, SpanForm)>) -> bool {
    forall|k: int|
        0 <= k < pairs.len() ==> is_written((#[trigger] pairs[k]).0.data) && is_written(
            pairs[k].1.data,
        )
}

proof fn lemma_symbol_begins(src: Seq<char>, i: int)
    requires
        0 <= i < src.len(),
        !is_whitespace_char(src[i]),
        !is_closer(src[i]),
        src[i] != '(' && src[i] != '[' && src[i] != '{',
        src[i] != '\'' && src[i] != '@' && src[i] != ':' && src[i] != '"' && src[i] != ';',
        src[i] == '#' ==> !char_at_is(src, i + 1, '{') && !char_at_is(src, i + 1, ':')
            && !char_at_is(src, i + 1, '_'),
    ensures
        read_symbol(src, i).result matches Ok(Some(sym)) ==> is_written(symbol_value(sym.data)),
{
    lemma_symbol_read(src, i);
    if let Ok(Some(sym)) = read_symbol(src, i).result {
        let value = symbol_value(sym.data);
        if value is Symbol {
            assert(value == ValueView::Symbol(sym.data));
            assert(begins_as_symbol(sym.data.text()));
        }
    }
}

/// Every value that is read is a value as the reader gives it.
pub proof fn lemma_read_one_written(src: Seq<char>, i: int)
    requires
        0 <= i <= src.len(),
    ensures
        read_one(src, i).result matches Ok(Some(form)) ==> is_written(form.data),
    decreases src.len() - i, 2int,
{
    if i < src.len() {
        let ch = src[i];
        if is_whitespace_char(ch) {
            lemma_read_one_written(src, i + 1);
        } else if is_closer(ch) {
        } else if ch == '(' {
            lemma_items_written(src, i + 1, i, ')', Seq::empty());
            assert(read_one(src, i) == read_list(src, i));
        } else if ch == '[' {
            lemma_items_written(src, i + 1, i, ']', Seq::empty());
            assert(read_one(src, i) == read_vect(src, i));
        } else if ch == '{' {
            lemma_map_written(src, i);
        } else if ch == '\'' {
            lemma_wrapped_written(src, i, "quote"@);
        } else if ch == '@' {
            lemma_wrapped_written(src, i, "deref"@);
        } else if ch == '#' && char_at_is(src, i + 1, '{') {
            lemma_items_written(src, i + 2, i, '}', Seq::empty());
            assert(read_one(src, i) == read_set(src, i));
        } else if ch == '#' && char_at_is(src, i + 1, ':') {
            assert(read_one(src, i) == read_namespaced_map(src, i));
            lemma_read_keyword_tiles(src, i + 1);
            let tag = read_keyword(src, i + 1);
            if tag.pos < src.len() {
                lemma_map_written(src, tag.pos);
            }
        } else if ch == '#' && char_at_is(src, i + 1, '_') {
            assert(read_one(src, i) == read_discard(src, i));
            lemma_read_one_advances(src, i + 2);
            let dropped = read_one(src, i + 2);
            if let Ok(Some(_)) = dropped.result {
                lemma_read_one_written(src, dropped.pos);
            }
        } else if ch == ':' {
            lemma_keyword_read(src, i);
        } else if ch == '"' {
            lemma_string_read(src, i);
        } else if ch == ';' {
            lemma_comment_end(src, i);
            lemma_read_one_written(src, crate::grammar::comment_end(src, i));
        } else {
            lemma_symbol_begins(src, i);
        }
    }
}

proof fn lemma_quote_names()
    ensures
        is_written(ValueView::Symbol(SymbolView::Unqualified { name: "quote"@ })),
        is_written(ValueView::Symbol(SymbolView::Unqualified { name: "deref"@ })),
{
    reveal_strlit("quote");
    reveal_strlit("deref");
    reveal_strlit("nil");
    reveal_strlit("true");
    reveal_strlit("false");
    let q = "quote"@;
    let d = "deref"@;
    assert(q.len() == 5 && d.len() == 5);
    assert(q[0] == 'q' && q[1] == 'u' && q[2] == 'o' && q[3] == 't' && q[4] == 'e');
    assert(d[0] == 'd' && d[1] == 'e' && d[2] == 'r' && d[3] == 'e' && d[4] == 'f');
    assert(is_part(q));
    assert(is_part(d));
    assert("nil"@.len() == 3 && "true"@.len() == 4 && "false"@.len() == 5);
    assert("false"@[0] == 'f');
}

proof fn lemma_wrapped_written(src: Seq<char>, i: int, name: Seq<char>)
    requires
        0 <= i < src.len(),
        name == "quote"@ || name == "deref"@,
    ensures
        read_wrapped(src, i, name).result matches Ok(Some(form)) ==> is_written(form.data),
    decreases src.len() - i, 1int,
{
    lemma_read_one_written(src, i + 1);
    lemma_quote_names();
    if let Ok(Some(form)) = read_wrapped(src, i, name).result {
        let inner = read_one(src, i + 1).result->Ok_0->Some_0;
        let items = seq![ValueView::Symbol(SymbolView::Unqualified { name }), inner.data];
        assert(form.data == ValueView::List(items));
        assert forall|k: int| 0 <= k < items.len() implies is_written(#[trigger] items[k]) by {
            if k == 0 {
            } else {
                assert(items[k] == inner.data);
            }
        }
    }
}

proof fn lemma_items_written(
    src: Seq<char>,
    i: int,
    open: int,
    closer: char,
    acc: Seq<SpanForm>,
)
    requires
        0 <= open < i <= src.len(),
        all_written(acc),
    ensures
        read_items(src, i, open, closer, acc).result matches Ok(Some((forms, _)))
            ==> all_written(forms) && is_written(ValueView::List(data_of(forms))) && is_written(
            ValueView::Vect(data_of(forms)),
        ) && is_written(ValueView::SetForm(data_of(forms))),
    decreases src.len() - i, 3int,
{
    lemma_skip_whitespace(src, i);
    let at = skip_whitespace(src, i);
    if at < src.len() {
        if src[at] == closer {
            assert forall|k: int| 0 <= k < data_of(acc).len() implies is_written(
                #[trigger] data_of(acc)[k],
            ) by {
                assert(is_written(acc[k].data));
            }
        } else {
            lemma_read_one_advances(src, at);
            lemma_read_one_written(src, at);
            let item = read_one(src, at);
            if let Ok(Some(form)) = item.result {
                let more = acc.push(form);
                assert forall|k: int| 0 <= k < more.len() implies is_written(
                    (#[trigger] more[k]).data,
                ) by {
                    if k < acc.len() {
                        assert(more[k] == acc[k]);
                    }
                }
                lemma_items_written(src, item.pos, open, closer, more);
            }
        }
    }
}

proof fn lemma_pairs_written(
    src: Seq<char>,
    i: int,
    open: int,
    acc: Seq<(SpanForm, SpanForm)>,
)
    requires
        0 <= open < i <= src.len(),
        all_pairs_written(acc),
    ensures
        read_pairs(src, i, open, acc).result matches Ok(Some((pairs, _))) ==> all_pairs_written(
            pairs,
        ) && is_written(ValueView::MapForm(pair_data_of(pairs))),
    decreases src.len() - i, 3int,
{
    lemma_skip_whitespace(src, i);
    let at = skip_whitespace(src, i);
    if at < src.len() {
        if src[at] == '}' {
            assert forall|k: int| 0 <= k < pair_data_of(acc).len() implies is_written(
                (#[trigger] pair_data_of(acc)[k]).0,
            ) && is_written(pair_data_of(acc)[k].1) by {
                assert(is_written(acc[k].0.data));
            }
        } else {
            lemma_read_one_advances(src, at);
            lemma_read_one_written(src, at);
            let key = read_one(src, at);
            if let Ok(Some(k)) = key.result {
                lemma_skip_whitespace(src, key.pos);
                let then = skip_whitespace(src, key.pos);
                if !char_at_is(src, then, '}') {
                    lemma_read_one_advances(src, then);
                    lemma_read_one_written(src, then);
                    let value = read_one(src, then);
                    if let Ok(Some(v)) = value.result {
                        let more = acc.push((k, v));
                        assert forall|j: int| 0 <= j < more.len() implies is_written(
                            (#[trigger] more[j]).0.data,
                        ) && is_written(more[j].1.data) by {
                            if j < acc.len() {
                                assert(more[j] == acc[j]);
                            }
                        }
                        lemma_pairs_written(src, value.pos, open, more);
                    }
                }
            }
        }
    }
}

proof fn lemma_map_written(src: Seq<char>, i: int)
    requires
        0 <= i < src.len(),
    ensures
        read_map(src, i).result matches Ok(Some(form)) ==> is_written(form.data),
    decreases src.len() - i, 1int,
{
    lemma_pairs_written(src, i + 1, i, Seq::empty());
}

/// That `text` stands in `src` from position `at` on.
pub open spec fn stands_at(src: Seq<char>, at: int, text: Seq<char>) -> bool {
    0 <= at && at + text.len() <= src.len() && src.subrange(at, at + text.len()) == text
}

/// That a form may end just before position `end`: the source ends there, or
/// holds whitespace or a closing delimiter there.
pub open spec fn form_may_end(src: Seq<char>, end: int) -> bool {
    end >= src.len() || is_whitespace_char(src[end]) || is_closer(src[end])
}

/// The outcome of reading `data` from the characters from `at` up to `end`.
pub open spec fn read_as<T>(data: T, at: int, end: int) -> Outcome<WithSpan<Span, T>> {
    Outcome { result: Ok(Some(WithSpan { span: (at, end - 1), data })), pos: end }
}

proof fn lemma_stands_split(src: Seq<char>, at: int, a: Seq<char>, b: Seq<char>)
    requires
        stands_at(src, at, a + b),
    ensures
        stands_at(src, at, a),
        stands_at(src, at + a.len(), b),
{
    let whole = src.subrange(at, at + (a + b).len());
    assert forall|k: int| 0 <= k < a.len() implies #[trigger] src.subrange(at, at + a.len())[k]
        == a[k] by {
        assert(whole[k] == (a + b)[k]);
    }
    assert(src.subrange(at, at + a.len()) =~= a);
    assert forall|k: int| 0 <= k < b.len() implies #[trigger] src.subrange(
        at + a.len(),
        at + a.len() + b.len(),
    )[k] == b[k] by {
        assert(whole[a.len() + k] == (a + b)[a.len() + k]);
    }
    assert(src.subrange(at + a.len(), at + a.len() + b.len()) =~= b);
}

proof fn lemma_stands_char(src: Seq<char>, at: int, text: Seq<char>, k: int)
    requires
        stands_at(src, at, text),
        0 <= k < text.len(),
    ensures
        src[at + k] == text[k],
{
    assert(src.subrange(at, at + text.len())[k] == text[k]);
}

proof fn lemma_scan_part(src: Seq<char>, start: int, end: int)
    requires
        0 <= start <= end <= src.len(),
        forall|k: int| start <= k < end ==> is_symbol_char(#[trigger] src[k]) && src[k] != '/',
        end == src.len() || src[end] == '/' || !is_symbol_char(src[end]),
    ensures
        symbol_part_end(src, start) == end,
    decreases end - start,
{
    if start < end {
        assert(is_symbol_char(src[start]) && src[start] != '/');
        lemma_scan_part(src, start + 1, end);
    }
}

proof fn lemma_scan_string(src: Seq<char>, start: int, end: int)
    requires
        0 <= start <= end < src.len(),
        forall|k: int| start <= k < end ==> #[trigger] src[k] != '"',
        src[end] == '"',
    ensures
        closing_quote(src, start) == end,
    decreases end - start,
{
    if start < end {
        assert(src[start] != '"');
        lemma_scan_string(src, start + 1, end);
    }
}

proof fn lemma_part_at(src: Seq<char>, at: int, part: Seq<char>)
    requires
        is_part(part),
        stands_at(src, at, part),
        at + part.len() == src.len() || src[at + part.len()] == '/' || !is_symbol_char(
            src[at + part.len()],
        ),
    ensures
        read_symbol_part(src, at) == read_as(part, at, at + part.len()),
{
    let end = at + part.len();
    lemma_stands_char(src, at, part, 0);
    assert forall|k: int| at + 1 <= k < end implies is_symbol_char(#[trigger] src[k]) && src[k]
        != '/' by {
        lemma_stands_char(src, at, part, k - at);
        assert(is_symbol_char(part[k - at]) && part[k - at] != '/');
    }
    lemma_scan_part(src, at + 1, end);
}

proof fn lemma_symbol_at(src: Seq<char>, at: int, symbol: SymbolView)
    requires
        is_written_symbol(symbol),
        stands_at(src, at, symbol.text()),
        at + symbol.text().len() == src.len() || !is_symbol_char(src[at + symbol.text().len()]),
    ensures
        read_symbol(src, at) == read_as(symbol, at, at + symbol.text().len()),
        symbol.text().len() >= 1,
{
    match symbol {
        SymbolView::Unqualified { name } => {
            lemma_part_at(src, at, name);
        },
        SymbolView::Qualified { namespace, name } => {
            let slash = at + namespace.len();
            lemma_stands_split(src, at, namespace + seq!['/'], name);
            lemma_stands_split(src, at, namespace, seq!['/']);
            lemma_stands_char(src, slash, seq!['/'], 0);
            lemma_part_at(src, at, namespace);
            lemma_part_at(src, slash + 1, name);
        },
    }
}

proof fn lemma_keyword_at(src: Seq<char>, at: int, keyword: KeywordView)
    requires
        is_written_keyword(keyword),
        stands_at(src, at, keyword.text()),
        at + keyword.text().len() == src.len() || !is_symbol_char(
            src[at + keyword.text().len()],
        ),
    ensures
        read_keyword(src, at) == read_as(
            ValueView::Keyword(keyword),
            at,
            at + keyword.text().len(),
        ),
        keyword.text().len() >= 2,
        keyword.text()[0] == ':',
{
    match keyword {
        KeywordView::Unqualified { name } => {
            let symbol = SymbolView::Unqualified { name };
            lemma_stands_split(src, at, seq![':'], symbol.text());
            lemma_stands_char(src, at, seq![':'], 0);
            lemma_stands_char(src, at + 1, name, 0);
            lemma_symbol_at(src, at + 1, symbol);
        },
        KeywordView::Qualified { namespace, name } => {
            let symbol = SymbolView::Qualified { namespace, name };
            assert(keyword.text() =~= seq![':'] + symbol.text());
            lemma_stands_split(src, at, seq![':'], symbol.text());
            lemma_stands_char(src, at, seq![':'], 0);
            lemma_stands_char(src, at + 1, symbol.text(), 0);
            lemma_symbol_at(src, at + 1, symbol);
        },
        KeywordView::SelfQualified { name } => {
            let symbol = SymbolView::Unqualified { name };
            lemma_stands_split(src, at, seq![':', ':'], symbol.text());
            lemma_stands_char(src, at, seq![':', ':'], 0);
            lemma_stands_char(src, at, seq![':', ':'], 1);
            lemma_symbol_at(src, at + 2, symbol);
        },
        KeywordView::AliasQualified { alias, name } => {
            let symbol = SymbolView::Qualified { namespace: alias, name };
            assert(keyword.text() =~= seq![':', ':'] + symbol.text());
            lemma_stands_split(src, at, seq![':', ':'], symbol.text());
            lemma_stands_char(src, at, seq![':', ':'], 0);
            lemma_stands_char(src, at, seq![':', ':'], 1);
            lemma_symbol_at(src, at + 2, symbol);
        },
    }
}

proof fn lemma_string_at(src: Seq<char>, at: int, text: Seq<char>)
    requires
        forall|k: int| 0 <= k < text.len() ==> #[trigger] text[k] != '"',
        stands_at(src, at, seq!['"'] + text + seq!['"']),
    ensures
        read_string(src, at) == read_as(ValueView::Str(text), at, at + text.len() + 2),
{
    let close = at + 1 + text.len();
    lemma_stands_split(src, at, seq!['"'] + text, seq!['"']);
    lemma_stands_split(src, at, seq!['"'], text);
    lemma_stands_char(src, close, seq!['"'], 0);
    assert forall|k: int| at + 1 <= k < close implies #[trigger] src[k] != '"' by {
        lemma_stands_char(src, at + 1, text, k - at - 1);
    }
    lemma_scan_string(src, at + 1, close);
}

proof fn lemma_symbol_text_at(src: Seq<char>, at: int, symbol: SymbolView)
    requires
        is_written_symbol(symbol),
        begins_as_symbol(symbol.text()),
        stands_at(src, at, symbol.text()),
        form_may_end(src, at + symbol.text().len()),
    ensures
        read_one(src, at) == read_as(symbol_value(symbol), at, at + symbol.text().len()),
{
    let text = symbol.text();
    lemma_symbol_at(src, at, symbol);
    lemma_stands_char(src, at, text, 0);
    if text.len() >= 2 {
        lemma_stands_char(src, at, text, 1);
    }
    assert(is_symbol_char(text[0])) by {
        match symbol {
            SymbolView::Unqualified { name } => {
                assert(text[0] == name[0]);
            },
            SymbolView::Qualified { namespace, name } => {
                assert(text[0] == namespace[0]);
            },
        }
    }
}

/// The text of the items from number `k` on, as it stands before the closing
/// delimiter: a space before each item but the first.
pub open spec fn rest_of_items(items: Seq<ValueView>, k: int) -> Seq<char>
    decreases items.len() - k,
{
    if k < 0 || k >= items.len() {
        Seq::empty()
    } else if k == 0 {
        items[k].text() + rest_of_items(items, k + 1)
    } else {
        seq![' '] + items[k].text() + rest_of_items(items, k + 1)
    }
}

/// The text of the pairs from number `k` on, as it stands before the closing
/// delimiter: a comma and a space before each pair but the first.
pub open spec fn rest_of_pairs(pairs: Seq<(ValueView, ValueView)>, k: int) -> Seq<char>
    decreases pairs.len() - k,
{
    if k < 0 || k >= pairs.len() {
        Seq::empty()
    } else if k == 0 {
        pairs[k].0.text() + seq![' '] + pairs[k].1.text() + rest_of_pairs(pairs, k + 1)
    } else {
        seq![',', ' '] + pairs[k].0.text() + seq![' '] + pairs[k].1.text() + rest_of_pairs(
            pairs,
            k + 1,
        )
    }
}

proof fn lemma_joined_rest(items: Seq<ValueView>, m: nat)
    requires
        m <= items.len(),
    ensures
        joined(items, m) + rest_of_items(items, m as int) == joined(items, items.len()),
    decreases items.len() - m,
{
    if m == items.len() {
        assert(joined(items, m) + rest_of_items(items, m as int) =~= joined(items, m));
    } else {
        lemma_joined_rest(items, m + 1);
        assert(joined(items, m) + rest_of_items(items, m as int) =~= joined(items, m + 1)
            + rest_of_items(items, (m + 1) as int));
    }
}

proof fn lemma_joined_pairs_rest(pairs: Seq<(ValueView, ValueView)>, m: nat)
    requires
        m <= pairs.len(),
    ensures
        joined_pairs(pairs, m) + rest_of_pairs(pairs, m as int) == joined_pairs(
            pairs,
            pairs.len(),
        ),
    decreases pairs.len() - m,
{
    if m == pairs.len() {
        assert(joined_pairs(pairs, m) + rest_of_pairs(pairs, m as int) =~= joined_pairs(
            pairs,
            m,
        ));
    } else {
        lemma_joined_pairs_rest(pairs, m + 1);
        assert(joined_pairs(pairs, m) + rest_of_pairs(pairs, m as int) =~= joined_pairs(
            pairs,
            m + 1,
        ) + rest_of_pairs(pairs, (m + 1) as int));
    }
}

proof fn lemma_text_begins(value: ValueView)
    requires
        is_written(value),
    ensures
        value.text().len() >= 1,
        !is_whitespace_char(value.text()[0]),
        !is_closer(value.text()[0]),
{
    reveal_strlit("nil");
    reveal_strlit("true");
    reveal_strlit("false");
    match value {
        ValueView::Symbol(s) => {
            match s {
                SymbolView::Unqualified { name } => {
                    assert(is_symbol_char(name[0]));
                },
                SymbolView::Qualified { namespace, name } => {
                    assert(is_symbol_char(namespace[0]));
                    assert(s.text()[0] == namespace[0]);
                },
            }
        },
        ValueView::Keyword(k) => {
            match k {
                KeywordView::Unqualified { name } => {},
                KeywordView::Qualified { namespace, name } => {},
                KeywordView::SelfQualified { name } => {},
                KeywordView::AliasQualified { alias, name } => {},
            }
        },
        _ => {},
    }
}

proof fn lemma_atom_names()
    ensures
        is_part("nil"@),
        is_part("true"@),
        is_part("false"@),
        begins_as_symbol("nil"@),
        begins_as_symbol("true"@),
        begins_as_symbol("false"@),
        "nil"@ != "true"@,
        "nil"@ != "false"@,
        "true"@ != "false"@,
{
    reveal_strlit("nil");
    reveal_strlit("true");
    reveal_strlit("false");
    let n = "nil"@;
    let t = "true"@;
    let f = "false"@;
    assert(n.len() == 3 && t.len() == 4 && f.len() == 5);
    assert(n[0] == 'n' && n[1] == 'i' && n[2] == 'l');
    assert(t[0] == 't' && t[1] == 'r' && t[2] == 'u' && t[3] == 'e');
    assert(f[0] == 'f' && f[1] == 'a' && f[2] == 'l' && f[3] == 's' && f[4] == 'e');
}

/// The text of a value as the reader gives it is read as that value, where it
/// stands in a source and a form may end behind it.
pub proof fn lemma_read_text_at(src: Seq<char>, at: int, value: ValueView)
    requires
        is_written(value),
        stands_at(src, at, value.text()),
        form_may_end(src, at + value.text().len()),
    ensures
        read_one(src, at) == read_as(value, at, at + value.text().len()),
    decreases value, 0nat,
{
    let text = value.text();
    let end = at + text.len();
    lemma_text_begins(value);
    lemma_stands_char(src, at, text, 0);
    match value {
        ValueView::Nil => {
            lemma_atom_names();
            lemma_symbol_text_at(src, at, SymbolView::Unqualified { name: "nil"@ });
        },
        ValueView::Bool(b) => {
            lemma_atom_names();
            if b {
                lemma_symbol_text_at(src, at, SymbolView::Unqualified { name: "true"@ });
            } else {
                lemma_symbol_text_at(src, at, SymbolView::Unqualified { name: "false"@ });
            }
        },
        ValueView::Num(_) => {},
        ValueView::Str(s) => {
            assert(text[0] == '"');
            lemma_string_at(src, at, s);
        },
        ValueView::Keyword(k) => {
            lemma_keyword_at(src, at, k);
        },
        ValueView::Symbol(s) => {
            lemma_symbol_text_at(src, at, s);
        },
        ValueView::List(items) => {
            assert(text[0] == '(');
            lemma_joined_rest(items, 0);
            assert(rest_of_items(items, 0) =~= joined(items, items.len()));
            let body = rest_of_items(items, 0);
            lemma_stands_split(src, at, seq!['('] + body, seq![')']);
            lemma_stands_split(src, at, seq!['('], body);
            lemma_stands_char(src, at + 1 + body.len(), seq![')'], 0);
            assert(data_of(Seq::<SpanForm>::empty()) =~= items.take(0));
            lemma_items_at(src, at + 1, at, ')', items, 0, Seq::empty());
            assert(read_one(src, at) == read_list(src, at));
        },
        ValueView::Vect(items) => {
            assert(text[0] == '[');
            lemma_joined_rest(items, 0);
            assert(rest_of_items(items, 0) =~= joined(items, items.len()));
            let body = rest_of_items(items, 0);
            lemma_stands_split(src, at, seq!['['] + body, seq![']']);
            lemma_stands_split(src, at, seq!['['], body);
            lemma_stands_char(src, at + 1 + body.len(), seq![']'], 0);
            assert(data_of(Seq::<SpanForm>::empty()) =~= items.take(0));
            lemma_items_at(src, at + 1, at, ']', items, 0, Seq::empty());
            assert(read_one(src, at) == read_vect(src, at));
        },
        ValueView::SetForm(items) => {
            assert(text[0] == '#');
            assert(text[1] == '{');
            lemma_stands_char(src, at, text, 1);
            lemma_joined_rest(items, 0);
            assert(rest_of_items(items, 0) =~= joined(items, items.len()));
            let body = rest_of_items(items, 0);
            lemma_stands_split(src, at, seq!['#', '{'] + body, seq!['}']);
            lemma_stands_split(src, at, seq!['#', '{'], body);
            lemma_stands_char(src, at + 2 + body.len(), seq!['}'], 0);
            assert(data_of(Seq::<SpanForm>::empty()) =~= items.take(0));
            lemma_items_at(src, at + 2, at, '}', items, 0, Seq::empty());
            assert(read_one(src, at) == read_set(src, at));
        },
        ValueView::MapForm(pairs) => {
            assert(text[0] == '{');
            lemma_joined_pairs_rest(pairs, 0);
            assert(rest_of_pairs(pairs, 0) =~= joined_pairs(pairs, pairs.len()));
            let body = rest_of_pairs(pairs, 0);
            lemma_stands_split(src, at, seq!['{'] + body, seq!['}']);
            lemma_stands_split(src, at, seq!['{'], body);
            lemma_stands_char(src, at + 1 + body.len(), seq!['}'], 0);
            assert(pair_data_of(Seq::<(SpanForm, SpanForm)>::empty()) =~= pairs.take(0));
            lemma_pairs_at(src, at + 1, at, pairs, 0, Seq::empty());
            assert(read_one(src, at) == read_map(src, at));
        },
    }
}

proof fn lemma_items_at(
    src: Seq<char>,
    at: int,
    open: int,
    closer: char,
    items: Seq<ValueView>,
    k: int,
    acc: Seq<SpanForm>,
)
    requires
        forall|j: int| 0 <= j < items.len() ==> is_written(#[trigger] items[j]),
        0 <= k <= items.len(),
        acc.len() == k,
        data_of(acc) == items.take(k),
        0 <= open < at,
        is_closer(closer),
        stands_at(src, at, rest_of_items(items, k)),
        at + rest_of_items(items, k).len() < src.len(),
        src[at + rest_of_items(items, k).len()] == closer,
    ensures
        ({
            let out = read_items(src, at, open, closer, acc);
            let close = at + rest_of_items(items, k).len();
            &&& out.pos == close + 1
            &&& out.result is Ok
            &&& out.result->Ok_0 is Some
            &&& out.result->Ok_0->Some_0.1 == close
            &&& data_of(out.result->Ok_0->Some_0.0) == items
        }),
    decreases items, items.len() - k,
{
    let rest = rest_of_items(items, k);
    if k == items.len() {
        assert(items.take(k) =~= items);
        assert(!is_whitespace_char(closer));
    } else {
        let item = items[k];
        let text = item.text();
        let after = rest_of_items(items, k + 1);
        lemma_text_begins(item);
        let start = if k == 0 {
            at
        } else {
            at + 1
        };
        if k == 0 {
            lemma_stands_split(src, at, text, after);
        } else {
            assert(rest =~= seq![' '] + (text + after));
            lemma_stands_split(src, at, seq![' '], text + after);
            lemma_stands_split(src, at + 1, text, after);
            lemma_stands_char(src, at, seq![' '], 0);
        }
        lemma_stands_char(src, start, text, 0);
        assert(skip_whitespace(src, start) == start);
        assert(skip_whitespace(src, at) == start);
        let next = start + text.len();
        assert(form_may_end(src, next)) by {
            if k + 1 < items.len() {
                lemma_stands_char(src, next, after, 0);
            }
        }
        lemma_read_text_at(src, start, item);
        let form = WithSpan { span: (start, next - 1), data: item };
        let more = acc.push(form);
        assert(data_of(more) =~= items.take(k + 1)) by {
            assert forall|j: int| 0 <= j < k + 1 implies data_of(more)[j] == items.take(k + 1)[j] by {
                if j < k {
                    assert(data_of(acc)[j] == items.take(k)[j]);
                }
            }
        }
        lemma_items_at(src, next, open, closer, items, k + 1, more);
    }
}

proof fn lemma_pairs_at(
    src: Seq<char>,
    at: int,
    open: int,
    pairs: Seq<(ValueView, ValueView)>,
    k: int,
    acc: Seq<(SpanForm, SpanForm)>,
)
    requires
        forall|j: int|
            0 <= j < pairs.len() ==> is_written((#[trigger] pairs[j]).0) && is_written(
                pairs[j].1,
            ),
        0 <= k <= pairs.len(),
        acc.len() == k,
        pair_data_of(acc) == pairs.take(k),
        0 <= open < at,
        stands_at(src, at, rest_of_pairs(pairs, k)),
        at + rest_of_pairs(pairs, k).len() < src.len(),
        src[at + rest_of_pairs(pairs, k).len()] == '}',
    ensures
        ({
            let out = read_pairs(src, at, open, acc);
            let close = at + rest_of_pairs(pairs, k).len();
            &&& out.pos == close + 1
            &&& out.result is Ok
            &&& out.result->Ok_0 is Some
            &&& out.result->Ok_0->Some_0.1 == close
            &&& pair_data_of(out.result->Ok_0->Some_0.0) == pairs
        }),
    decreases pairs, pairs.len() - k,
{
    let rest = rest_of_pairs(pairs, k);
    if k == pairs.len() {
        assert(pairs.take(k) =~= pairs);
    } else {
        let key = pairs[k].0;
        let value = pairs[k].1;
        let key_text = key.text();
        let value_text = value.text();
        let after = rest_of_pairs(pairs, k + 1);
        lemma_text_begins(key);
        lemma_text_begins(value);
        let start = if k == 0 {
            at
        } else {
            at + 2
        };
        let tail = key_text + (seq![' '] + (value_text + after));
        if k == 0 {
            assert(rest =~= tail);
        } else {
            assert(rest =~= seq![',', ' '] + tail);
            lemma_stands_split(src, at, seq![',', ' '], tail);
            lemma_stands_char(src, at, seq![',', ' '], 0);
            lemma_stands_char(src, at, seq![',', ' '], 1);
        }
        lemma_stands_split(src, start, key_text, seq![' '] + (value_text + after));
        let gap = start + key_text.len();
        lemma_stands_split(src, gap, seq![' '], value_text + after);
        lemma_stands_char(src, gap, seq![' '], 0);
        let then = gap + 1;
        lemma_stands_split(src, then, value_text, after);
        lemma_stands_char(src, start, key_text, 0);
        lemma_stands_char(src, then, value_text, 0);
        assert(skip_whitespace(src, start) == start);
        if k > 0 {
            assert(skip_whitespace(src, at + 1) == start);
        }
        assert(skip_whitespace(src, at) == start);
        lemma_read_text_at(src, start, key);
        assert(skip_whitespace(src, then) == then);
        assert(skip_whitespace(src, gap) == then);
        let next = then + value_text.len();
        assert(form_may_end(src, next)) by {
            if k + 1 < pairs.len() {
                lemma_stands_char(src, next, after, 0);
            }
        }
        lemma_read_text_at(src, then, value);
        let key_form = WithSpan { span: (start, gap - 1), data: key };
        let value_form = WithSpan { span: (then, next - 1), data: value };
        let more = acc.push((key_form, value_form));
        assert(pair_data_of(more) =~= pairs.take(k + 1)) by {
            assert forall|j: int| 0 <= j < k + 1 implies pair_data_of(more)[j] == pairs.take(
                k + 1,
            )[j] by {
                if j < k {
                    assert(pair_data_of(acc)[j] == pairs.take(k)[j]);
                }
            }
        }
        lemma_pairs_at(src, next, open, pairs, k + 1, more);
    }
}

/// Idempotent pretty-print. Every value that is read is read again from the
/// text that stands for it: reading that text gives an equal value, whose span
/// is the whole text.
pub proof fn law_written_value_reads_back(src: Seq<char>, i: int)
    requires
        0 <= i <= src.len(),
    ensures
        read_one(src, i).result matches Ok(Some(form)) ==> read_one(form.data.text(), 0)
            == read_as(form.data, 0, form.data.text().len() as int),
{
    if let Ok(Some(form)) = read_one(src, i).result {
        lemma_read_one_written(src, i);
        let text = form.data.text();
        assert(text.subrange(0, text.len() as int) =~= text);
        lemma_read_text_at(text, 0, form.data);
    }
}

} // verus!

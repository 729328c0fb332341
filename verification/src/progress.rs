//! Reading advances: where the cursor stands after a read, and where the
//! form that was read lies.

use vstd::prelude::*;
use crate::grammar::{
    char_at_is, closing_quote, comment_end, is_closer, is_symbol_char, is_whitespace_char,
    line_end, read_discard, read_items, read_keyword, read_list, read_map, read_namespaced_map,
    read_one, read_pairs, read_set, read_string, read_symbol, read_symbol_part, read_vect,
    read_wrapped, skip_whitespace, symbol_part_end, Fault, Outcome, Span, SpanForm,
};
use crate::WithSpan;

verus! {

impl Fault {
    /// The span this fault points at.
    pub open spec fn span(self) -> Span {
        match self {
            Fault::InsufficientInput(s) => s,
            Fault::InvalidInput(s) => s,
            Fault::UnclosedCollection(s) => s,
        }
    }
}

/// A span that lies within the source, from `low` on.
pub open spec fn span_within(src: Seq<char>, low: int, span: Span) -> bool {
    low <= span.0 <= span.1 < src.len()
}

/// What holds of the outcome `out` of reading a form of `src` with the cursor
/// at `i`: the cursor never moves back nor beyond the end; a form that was
/// read lies at or behind `i` and the cursor stands on the character after it;
/// a fault lies within the source, at or behind `i`.
pub open spec fn tiles<T>(src: Seq<char>, i: int, out: Outcome<WithSpan<Span, T>>) -> bool {
    &&& i <= out.pos <= src.len()
    &&& match out.result {
        Ok(Some(form)) => i <= form.span.0 <= form.span.1 && form.span.1 + 1 == out.pos,
        Ok(None) => true,
        Err(fault) => span_within(src, i, fault.span()),
    }
}

/// [`tiles`], for a form that begins at `i` itself: there is always a form or
/// a fault.
pub open spec fn tiles_from<T>(src: Seq<char>, i: int, out: Outcome<WithSpan<Span, T>>) -> bool {
    &&& tiles(src, i, out)
    &&& out.result matches Ok(Some(form)) ==> form.span.0 == i
    &&& !(out.result is Ok && out.result->Ok_0 is None)
}

/// Skipping whitespace passes over whitespace only, and stops within the
/// source on a character that is not whitespace.
pub proof fn lemma_skip_whitespace(src: Seq<char>, i: int)
    requires
        0 <= i <= src.len(),
    ensures
        i <= skip_whitespace(src, i) <= src.len(),
        forall|k: int| i <= k < skip_whitespace(src, i) ==> is_whitespace_char(#[trigger] src[k]),
        skip_whitespace(src, i) < src.len() ==> !is_whitespace_char(src[skip_whitespace(src, i)]),
    decreases src.len() - i,
{
    if i < src.len() && is_whitespace_char(src[i]) {
        lemma_skip_whitespace(src, i + 1);
    }
}

/// A symbol part goes on over symbol characters other than `/`, and ends
/// within the source on a character that is no such character.
pub proof fn lemma_symbol_part_end(src: Seq<char>, i: int)
    requires
        0 <= i <= src.len(),
    ensures
        i <= symbol_part_end(src, i) <= src.len(),
        forall|k: int|
            i <= k < symbol_part_end(src, i) ==> is_symbol_char(#[trigger] src[k]) && src[k] != '/',
        symbol_part_end(src, i) < src.len() ==> !is_symbol_char(src[symbol_part_end(src, i)])
            || src[symbol_part_end(src, i)] == '/',
    decreases src.len() - i,
{
    if i < src.len() && src[i] != '/' && is_symbol_char(src[i]) {
        lemma_symbol_part_end(src, i + 1);
    }
}

/// The closing quote is the first quote from the position on.
pub proof fn lemma_closing_quote(src: Seq<char>, i: int)
    requires
        0 <= i <= src.len(),
    ensures
        i <= closing_quote(src, i) <= src.len(),
        forall|k: int| i <= k < closing_quote(src, i) ==> #[trigger] src[k] != '"',
        closing_quote(src, i) < src.len() ==> src[closing_quote(src, i)] == '"',
    decreases src.len() - i,
{
    if i < src.len() && src[i] != '"' {
        lemma_closing_quote(src, i + 1);
    }
}

/// A line ends on the first line break from the position on.
pub proof fn lemma_line_end(src: Seq<char>, i: int)
    requires
        0 <= i <= src.len(),
    ensures
        i <= line_end(src, i) <= src.len(),
        forall|k: int|
            i <= k < line_end(src, i) ==> #[trigger] src[k] != '\n' && src[k] != '\r',
        line_end(src, i) < src.len() ==> src[line_end(src, i)] == '\n' || src[line_end(src, i)]
            == '\r',
    decreases src.len() - i,
{
    if i < src.len() && src[i] != '\n' && src[i] != '\r' {
        lemma_line_end(src, i + 1);
    }
}

/// A comment ends behind the position where it begins, within the source.
pub proof fn lemma_comment_end(src: Seq<char>, i: int)
    requires
        0 <= i < src.len(),
    ensures
        i < comment_end(src, i) <= src.len(),
{
    lemma_line_end(src, i + 1);
}

/// A symbol part that is read begins at the cursor, and is as long as its
/// span; where none is read the cursor stays.
pub proof fn lemma_read_symbol_part_tiles(src: Seq<char>, i: int)
    requires
        0 <= i <= src.len(),
    ensures
        tiles(src, i, read_symbol_part(src, i)),
        read_symbol_part(src, i).result is Ok,
        read_symbol_part(src, i).result matches Ok(Some(part)) ==> part.span.0 == i
            && part.data.len() == part.span.1 - part.span.0 + 1,
        read_symbol_part(src, i).result matches Ok(None) ==> read_symbol_part(src, i).pos == i,
{
    if i < src.len() {
        lemma_symbol_part_end(src, i + 1);
    }
}

/// A symbol that is read begins at the cursor and ends just before the
/// cursor's new position.
pub proof fn lemma_read_symbol_tiles(src: Seq<char>, i: int)
    requires
        0 <= i <= src.len(),
    ensures
        tiles(src, i, read_symbol(src, i)),
        read_symbol(src, i).result matches Ok(Some(sym)) ==> sym.span.0 == i,
{
    lemma_read_symbol_part_tiles(src, i);
    let first = read_symbol_part(src, i);
    if let Ok(Some(part1)) = first.result {
        if first.pos < src.len() {
            lemma_read_symbol_part_tiles(src, first.pos + 1);
        }
    }
}

/// A keyword that is read begins at the cursor and ends just before the
/// cursor's new position, which lies behind the colon.
pub proof fn lemma_read_keyword_tiles(src: Seq<char>, i: int)
    requires
        0 <= i < src.len(),
    ensures
        tiles_from(src, i, read_keyword(src, i)),
        i < read_keyword(src, i).pos,
{
    let start = if char_at_is(src, i + 1, ':') {
        i + 2
    } else {
        i + 1
    };
    lemma_read_symbol_tiles(src, start);
}

/// A string that is read begins at the cursor and ends just before the
/// cursor's new position.
pub proof fn lemma_read_string_tiles(src: Seq<char>, i: int)
    requires
        0 <= i < src.len(),
    ensures
        tiles_from(src, i, read_string(src, i)),
{
    lemma_closing_quote(src, i + 1);
}

/// Whitespace before a form does not change what is read.
pub proof fn lemma_read_one_skips_whitespace(src: Seq<char>, i: int)
    requires
        0 <= i <= src.len(),
    ensures
        read_one(src, skip_whitespace(src, i)) == read_one(src, i),
    decreases src.len() - i,
{
    if i < src.len() && is_whitespace_char(src[i]) {
        lemma_read_one_skips_whitespace(src, i + 1);
    }
}

/// Reading a form never moves the cursor back; a form that is read lies at or
/// behind the cursor's old position and ends just before its new one; where no
/// form is found the source is used up.
pub proof fn lemma_read_one_advances(src: Seq<char>, i: int)
    requires
        0 <= i <= src.len(),
    ensures
        tiles(src, i, read_one(src, i)),
        read_one(src, i).result matches Ok(None) ==> read_one(src, i).pos == src.len(),
    decreases src.len() - i, 2int,
{
    if i < src.len() {
        let ch = src[i];
        if is_whitespace_char(ch) {
            lemma_read_one_advances(src, i + 1);
        } else if is_closer(ch) {
        } else if ch == '(' {
            lemma_read_list_advances(src, i);
        } else if ch == '[' {
            lemma_read_vect_advances(src, i);
        } else if ch == '{' {
            lemma_read_map_advances(src, i);
        } else if ch == '\'' {
            lemma_read_wrapped_advances(src, i, "quote"@);
        } else if ch == '@' {
            lemma_read_wrapped_advances(src, i, "deref"@);
        } else if ch == '#' && char_at_is(src, i + 1, '{') {
            lemma_read_set_advances(src, i);
        } else if ch == '#' && char_at_is(src, i + 1, ':') {
            lemma_read_namespaced_map_advances(src, i);
        } else if ch == '#' && char_at_is(src, i + 1, '_') {
            lemma_read_discard_advances(src, i);
        } else if ch == ':' {
            lemma_read_keyword_tiles(src, i);
        } else if ch == '"' {
            lemma_read_string_tiles(src, i);
        } else if ch == ';' {
            lemma_comment_end(src, i);
            lemma_read_one_advances(src, comment_end(src, i));
        } else {
            lemma_read_symbol_tiles(src, i);
        }
    }
}

/// [`lemma_read_one_advances`], for `'form` and `@form`.
pub proof fn lemma_read_wrapped_advances(src: Seq<char>, i: int, name: Seq<char>)
    requires
        0 <= i < src.len(),
    ensures
        tiles_from(src, i, read_wrapped(src, i, name)),
    decreases src.len() - i, 1int,
{
    lemma_read_one_advances(src, i + 1);
}

/// [`lemma_read_one_advances`], for `#_ form` and the form behind it.
pub proof fn lemma_read_discard_advances(src: Seq<char>, i: int)
    requires
        0 <= i,
        i + 2 <= src.len(),
    ensures
        tiles(src, i, read_discard(src, i)),
        read_discard(src, i).result matches Ok(None) ==> read_discard(src, i).pos == src.len(),
        i + 2 <= read_discard(src, i).pos,
    decreases src.len() - i, 1int,
{
    lemma_read_one_advances(src, i + 2);
    let dropped = read_one(src, i + 2);
    if let Ok(Some(_)) = dropped.result {
        lemma_read_one_advances(src, dropped.pos);
    }
}

/// What holds of reading the items of a collection whose opening delimiter
/// stands at `open`.
pub open spec fn items_tile<T>(
    src: Seq<char>,
    i: int,
    open: int,
    out: Outcome<(Seq<T>, int)>,
) -> bool {
    &&& i <= out.pos <= src.len()
    &&& match out.result {
        Ok(Some((_, close))) => i <= close && close + 1 == out.pos,
        Ok(None) => false,
        Err(fault) => span_within(src, open, fault.span()),
    }
}

/// The items of a collection are read up to the closing delimiter, behind
/// which the cursor stops; a fault lies between the opening delimiter and the
/// end of the source.
pub proof fn lemma_read_items_advances(
    src: Seq<char>,
    i: int,
    open: int,
    closer: char,
    acc: Seq<SpanForm>,
)
    requires
        0 <= open < i <= src.len(),
    ensures
        items_tile(src, i, open, read_items(src, i, open, closer, acc)),
    decreases src.len() - i, 3int,
{
    lemma_skip_whitespace(src, i);
    let at = skip_whitespace(src, i);
    if at < src.len() && src[at] != closer {
        lemma_read_one_advances(src, at);
        let item = read_one(src, at);
        if let Ok(Some(form)) = item.result {
            lemma_read_items_advances(src, item.pos, open, closer, acc.push(form));
        }
    }
}

/// The pairs of a map are read up to the closing delimiter, behind which the
/// cursor stops; a fault lies between the opening delimiter and the end of
/// the source.
pub proof fn lemma_read_pairs_advances(
    src: Seq<char>,
    i: int,
    open: int,
    acc: Seq<(SpanForm, SpanForm)>,
)
    requires
        0 <= open < i <= src.len(),
    ensures
        items_tile(src, i, open, read_pairs(src, i, open, acc)),
    decreases src.len() - i, 3int,
{
    lemma_skip_whitespace(src, i);
    let at = skip_whitespace(src, i);
    if at < src.len() && src[at] != '}' {
        lemma_read_one_advances(src, at);
        let key = read_one(src, at);
        if let Ok(Some(k)) = key.result {
            lemma_skip_whitespace(src, key.pos);
            let then = skip_whitespace(src, key.pos);
            if !char_at_is(src, then, '}') {
                lemma_read_one_advances(src, then);
                let value = read_one(src, then);
                if let Ok(Some(v)) = value.result {
                    lemma_read_pairs_advances(src, value.pos, open, acc.push((k, v)));
                }
            }
        }
    }
}

/// [`lemma_read_one_advances`], for a list.
pub proof fn lemma_read_list_advances(src: Seq<char>, i: int)
    requires
        0 <= i < src.len(),
    ensures
        tiles_from(src, i, read_list(src, i)),
    decreases src.len() - i, 1int,
{
    lemma_read_items_advances(src, i + 1, i, ')', Seq::empty());
}

/// [`lemma_read_one_advances`], for a vector.
pub proof fn lemma_read_vect_advances(src: Seq<char>, i: int)
    requires
        0 <= i < src.len(),
    ensures
        tiles_from(src, i, read_vect(src, i)),
    decreases src.len() - i, 1int,
{
    lemma_read_items_advances(src, i + 1, i, ']', Seq::empty());
}

/// [`lemma_read_one_advances`], for a set.
pub proof fn lemma_read_set_advances(src: Seq<char>, i: int)
    requires
        0 <= i,
        i + 2 <= src.len(),
    ensures
        tiles_from(src, i, read_set(src, i)),
    decreases src.len() - i, 1int,
{
    lemma_read_items_advances(src, i + 2, i, '}', Seq::empty());
}

/// [`lemma_read_one_advances`], for a map.
pub proof fn lemma_read_map_advances(src: Seq<char>, i: int)
    requires
        0 <= i < src.len(),
    ensures
        tiles_from(src, i, read_map(src, i)),
    decreases src.len() - i, 1int,
{
    lemma_read_pairs_advances(src, i + 1, i, Seq::empty());
}

/// [`lemma_read_one_advances`], for a map with a namespace tag.
pub proof fn lemma_read_namespaced_map_advances(src: Seq<char>, i: int)
    requires
        0 <= i,
        i + 2 <= src.len(),
    ensures
        tiles_from(src, i, read_namespaced_map(src, i)),
    decreases src.len() - i, 1int,
{
    lemma_read_keyword_tiles(src, i + 1);
    let tag = read_keyword(src, i + 1);
    if tag.result is Ok && tag.pos < src.len() && src[tag.pos] == '{' {
        lemma_read_map_advances(src, tag.pos);
    }
}

/// Whitespace between the cursor and a form does not change what is read.
pub proof fn lemma_read_one_past_whitespace(src: Seq<char>, i: int, j: int)
    requires
        0 <= i <= j <= src.len(),
        forall|k: int| i <= k < j ==> is_whitespace_char(#[trigger] src[k]),
    ensures
        read_one(src, i) == read_one(src, j),
    decreases j - i,
{
    if i < j {
        assert(is_whitespace_char(src[i]));
        lemma_read_one_past_whitespace(src, i + 1, j);
    }
}

/// Skipping whitespace from a position within a run of whitespace ends where
/// skipping it from the end of the run ends.
pub proof fn lemma_skip_past_whitespace(src: Seq<char>, i: int, j: int)
    requires
        0 <= i <= j <= src.len(),
        forall|k: int| i <= k < j ==> is_whitespace_char(#[trigger] src[k]),
    ensures
        skip_whitespace(src, i) == skip_whitespace(src, j),
    decreases j - i,
{
    if i < j {
        assert(is_whitespace_char(src[i]));
        lemma_skip_past_whitespace(src, i + 1, j);
    }
}

} // verus!

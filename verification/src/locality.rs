//! Reading is local: what is read at a position depends on the characters
//! from that position on, and on none behind the character that follows the
//! form.

use vstd::prelude::*;
use crate::grammar::{
    char_at_is, closing_quote, collected, comment_end, data_of, is_closer, is_delimiter,
    is_symbol_char, is_whitespace_char, last_position, line_end, pair_data_of, read_discard,
    read_items, read_keyword, read_list, read_map, read_namespaced_map, read_one, read_pairs,
    read_set, read_string, read_symbol, read_symbol_part, read_vect, read_wrapped, skip_whitespace,
    symbol_part_end, Fault, Outcome, Span, SpanForm,
};
use crate::progress::{
    lemma_closing_quote, lemma_comment_end, lemma_line_end, lemma_read_items_advances,
    lemma_read_keyword_tiles, lemma_read_map_advances, lemma_read_one_advances,
    lemma_read_pairs_advances, lemma_read_symbol_part_tiles, lemma_read_symbol_tiles,
    lemma_skip_whitespace, lemma_symbol_part_end,
};
use crate::WithSpan;

verus! {

/// The span `by` positions further on.
pub open spec fn shift_span(span: Span, by: int) -> Span {
    (span.0 + by, span.1 + by)
}

/// The fault `by` positions further on.
pub open spec fn shift_fault(fault: Fault, by: int) -> Fault {
    match fault {
        Fault::InsufficientInput(span) => Fault::InsufficientInput(shift_span(span, by)),
        Fault::InvalidInput(span) => Fault::InvalidInput(shift_span(span, by)),
        Fault::UnclosedCollection(span) => Fault::UnclosedCollection(shift_span(span, by)),
    }
}

/// The same data, read `by` positions further on.
pub open spec fn shift_form<T>(form: WithSpan<Span, T>, by: int) -> WithSpan<Span, T> {
    WithSpan { span: shift_span(form.span, by), data: form.data }
}

/// The same outcome, `by` positions further on: the same data, with every
/// position moved.
pub open spec fn shifted<T>(out: Outcome<WithSpan<Span, T>>, by: int) -> Outcome<
    WithSpan<Span, T>,
> {
    Outcome {
        result: match out.result {
            Ok(Some(form)) => Ok(Some(shift_form(form, by))),
            Ok(None) => Ok(None),
            Err(fault) => Err(shift_fault(fault, by)),
        },
        pos: out.pos + by,
    }
}

/// The same forms, read `by` positions further on.
pub open spec fn shift_forms(forms: Seq<SpanForm>, by: int) -> Seq<SpanForm> {
    Seq::new(forms.len(), |k: int| shift_form(forms[k], by))
}

/// The same pairs, read `by` positions further on.
pub open spec fn shift_pairs(pairs: Seq<(SpanForm, SpanForm)>, by: int) -> Seq<
    (SpanForm, SpanForm),
> {
    Seq::new(pairs.len(), |k: int| (shift_form(pairs[k].0, by), shift_form(pairs[k].1, by)))
}

/// The same outcome of reading the items of a collection, `by` positions
/// further on.
pub open spec fn shifted_items(out: Outcome<(Seq<SpanForm>, int)>, by: int) -> Outcome<
    (Seq<SpanForm>, int),
> {
    Outcome {
        result: match out.result {
            Ok(Some((forms, close))) => Ok(Some((shift_forms(forms, by), close + by))),
            Ok(None) => Ok(None),
            Err(fault) => Err(shift_fault(fault, by)),
        },
        pos: out.pos + by,
    }
}

/// The same outcome of reading the pairs of a map, `by` positions further on.
pub open spec fn shifted_pairs(out: Outcome<(Seq<(SpanForm, SpanForm)>, int)>, by: int)
    -> Outcome<(Seq<(SpanForm, SpanForm)>, int)> {
    Outcome {
        result: match out.result {
            Ok(Some((pairs, close))) => Ok(Some((shift_pairs(pairs, by), close + by))),
            Ok(None) => Ok(None),
            Err(fault) => Err(shift_fault(fault, by)),
        },
        pos: out.pos + by,
    }
}

/// That `b` holds from position `i + by` on what `a` holds from position `i`
/// on.
pub open spec fn aligned(a: Seq<char>, b: Seq<char>, by: int, i: int) -> bool {
    &&& b.len() == a.len() + by
    &&& 0 <= i <= a.len()
    &&& 0 <= i + by
    &&& forall|k: int| i <= k < a.len() ==> #[trigger] a[k] == b[k + by]
}

/// Skipping whitespace depends only on the characters from the position on.
pub proof fn lemma_shift_skip_whitespace(a: Seq<char>, b: Seq<char>, by: int, i: int)
    requires
        aligned(a, b, by, i),
    ensures
        skip_whitespace(b, i + by) == skip_whitespace(a, i) + by,
        i <= skip_whitespace(a, i) <= a.len(),
    decreases a.len() - i,
{
    if i < a.len() {
        assert(a[i] == b[i + by]);
        if is_whitespace_char(a[i]) {
            lemma_shift_skip_whitespace(a, b, by, i + 1);
        }
    }
}

proof fn lemma_shift_symbol_part_end(a: Seq<char>, b: Seq<char>, by: int, i: int)
    requires
        aligned(a, b, by, i),
    ensures
        symbol_part_end(b, i + by) == symbol_part_end(a, i) + by,
        i <= symbol_part_end(a, i) <= a.len(),
    decreases a.len() - i,
{
    if i < a.len() {
        assert(a[i] == b[i + by]);
        if a[i] != '/' && is_symbol_char(a[i]) {
            lemma_shift_symbol_part_end(a, b, by, i + 1);
        }
    }
}

proof fn lemma_shift_closing_quote(a: Seq<char>, b: Seq<char>, by: int, i: int)
    requires
        aligned(a, b, by, i),
    ensures
        closing_quote(b, i + by) == closing_quote(a, i) + by,
        i <= closing_quote(a, i) <= a.len(),
    decreases a.len() - i,
{
    if i < a.len() {
        assert(a[i] == b[i + by]);
        if a[i] != '"' {
            lemma_shift_closing_quote(a, b, by, i + 1);
        }
    }
}

proof fn lemma_shift_line_end(a: Seq<char>, b: Seq<char>, by: int, i: int)
    requires
        aligned(a, b, by, i),
    ensures
        line_end(b, i + by) == line_end(a, i) + by,
        i <= line_end(a, i) <= a.len(),
    decreases a.len() - i,
{
    if i < a.len() {
        assert(a[i] == b[i + by]);
        if a[i] != '\n' && a[i] != '\r' {
            lemma_shift_line_end(a, b, by, i + 1);
        }
    }
}

/// The end of a comment depends only on the characters from the position on.
pub proof fn lemma_shift_comment_end(a: Seq<char>, b: Seq<char>, by: int, i: int)
    requires
        aligned(a, b, by, i),
        i < a.len(),
    ensures
        comment_end(b, i + by) == comment_end(a, i) + by,
        i < comment_end(a, i) <= a.len(),
{
    lemma_shift_line_end(a, b, by, i + 1);
}

/// Aligned sources hold the same characters at aligned positions.
pub proof fn lemma_shift_char_at(a: Seq<char>, b: Seq<char>, by: int, i: int, j: int, c: char)
    requires
        aligned(a, b, by, i),
        i <= j,
    ensures
        char_at_is(b, j + by, c) == char_at_is(a, j, c),
{
    if j < a.len() {
        assert(a[j] == b[j + by]);
    }
}

proof fn lemma_shift_subrange(a: Seq<char>, b: Seq<char>, by: int, i: int, lo: int, hi: int)
    requires
        aligned(a, b, by, i),
        i <= lo <= hi <= a.len(),
    ensures
        b.subrange(lo + by, hi + by) == a.subrange(lo, hi),
{
    let x = a.subrange(lo, hi);
    let y = b.subrange(lo + by, hi + by);
    assert forall|k: int| 0 <= k < x.len() implies #[trigger] x[k] == y[k] by {
        assert(a[lo + k] == b[lo + k + by]);
    }
    assert(x =~= y);
}

proof fn lemma_shift_symbol_part(a: Seq<char>, b: Seq<char>, by: int, i: int)
    requires
        aligned(a, b, by, i),
    ensures
        read_symbol_part(b, i + by) == shifted(read_symbol_part(a, i), by),
        i <= read_symbol_part(a, i).pos <= a.len(),
{
    if i < a.len() {
        assert(a[i] == b[i + by]);
        if is_symbol_char(a[i]) {
            lemma_shift_symbol_part_end(a, b, by, i + 1);
            let end = symbol_part_end(a, i + 1);
            lemma_shift_subrange(a, b, by, i, i, end);
        }
    }
}

proof fn lemma_shift_symbol(a: Seq<char>, b: Seq<char>, by: int, i: int)
    requires
        aligned(a, b, by, i),
    ensures
        read_symbol(b, i + by) == shifted(read_symbol(a, i), by),
        i <= read_symbol(a, i).pos <= a.len(),
{
    lemma_shift_symbol_part(a, b, by, i);
    let first = read_symbol_part(a, i);
    if let Ok(Some(part1)) = first.result {
        let slash = first.pos;
        lemma_shift_char_at(a, b, by, i, slash, '/');
        if char_at_is(a, slash, '/') && slash != last_position(a) {
            lemma_shift_symbol_part(a, b, by, slash + 1);
        }
    }
}

/// A keyword that is read depends only on the characters from the position on.
pub proof fn lemma_shift_keyword(a: Seq<char>, b: Seq<char>, by: int, i: int)
    requires
        aligned(a, b, by, i),
        i < a.len(),
    ensures
        read_keyword(b, i + by) == shifted(read_keyword(a, i), by),
        i < read_keyword(a, i).pos <= a.len(),
{
    lemma_shift_char_at(a, b, by, i, i + 1, ':');
    if char_at_is(a, i + 1, ':') {
        lemma_shift_symbol(a, b, by, i + 2);
    } else {
        lemma_shift_symbol(a, b, by, i + 1);
    }
}

proof fn lemma_shift_string(a: Seq<char>, b: Seq<char>, by: int, i: int)
    requires
        aligned(a, b, by, i),
        i < a.len(),
    ensures
        read_string(b, i + by) == shifted(read_string(a, i), by),
{
    lemma_shift_closing_quote(a, b, by, i + 1);
    let close = closing_quote(a, i + 1);
    if close < a.len() {
        lemma_shift_subrange(a, b, by, i, i + 1, close);
    }
}

proof fn lemma_shift_forms_push(forms: Seq<SpanForm>, form: SpanForm, by: int)
    ensures
        shift_forms(forms.push(form), by) == shift_forms(forms, by).push(shift_form(form, by)),
        data_of(shift_forms(forms, by)) == data_of(forms),
{
    assert(shift_forms(forms.push(form), by) =~= shift_forms(forms, by).push(
        shift_form(form, by),
    ));
    assert(data_of(shift_forms(forms, by)) =~= data_of(forms));
}

proof fn lemma_shift_pairs_push(
    pairs: Seq<(SpanForm, SpanForm)>,
    k: SpanForm,
    v: SpanForm,
    by: int,
)
    ensures
        shift_pairs(pairs.push((k, v)), by) == shift_pairs(pairs, by).push(
            (shift_form(k, by), shift_form(v, by)),
        ),
        pair_data_of(shift_pairs(pairs, by)) == pair_data_of(pairs),
{
    assert(shift_pairs(pairs.push((k, v)), by) =~= shift_pairs(pairs, by).push(
        (shift_form(k, by), shift_form(v, by)),
    ));
    assert(pair_data_of(shift_pairs(pairs, by)) =~= pair_data_of(pairs));
}

/// What is read at a position depends only on the characters from that
/// position on: where `b` holds from `i + by` on what `a` holds from `i` on,
/// reading `b` at `i + by` gives what reading `a` at `i` gives, `by` positions
/// further on.
pub proof fn lemma_shift_read_one(a: Seq<char>, b: Seq<char>, by: int, i: int)
    requires
        aligned(a, b, by, i),
    ensures
        read_one(b, i + by) == shifted(read_one(a, i), by),
        i <= read_one(a, i).pos <= a.len(),
    decreases a.len() - i, 2int,
{
    if i < a.len() {
        assert(a[i] == b[i + by]);
        let ch = a[i];
        lemma_shift_char_at(a, b, by, i, i + 1, '{');
        lemma_shift_char_at(a, b, by, i, i + 1, ':');
        lemma_shift_char_at(a, b, by, i, i + 1, '_');
        if is_whitespace_char(ch) {
            lemma_shift_read_one(a, b, by, i + 1);
        } else if is_closer(ch) {
        } else if ch == '(' {
            lemma_shift_list(a, b, by, i);
        } else if ch == '[' {
            lemma_shift_vect(a, b, by, i);
        } else if ch == '{' {
            lemma_shift_map(a, b, by, i);
        } else if ch == '\'' {
            lemma_shift_wrapped(a, b, by, i, "quote"@);
        } else if ch == '@' {
            lemma_shift_wrapped(a, b, by, i, "deref"@);
        } else if ch == '#' && char_at_is(a, i + 1, '{') {
            lemma_shift_set(a, b, by, i);
        } else if ch == '#' && char_at_is(a, i + 1, ':') {
            lemma_shift_namespaced_map(a, b, by, i);
        } else if ch == '#' && char_at_is(a, i + 1, '_') {
            lemma_shift_discard(a, b, by, i);
        } else if ch == ':' {
            lemma_shift_keyword(a, b, by, i);
        } else if ch == '"' {
            lemma_shift_string(a, b, by, i);
            crate::progress::lemma_read_string_tiles(a, i);
        } else if ch == ';' {
            lemma_shift_comment_end(a, b, by, i);
            lemma_shift_read_one(a, b, by, comment_end(a, i));
        } else {
            lemma_shift_symbol(a, b, by, i);
        }
    }
}

proof fn lemma_shift_wrapped(a: Seq<char>, b: Seq<char>, by: int, i: int, name: Seq<char>)
    requires
        aligned(a, b, by, i),
        i < a.len(),
    ensures
        read_wrapped(b, i + by, name) == shifted(read_wrapped(a, i, name), by),
        i <= read_wrapped(a, i, name).pos <= a.len(),
    decreases a.len() - i, 1int,
{
    lemma_shift_read_one(a, b, by, i + 1);
}

proof fn lemma_shift_discard(a: Seq<char>, b: Seq<char>, by: int, i: int)
    requires
        aligned(a, b, by, i),
        i + 2 <= a.len(),
    ensures
        read_discard(b, i + by) == shifted(read_discard(a, i), by),
        i <= read_discard(a, i).pos <= a.len(),
    decreases a.len() - i, 1int,
{
    lemma_shift_read_one(a, b, by, i + 2);
    let dropped = read_one(a, i + 2);
    if let Ok(Some(_)) = dropped.result {
        lemma_shift_read_one(a, b, by, dropped.pos);
    }
}

/// The items of a collection that are read depend only on the characters from
/// the position on.
pub proof fn lemma_shift_items(
    a: Seq<char>,
    b: Seq<char>,
    by: int,
    i: int,
    open: int,
    closer: char,
    acc: Seq<SpanForm>,
)
    requires
        aligned(a, b, by, i),
    ensures
        read_items(b, i + by, open + by, closer, shift_forms(acc, by)) == shifted_items(
            read_items(a, i, open, closer, acc),
            by,
        ),
        i <= read_items(a, i, open, closer, acc).pos <= a.len(),
    decreases a.len() - i, 3int,
{
    lemma_shift_skip_whitespace(a, b, by, i);
    let at = skip_whitespace(a, i);
    if at < a.len() {
        assert(a[at] == b[at + by]);
        if a[at] != closer {
            lemma_shift_read_one(a, b, by, at);
            let item = read_one(a, at);
            if let Ok(Some(form)) = item.result {
                if at < item.pos {
                    lemma_shift_forms_push(acc, form, by);
                    lemma_shift_items(a, b, by, item.pos, open, closer, acc.push(form));
                }
            }
        }
    }
}

/// The pairs of a map that are read depend only on the characters from the
/// position on.
pub proof fn lemma_shift_pairs(
    a: Seq<char>,
    b: Seq<char>,
    by: int,
    i: int,
    open: int,
    acc: Seq<(SpanForm, SpanForm)>,
)
    requires
        aligned(a, b, by, i),
    ensures
        read_pairs(b, i + by, open + by, shift_pairs(acc, by)) == shifted_pairs(
            read_pairs(a, i, open, acc),
            by,
        ),
        i <= read_pairs(a, i, open, acc).pos <= a.len(),
    decreases a.len() - i, 3int,
{
    lemma_shift_skip_whitespace(a, b, by, i);
    let at = skip_whitespace(a, i);
    if at < a.len() {
        assert(a[at] == b[at + by]);
        if a[at] != '}' {
            lemma_shift_read_one(a, b, by, at);
            let key = read_one(a, at);
            if let Ok(Some(k)) = key.result {
                lemma_shift_skip_whitespace(a, b, by, key.pos);
                let then = skip_whitespace(a, key.pos);
                if at < key.pos {
                    lemma_shift_char_at(a, b, by, i, then, '}');
                    if !char_at_is(a, then, '}') {
                        lemma_shift_read_one(a, b, by, then);
                        let value = read_one(a, then);
                        if let Ok(Some(v)) = value.result {
                            if then < value.pos {
                                lemma_shift_pairs_push(acc, k, v, by);
                                lemma_shift_pairs(a, b, by, value.pos, open, acc.push((k, v)));
                            }
                        }
                    }
                }
            }
        }
    }
}

proof fn lemma_shift_collected(
    open: int,
    items: Outcome<(Seq<SpanForm>, int)>,
    build: spec_fn(Seq<crate::value::ValueView>) -> crate::value::ValueView,
    by: int,
)
    ensures
        collected(open + by, shifted_items(items, by), build) == shifted(
            collected(open, items, build),
            by,
        ),
{
    if let Ok(Some((forms, close))) = items.result {
        assert(data_of(shift_forms(forms, by)) =~= data_of(forms));
    }
}

proof fn lemma_shift_list(a: Seq<char>, b: Seq<char>, by: int, i: int)
    requires
        aligned(a, b, by, i),
        i < a.len(),
    ensures
        read_list(b, i + by) == shifted(read_list(a, i), by),
        i <= read_list(a, i).pos <= a.len(),
    decreases a.len() - i, 1int,
{
    lemma_shift_items(a, b, by, i + 1, i, ')', Seq::empty());
    assert(shift_forms(Seq::<SpanForm>::empty(), by) =~= Seq::<SpanForm>::empty());
    lemma_shift_collected(
        i,
        read_items(a, i + 1, i, ')', Seq::empty()),
        |items: Seq<crate::value::ValueView>| crate::value::ValueView::List(items),
        by,
    );
}

proof fn lemma_shift_vect(a: Seq<char>, b: Seq<char>, by: int, i: int)
    requires
        aligned(a, b, by, i),
        i < a.len(),
    ensures
        read_vect(b, i + by) == shifted(read_vect(a, i), by),
        i <= read_vect(a, i).pos <= a.len(),
    decreases a.len() - i, 1int,
{
    lemma_shift_items(a, b, by, i + 1, i, ']', Seq::empty());
    assert(shift_forms(Seq::<SpanForm>::empty(), by) =~= Seq::<SpanForm>::empty());
    lemma_shift_collected(
        i,
        read_items(a, i + 1, i, ']', Seq::empty()),
        |items: Seq<crate::value::ValueView>| crate::value::ValueView::Vect(items),
        by,
    );
}

proof fn lemma_shift_set(a: Seq<char>, b: Seq<char>, by: int, i: int)
    requires
        aligned(a, b, by, i),
        i + 2 <= a.len(),
    ensures
        read_set(b, i + by) == shifted(read_set(a, i), by),
        i <= read_set(a, i).pos <= a.len(),
    decreases a.len() - i, 1int,
{
    lemma_shift_items(a, b, by, i + 2, i, '}', Seq::empty());
    assert(shift_forms(Seq::<SpanForm>::empty(), by) =~= Seq::<SpanForm>::empty());
    lemma_shift_collected(
        i,
        read_items(a, i + 2, i, '}', Seq::empty()),
        |items: Seq<crate::value::ValueView>| crate::value::ValueView::SetForm(items),
        by,
    );
}

/// A map that is read depends only on the characters from the position on.
pub proof fn lemma_shift_map(a: Seq<char>, b: Seq<char>, by: int, i: int)
    requires
        aligned(a, b, by, i),
        i < a.len(),
    ensures
        read_map(b, i + by) == shifted(read_map(a, i), by),
        i <= read_map(a, i).pos <= a.len(),
    decreases a.len() - i, 1int,
{
    lemma_shift_pairs(a, b, by, i + 1, i, Seq::empty());
    assert(shift_pairs(Seq::<(SpanForm, SpanForm)>::empty(), by) =~= Seq::<
        (SpanForm, SpanForm),
    >::empty());
    if let Ok(Some((kvs, close))) = read_pairs(a, i + 1, i, Seq::empty()).result {
        assert(pair_data_of(shift_pairs(kvs, by)) =~= pair_data_of(kvs));
    }
}

proof fn lemma_shift_namespaced_map(a: Seq<char>, b: Seq<char>, by: int, i: int)
    requires
        aligned(a, b, by, i),
        i + 2 <= a.len(),
    ensures
        read_namespaced_map(b, i + by) == shifted(read_namespaced_map(a, i), by),
        i <= read_namespaced_map(a, i).pos <= a.len(),
    decreases a.len() - i, 1int,
{
    lemma_shift_keyword(a, b, by, i + 1);
    let tag = read_keyword(a, i + 1);
    if tag.result is Ok && tag.pos < a.len() {
        assert(a[tag.pos] == b[tag.pos + by]);
        if a[tag.pos] == '{' {
            lemma_shift_map(a, b, by, tag.pos);
        }
    }
}

/// That `a` and `b` hold the same characters before position `q`.
#[verifier::opaque]
pub open spec fn agree(a: Seq<char>, b: Seq<char>, q: int) -> bool {
    &&& 0 <= q <= a.len()
    &&& q <= b.len()
    &&& forall|k: int| 0 <= k < q ==> #[trigger] a[k] == b[k]
}

/// That a symbol of `a` that ends just before `q` ends there in `b` too: `b`
/// ends at `q`, or holds whitespace at `q`, or holds there the character that
/// `a` holds there.
pub open spec fn breaks_alike(a: Seq<char>, b: Seq<char>, q: int) -> bool {
    ||| q >= b.len()
    ||| is_whitespace_char(b[q])
    ||| (q < a.len() && a[q] == b[q])
}

/// Whether the form that is read at or after `i` ends in a symbol or a
/// keyword, so that it ends where the next character says so. Every other
/// form ends with a character of its own: a closing delimiter or a quote.
pub open spec fn ends_in_symbol(src: Seq<char>, i: int) -> bool
    decreases src.len() - i,
{
    if !(0 <= i < src.len()) {
        false
    } else {
        let ch = src[i];
        if is_whitespace_char(ch) || ch == '\'' || ch == '@' {
            ends_in_symbol(src, i + 1)
        } else if is_delimiter(ch) || ch == '"' {
            false
        } else if ch == '#' && (char_at_is(src, i + 1, '{') || char_at_is(src, i + 1, ':')) {
            false
        } else if ch == '#' && char_at_is(src, i + 1, '_') {
            let dropped = read_one(src, i + 2);
            if dropped.result is Ok && dropped.result->Ok_0 is Some && i < dropped.pos
                <= src.len() {
                ends_in_symbol(src, dropped.pos)
            } else {
                false
            }
        } else if ch == ';' {
            let next = comment_end(src, i);
            if i < next <= src.len() {
                ends_in_symbol(src, next)
            } else {
                false
            }
        } else {
            true
        }
    }
}

/// Sources that agree before `q` hold the same character at every position
/// before `q`.
pub proof fn lemma_agree_at(a: Seq<char>, b: Seq<char>, q: int, k: int)
    requires
        agree(a, b, q),
        0 <= k < q,
    ensures
        a[k] == b[k],
        k < a.len(),
        k < b.len(),
{
    reveal(agree);
}

/// Sources that agree before `q` are both at least `q` characters long.
pub proof fn lemma_agree_bounds(a: Seq<char>, b: Seq<char>, q: int)
    requires
        agree(a, b, q),
    ensures
        0 <= q <= a.len(),
        q <= b.len(),
{
    reveal(agree);
}

/// Sources that agree before `q` agree before every earlier position, and
/// break alike there.
pub proof fn lemma_agree_earlier(a: Seq<char>, b: Seq<char>, q: int, p: int)
    requires
        agree(a, b, q),
        0 <= p <= q,
    ensures
        agree(a, b, p),
        p < q ==> breaks_alike(a, b, p),
{
    reveal(agree);
}

/// Skipping whitespace that ends before `q` does not depend on the characters
/// from `q` on.
pub proof fn lemma_stable_skip_whitespace(a: Seq<char>, b: Seq<char>, q: int, i: int)
    requires
        agree(a, b, q),
        0 <= i,
        skip_whitespace(a, i) < q,
    ensures
        skip_whitespace(b, i) == skip_whitespace(a, i),
    decreases q - i,
{
    lemma_agree_bounds(a, b, q);
    if i < q {
        lemma_agree_at(a, b, q, i);
        if is_whitespace_char(a[i]) {
            lemma_stable_skip_whitespace(a, b, q, i + 1);
        }
    } else if i <= a.len() {
        lemma_skip_whitespace(a, i);
    }
}

proof fn lemma_stable_closing_quote(a: Seq<char>, b: Seq<char>, q: int, i: int)
    requires
        agree(a, b, q),
        0 <= i,
        closing_quote(a, i) < q,
    ensures
        closing_quote(b, i) == closing_quote(a, i),
    decreases q - i,
{
    lemma_agree_bounds(a, b, q);
    if i < q {
        lemma_agree_at(a, b, q, i);
        if a[i] != '"' {
            lemma_stable_closing_quote(a, b, q, i + 1);
        }
    } else if i <= a.len() {
        lemma_closing_quote(a, i);
    }
}

/// A line that ends before `q` ends there whatever the characters from `q` on.
pub proof fn lemma_stable_line_end(a: Seq<char>, b: Seq<char>, q: int, i: int)
    requires
        agree(a, b, q),
        0 <= i,
        line_end(a, i) < q,
    ensures
        line_end(b, i) == line_end(a, i),
    decreases q - i,
{
    lemma_agree_bounds(a, b, q);
    if i < q {
        lemma_agree_at(a, b, q, i);
        if a[i] != '\n' && a[i] != '\r' {
            lemma_stable_line_end(a, b, q, i + 1);
        }
    } else if i <= a.len() {
        lemma_line_end(a, i);
    }
}

proof fn lemma_stable_symbol_part_end(a: Seq<char>, b: Seq<char>, q: int, i: int)
    requires
        agree(a, b, q),
        breaks_alike(a, b, q),
        0 <= i <= q,
        symbol_part_end(a, i) <= q,
    ensures
        symbol_part_end(b, i) == symbol_part_end(a, i),
    decreases q - i,
{
    lemma_agree_bounds(a, b, q);
    if i < q {
        lemma_agree_at(a, b, q, i);
        if a[i] != '/' && is_symbol_char(a[i]) {
            lemma_stable_symbol_part_end(a, b, q, i + 1);
        }
    } else {
        lemma_symbol_part_end(a, i);
    }
}

proof fn lemma_stable_subrange(a: Seq<char>, b: Seq<char>, q: int, lo: int, hi: int)
    requires
        agree(a, b, q),
        0 <= lo <= hi <= q,
    ensures
        b.subrange(lo, hi) == a.subrange(lo, hi),
{
    lemma_agree_bounds(a, b, q);
    let x = a.subrange(lo, hi);
    let y = b.subrange(lo, hi);
    assert forall|k: int| 0 <= k < x.len() implies #[trigger] x[k] == y[k] by {
        lemma_agree_at(a, b, q, lo + k);
    }
    assert(x =~= y);
}

proof fn lemma_stable_symbol_part(a: Seq<char>, b: Seq<char>, q: int, i: int)
    requires
        agree(a, b, q),
        breaks_alike(a, b, q),
        0 <= i < q,
        read_symbol_part(a, i).pos <= q,
    ensures
        read_symbol_part(b, i) == read_symbol_part(a, i),
{
    lemma_agree_at(a, b, q, i);
    if is_symbol_char(a[i]) {
        lemma_symbol_part_end(a, i + 1);
        lemma_stable_symbol_part_end(a, b, q, i + 1);
        lemma_stable_subrange(a, b, q, i, symbol_part_end(a, i + 1));
    }
}

proof fn lemma_stable_symbol(a: Seq<char>, b: Seq<char>, q: int, i: int)
    requires
        agree(a, b, q),
        breaks_alike(a, b, q),
        0 <= i < q,
        read_symbol(a, i).pos <= q,
        read_symbol(a, i).result is Ok,
        read_symbol(a, i).result->Ok_0 is Some,
    ensures
        read_symbol(b, i) == read_symbol(a, i),
{
    lemma_read_symbol_part_tiles(a, i);
    let first = read_symbol_part(a, i);
    let slash = first.pos;
    if slash < a.len() {
        lemma_read_symbol_part_tiles(a, slash + 1);
    }
    lemma_agree_bounds(a, b, q);
    lemma_stable_symbol_part(a, b, q, i);
    if slash < q {
        lemma_agree_at(a, b, q, slash);
        if a[slash] == '/' {
            lemma_stable_symbol_part(a, b, q, slash + 1);
        }
    }
}

/// A keyword that is read before `q` does not depend on the characters behind
/// `q`.
pub proof fn lemma_stable_keyword(a: Seq<char>, b: Seq<char>, q: int, i: int)
    requires
        agree(a, b, q),
        breaks_alike(a, b, q),
        0 <= i < q,
        read_keyword(a, i).pos <= q,
        read_keyword(a, i).result is Ok,
    ensures
        read_keyword(b, i) == read_keyword(a, i),
{
    lemma_read_keyword_tiles(a, i);
    let double_colon = char_at_is(a, i + 1, ':');
    let start = if double_colon {
        i + 2
    } else {
        i + 1
    };
    lemma_read_symbol_tiles(a, start);
    lemma_agree_bounds(a, b, q);
    lemma_agree_at(a, b, q, i);
    if i + 1 < q {
        lemma_agree_at(a, b, q, i + 1);
    }
    lemma_stable_symbol(a, b, q, start);
}

proof fn lemma_stable_string(a: Seq<char>, b: Seq<char>, q: int, i: int)
    requires
        agree(a, b, q),
        0 <= i < q,
        read_string(a, i).pos <= q,
        read_string(a, i).result is Ok,
    ensures
        read_string(b, i) == read_string(a, i),
{
    lemma_closing_quote(a, i + 1);
    lemma_agree_bounds(a, b, q);
    lemma_agree_at(a, b, q, i);
    lemma_stable_closing_quote(a, b, q, i + 1);
    lemma_stable_subrange(a, b, q, i + 1, closing_quote(a, i + 1));
}

/// What is read does not depend on what follows the form. Where reading `a`
/// at `i` gives a form and leaves the cursor at or before `q`, and `b` holds
/// the same characters as `a` before `q` and, if the form ends in a symbol,
/// breaks at `q` as `a` does, then reading `b` at `i` gives the same.
#[verifier::rlimit(60)]
pub proof fn lemma_stable_read_one(a: Seq<char>, b: Seq<char>, q: int, i: int)
    requires
        agree(a, b, q),
        ends_in_symbol(a, i) ==> breaks_alike(a, b, q),
        0 <= i,
        read_one(a, i).pos <= q,
        read_one(a, i).result is Ok,
        read_one(a, i).result->Ok_0 is Some,
    ensures
        read_one(b, i) == read_one(a, i),
    decreases a.len() - i, 4int,
{
    lemma_agree_bounds(a, b, q);
    if i < a.len() {
        lemma_read_one_advances(a, i);
        lemma_agree_at(a, b, q, i);
        let ch = a[i];
        if i + 1 < q {
            lemma_agree_at(a, b, q, i + 1);
        }
        if is_whitespace_char(ch) {
            lemma_stable_read_one(a, b, q, i + 1);
            assert(read_one(b, i) == read_one(a, i));
        } else if is_closer(ch) {
        } else if ch == '(' {
            lemma_stable_list(a, b, q, i);
            assert(read_one(b, i) == read_one(a, i));
        } else if ch == '[' {
            lemma_stable_vect(a, b, q, i);
            assert(read_one(b, i) == read_one(a, i));
        } else if ch == '{' {
            lemma_stable_map(a, b, q, i);
            assert(read_one(b, i) == read_one(a, i));
        } else if ch == '\'' {
            lemma_stable_wrapped(a, b, q, i, "quote"@);
            assert(read_one(b, i) == read_one(a, i));
        } else if ch == '@' {
            lemma_stable_wrapped(a, b, q, i, "deref"@);
            assert(read_one(b, i) == read_one(a, i));
        } else if ch == '#' {
            lemma_stable_hash(a, b, q, i);
        } else if ch == ':' {
            lemma_stable_keyword(a, b, q, i);
            assert(read_one(b, i) == read_one(a, i));
        } else if ch == '"' {
            lemma_stable_string(a, b, q, i);
            assert(read_one(b, i) == read_one(a, i));
        } else if ch == ';' {
            lemma_stable_comment(a, b, q, i);
            assert(read_one(b, i) == read_one(a, i));
        } else {
            lemma_read_symbol_tiles(a, i);
            lemma_stable_symbol(a, b, q, i);
            assert(read_one(b, i) == read_one(a, i));
        }
    }
}

#[verifier::rlimit(60)]
proof fn lemma_stable_hash(a: Seq<char>, b: Seq<char>, q: int, i: int)
    requires
        agree(a, b, q),
        ends_in_symbol(a, i) ==> breaks_alike(a, b, q),
        0 <= i < a.len(),
        i < q,
        a[i] == '#',
        b[i] == '#',
        read_one(a, i).pos <= q,
        read_one(a, i).result is Ok,
        read_one(a, i).result->Ok_0 is Some,
    ensures
        read_one(b, i) == read_one(a, i),
    decreases a.len() - i, 3int,
{
    lemma_agree_bounds(a, b, q);
    lemma_read_one_advances(a, i);
    if i + 1 < q {
        lemma_agree_at(a, b, q, i + 1);
    }
    if char_at_is(a, i + 1, '{') {
        assert(read_one(a, i) == read_set(a, i));
        lemma_read_items_advances(a, i + 2, i, '}', Seq::empty());
        assert(i + 1 < q);
        lemma_stable_set(a, b, q, i);
        assert(read_one(b, i) == read_set(b, i));
    } else if char_at_is(a, i + 1, ':') {
        assert(read_one(a, i) == read_namespaced_map(a, i));
        lemma_read_keyword_tiles(a, i + 1);
        if read_keyword(a, i + 1).pos < a.len() {
            lemma_read_map_advances(a, read_keyword(a, i + 1).pos);
        }
        assert(i + 1 < q);
        lemma_stable_namespaced_map(a, b, q, i);
        assert(read_one(b, i) == read_namespaced_map(b, i));
    } else if char_at_is(a, i + 1, '_') {
        assert(read_one(a, i) == read_discard(a, i));
        crate::progress::lemma_read_discard_advances(a, i);
        assert(i + 1 < q);
        lemma_stable_discard(a, b, q, i);
        assert(read_one(b, i) == read_discard(b, i));
    } else {
        lemma_read_symbol_tiles(a, i);
        assert(ends_in_symbol(a, i));
        lemma_stable_symbol(a, b, q, i);
        assert(!char_at_is(b, i + 1, '{'));
        assert(!char_at_is(b, i + 1, ':'));
        assert(!char_at_is(b, i + 1, '_'));
    }
}

proof fn lemma_stable_comment(a: Seq<char>, b: Seq<char>, q: int, i: int)
    requires
        agree(a, b, q),
        ends_in_symbol(a, i) ==> breaks_alike(a, b, q),
        0 <= i < a.len(),
        a[i] == ';',
        read_one(a, i).pos <= q,
        read_one(a, i).result is Ok,
        read_one(a, i).result->Ok_0 is Some,
    ensures
        comment_end(b, i) == comment_end(a, i),
        i < comment_end(a, i) <= q,
        read_one(b, comment_end(a, i)) == read_one(a, comment_end(a, i)),
    decreases a.len() - i, 1int,
{
    lemma_agree_bounds(a, b, q);
    lemma_comment_end(a, i);
    lemma_line_end(a, i + 1);
    lemma_read_one_advances(a, comment_end(a, i));
    lemma_stable_line_end(a, b, q, i + 1);
    lemma_agree_at(a, b, q, line_end(a, i + 1));
    lemma_stable_read_one(a, b, q, comment_end(a, i));
}

proof fn lemma_stable_wrapped(a: Seq<char>, b: Seq<char>, q: int, i: int, name: Seq<char>)
    requires
        agree(a, b, q),
        ends_in_symbol(a, i + 1) ==> breaks_alike(a, b, q),
        0 <= i < a.len(),
        read_wrapped(a, i, name).pos <= q,
        read_wrapped(a, i, name).result is Ok,
    ensures
        read_wrapped(b, i, name) == read_wrapped(a, i, name),
    decreases a.len() - i, 1int,
{
    lemma_agree_bounds(a, b, q);
    lemma_read_one_advances(a, i + 1);
    lemma_stable_read_one(a, b, q, i + 1);
}

proof fn lemma_stable_discard(a: Seq<char>, b: Seq<char>, q: int, i: int)
    requires
        agree(a, b, q),
        ends_in_symbol(a, read_one(a, i + 2).pos) ==> breaks_alike(a, b, q),
        0 <= i,
        i + 2 <= a.len(),
        read_discard(a, i).pos <= q,
        read_discard(a, i).result is Ok,
        read_discard(a, i).result->Ok_0 is Some,
    ensures
        read_discard(b, i) == read_discard(a, i),
    decreases a.len() - i, 1int,
{
    lemma_agree_bounds(a, b, q);
    lemma_read_one_advances(a, i + 2);
    let dropped = read_one(a, i + 2);
    lemma_read_one_advances(a, dropped.pos);
    lemma_agree_earlier(a, b, q, dropped.pos);
    lemma_stable_read_one(a, b, dropped.pos, i + 2);
    lemma_stable_read_one(a, b, q, dropped.pos);
}

proof fn lemma_stable_items(
    a: Seq<char>,
    b: Seq<char>,
    q: int,
    i: int,
    open: int,
    closer: char,
    acc: Seq<SpanForm>,
)
    requires
        agree(a, b, q),
        0 <= open < i <= a.len(),
        read_items(a, i, open, closer, acc).pos <= q,
        read_items(a, i, open, closer, acc).result is Ok,
    ensures
        read_items(b, i, open, closer, acc) == read_items(a, i, open, closer, acc),
    decreases a.len() - i, 5int,
{
    lemma_read_items_advances(a, i, open, closer, acc);
    lemma_skip_whitespace(a, i);
    let at = skip_whitespace(a, i);
    if at < a.len() && a[at] != closer {
        lemma_read_one_advances(a, at);
        let item = read_one(a, at);
        if let Ok(Some(form)) = item.result {
            lemma_read_items_advances(a, item.pos, open, closer, acc.push(form));
            lemma_stable_skip_whitespace(a, b, q, i);
            lemma_agree_at(a, b, q, at);
            lemma_agree_earlier(a, b, q, item.pos);
            lemma_stable_read_one(a, b, item.pos, at);
            lemma_stable_items(a, b, q, item.pos, open, closer, acc.push(form));
        }
    } else if at < a.len() {
        lemma_stable_skip_whitespace(a, b, q, i);
        lemma_agree_at(a, b, q, at);
    }
}

proof fn lemma_stable_pairs(
    a: Seq<char>,
    b: Seq<char>,
    q: int,
    i: int,
    open: int,
    acc: Seq<(SpanForm, SpanForm)>,
)
    requires
        agree(a, b, q),
        0 <= open < i <= a.len(),
        read_pairs(a, i, open, acc).pos <= q,
        read_pairs(a, i, open, acc).result is Ok,
    ensures
        read_pairs(b, i, open, acc) == read_pairs(a, i, open, acc),
    decreases a.len() - i, 5int,
{
    lemma_read_pairs_advances(a, i, open, acc);
    lemma_skip_whitespace(a, i);
    let at = skip_whitespace(a, i);
    if at < a.len() && a[at] != '}' {
        lemma_read_one_advances(a, at);
        let key = read_one(a, at);
        if let Ok(Some(k)) = key.result {
            lemma_skip_whitespace(a, key.pos);
            let then = skip_whitespace(a, key.pos);
            if !char_at_is(a, then, '}') {
                lemma_read_one_advances(a, then);
                let value = read_one(a, then);
                if let Ok(Some(v)) = value.result {
                    lemma_read_pairs_advances(a, value.pos, open, acc.push((k, v)));
                    lemma_stable_skip_whitespace(a, b, q, i);
                    lemma_agree_at(a, b, q, at);
                    lemma_agree_earlier(a, b, q, key.pos);
                    lemma_stable_read_one(a, b, key.pos, at);
                    lemma_stable_skip_whitespace(a, b, q, key.pos);
                    lemma_agree_at(a, b, q, then);
                    lemma_agree_earlier(a, b, q, value.pos);
                    lemma_stable_read_one(a, b, value.pos, then);
                    lemma_stable_pairs(a, b, q, value.pos, open, acc.push((k, v)));
                }
            }
        }
    } else if at < a.len() {
        lemma_stable_skip_whitespace(a, b, q, i);
        lemma_agree_at(a, b, q, at);
    }
}

proof fn lemma_stable_list(a: Seq<char>, b: Seq<char>, q: int, i: int)
    requires
        agree(a, b, q),
        0 <= i < a.len(),
        read_list(a, i).pos <= q,
        read_list(a, i).result is Ok,
    ensures
        read_list(b, i) == read_list(a, i),
    decreases a.len() - i, 1int,
{
    lemma_read_items_advances(a, i + 1, i, ')', Seq::empty());
    lemma_stable_items(a, b, q, i + 1, i, ')', Seq::empty());
}

proof fn lemma_stable_vect(a: Seq<char>, b: Seq<char>, q: int, i: int)
    requires
        agree(a, b, q),
        0 <= i < a.len(),
        read_vect(a, i).pos <= q,
        read_vect(a, i).result is Ok,
    ensures
        read_vect(b, i) == read_vect(a, i),
    decreases a.len() - i, 1int,
{
    lemma_read_items_advances(a, i + 1, i, ']', Seq::empty());
    lemma_stable_items(a, b, q, i + 1, i, ']', Seq::empty());
}

proof fn lemma_stable_set(a: Seq<char>, b: Seq<char>, q: int, i: int)
    requires
        agree(a, b, q),
        0 <= i,
        i + 2 <= a.len(),
        read_set(a, i).pos <= q,
        read_set(a, i).result is Ok,
    ensures
        read_set(b, i) == read_set(a, i),
    decreases a.len() - i, 1int,
{
    lemma_read_items_advances(a, i + 2, i, '}', Seq::empty());
    lemma_stable_items(a, b, q, i + 2, i, '}', Seq::empty());
}

proof fn lemma_stable_map(a: Seq<char>, b: Seq<char>, q: int, i: int)
    requires
        agree(a, b, q),
        0 <= i < a.len(),
        read_map(a, i).pos <= q,
        read_map(a, i).result is Ok,
    ensures
        read_map(b, i) == read_map(a, i),
    decreases a.len() - i, 1int,
{
    lemma_read_pairs_advances(a, i + 1, i, Seq::empty());
    lemma_stable_pairs(a, b, q, i + 1, i, Seq::empty());
}

proof fn lemma_stable_namespaced_map(a: Seq<char>, b: Seq<char>, q: int, i: int)
    requires
        agree(a, b, q),
        0 <= i,
        i + 2 <= a.len(),
        read_namespaced_map(a, i).pos <= q,
        read_namespaced_map(a, i).result is Ok,
    ensures
        read_namespaced_map(b, i) == read_namespaced_map(a, i),
    decreases a.len() - i, 1int,
{
    lemma_read_keyword_tiles(a, i + 1);
    let tag = read_keyword(a, i + 1);
    lemma_read_map_advances(a, tag.pos);
    lemma_agree_bounds(a, b, q);
    lemma_agree_at(a, b, q, tag.pos);
    lemma_agree_earlier(a, b, q, tag.pos);
    lemma_stable_keyword(a, b, tag.pos, i + 1);
    lemma_stable_map(a, b, q, tag.pos);
}

} // verus!

//! What holds of every read, proved from the definitions in
//! [`crate::grammar`].

use vstd::prelude::*;
use crate::grammar::{
    char_at_is, comment_end, data_of, is_closer, is_whitespace_char, line_end, pair_data_of,
    read_discard, read_items, read_list, read_map, read_one, read_pairs, read_set, read_vect,
    read_wrapped, skip_whitespace, wrapped, Fault, Outcome, SpanForm,
};
use crate::insertion::{free_at, lemma_put_in, lemma_put_in_read_one, put_in};
use crate::locality::{agree, aligned, lemma_shift_read_one, shift_fault};
use crate::offsets::{byte_offset, lemma_byte_offset_increases, utf8_len};
use crate::progress::{
    lemma_comment_end, lemma_read_keyword_tiles, lemma_read_list_advances, lemma_read_map_advances,
    lemma_read_namespaced_map_advances, lemma_read_one_advances, lemma_read_set_advances,
    lemma_read_string_tiles, lemma_read_symbol_tiles, lemma_read_vect_advances,
    lemma_read_wrapped_advances, lemma_skip_whitespace,
};
use crate::value::ValueView;
use crate::WithSpan;

verus! {

/// That the forms lie strictly between the positions `low` and `high`, one
/// behind the other.
pub open spec fn nested(forms: Seq<SpanForm>, low: int, high: int) -> bool {
    &&& forall|k: int|
        0 <= k < forms.len() ==> low < (#[trigger] forms[k]).span.0 <= forms[k].span.1 < high
    &&& forall|j: int, k: int|
        0 <= j < k < forms.len() ==> (#[trigger] forms[j]).span.1 < (#[trigger] forms[k]).span.0
}

/// The keys and values of a map in the order written: key, value, key, value.
pub open spec fn flattened(pairs: Seq<(SpanForm, SpanForm)>) -> Seq<SpanForm> {
    Seq::new(
        2 * pairs.len(),
        |k: int|
            if k % 2 == 0 {
                pairs[k / 2].0
            } else {
                pairs[k / 2].1
            },
    )
}

proof fn lemma_nested_push(forms: Seq<SpanForm>, form: SpanForm, low: int, mid: int, high: int)
    requires
        nested(forms, low, mid),
        mid <= form.span.0 <= form.span.1 < high,
        low < mid,
    ensures
        nested(forms.push(form), low, high),
{
    let all = forms.push(form);
    assert forall|k: int| 0 <= k < all.len() implies low < (#[trigger] all[k]).span.0
        <= all[k].span.1 < high by {
        if k < forms.len() {
            assert(all[k] == forms[k]);
        }
    }
    assert forall|j: int, k: int| 0 <= j < k < all.len() implies (#[trigger] all[j]).span.1 < (
    #[trigger] all[k]).span.0 by {
        assert(all[j] == forms[j]);
        if k < forms.len() {
            assert(all[k] == forms[k]);
        }
    }
}

proof fn lemma_nested_widen(forms: Seq<SpanForm>, low: int, mid: int, high: int)
    requires
        nested(forms, low, mid),
        mid <= high,
    ensures
        nested(forms, low, high),
{
}

proof fn lemma_items_nested(src: Seq<char>, i: int, open: int, closer: char, acc: Seq<SpanForm>)
    requires
        0 <= open < i <= src.len(),
        nested(acc, open, i),
    ensures
        read_items(src, i, open, closer, acc).result matches Ok(Some((forms, close))) ==> nested(
            forms,
            open,
            close,
        ),
    decreases src.len() - i,
{
    lemma_skip_whitespace(src, i);
    let at = skip_whitespace(src, i);
    if at < src.len() {
        if src[at] == closer {
            lemma_nested_widen(acc, open, i, at);
        } else {
            lemma_read_one_advances(src, at);
            let item = read_one(src, at);
            if let Ok(Some(form)) = item.result {
                lemma_nested_push(acc, form, open, i, item.pos);
                lemma_items_nested(src, item.pos, open, closer, acc.push(form));
            }
        }
    }
}

proof fn lemma_flattened_push(pairs: Seq<(SpanForm, SpanForm)>, k: SpanForm, v: SpanForm)
    ensures
        flattened(pairs.push((k, v))) == flattened(pairs).push(k).push(v),
{
    let a = flattened(pairs.push((k, v)));
    let b = flattened(pairs).push(k).push(v);
    assert(a.len() == b.len());
    assert forall|j: int| 0 <= j < a.len() implies a[j] == b[j] by {
        if j < 2 * pairs.len() {
            assert(j / 2 < pairs.len());
            assert(pairs.push((k, v))[j / 2] == pairs[j / 2]);
            assert(b[j] == flattened(pairs)[j]);
        } else {
            assert(j / 2 == pairs.len());
        }
    }
    assert(a =~= b);
}

proof fn lemma_pairs_nested(src: Seq<char>, i: int, open: int, acc: Seq<(SpanForm, SpanForm)>)
    requires
        0 <= open < i <= src.len(),
        nested(flattened(acc), open, i),
    ensures
        read_pairs(src, i, open, acc).result matches Ok(Some((pairs, close))) ==> nested(
            flattened(pairs),
            open,
            close,
        ),
    decreases src.len() - i,
{
    lemma_skip_whitespace(src, i);
    let at = skip_whitespace(src, i);
    if at < src.len() {
        if src[at] == '}' {
            lemma_nested_widen(flattened(acc), open, i, at);
        } else {
            lemma_read_one_advances(src, at);
            let key = read_one(src, at);
            if let Ok(Some(k)) = key.result {
                lemma_skip_whitespace(src, key.pos);
                let then = skip_whitespace(src, key.pos);
                if !char_at_is(src, then, '}') {
                    lemma_read_one_advances(src, then);
                    let value = read_one(src, then);
                    if let Ok(Some(v)) = value.result {
                        lemma_nested_push(flattened(acc), k, open, i, key.pos);
                        lemma_nested_push(flattened(acc).push(k), v, open, key.pos, value.pos);
                        lemma_flattened_push(acc, k, v);
                        lemma_pairs_nested(src, value.pos, open, acc.push((k, v)));
                    }
                }
            }
        }
    }
}

/// The forms of the list, vector or set whose opening delimiter stands at
/// `open` and whose first form is looked for at `i`, with their spans.
pub open spec fn items_of(src: Seq<char>, i: int, open: int, closer: char) -> Seq<SpanForm> {
    read_items(src, i, open, closer, Seq::empty()).result->Ok_0->Some_0.0
}

/// The keys and values of the map whose `{` stands at `open`, with their spans.
pub open spec fn pairs_of(src: Seq<char>, open: int) -> Seq<(SpanForm, SpanForm)> {
    read_pairs(src, open + 1, open, Seq::empty()).result->Ok_0->Some_0.0
}

/// Span nesting, for lists, vectors and sets. Where a collection is read, the
/// span of each of its forms lies strictly inside the span of the collection,
/// and the spans of its forms follow one another in the order of the source
/// without overlap. The values of the forms are the children of the
/// collection's value.
pub proof fn law_span_nesting(src: Seq<char>, i: int)
    requires
        0 <= i < src.len(),
    ensures
        read_list(src, i).result matches Ok(Some(list)) ==> nested(
            items_of(src, i + 1, i, ')'),
            list.span.0,
            list.span.1,
        ) && list.data == ValueView::List(data_of(items_of(src, i + 1, i, ')'))),
        read_vect(src, i).result matches Ok(Some(vect)) ==> nested(
            items_of(src, i + 1, i, ']'),
            vect.span.0,
            vect.span.1,
        ) && vect.data == ValueView::Vect(data_of(items_of(src, i + 1, i, ']'))),
        read_set(src, i).result matches Ok(Some(set)) ==> nested(
            items_of(src, i + 2, i, '}'),
            set.span.0,
            set.span.1,
        ) && set.data == ValueView::SetForm(data_of(items_of(src, i + 2, i, '}'))),
{
    lemma_items_nested(src, i + 1, i, ')', Seq::empty());
    lemma_items_nested(src, i + 1, i, ']', Seq::empty());
    if i + 2 <= src.len() {
        lemma_items_nested(src, i + 2, i, '}', Seq::empty());
    }
}

/// Span nesting, for maps. Where a map is read, the spans of its keys and
/// values lie strictly inside the span of the map and follow one another in
/// the order of the source without overlap: key, value, key, value.
pub proof fn law_span_nesting_map(src: Seq<char>, i: int)
    requires
        0 <= i < src.len(),
    ensures
        read_map(src, i).result matches Ok(Some(map)) ==> nested(
            flattened(pairs_of(src, i)),
            map.span.0,
            map.span.1,
        ) && map.data == ValueView::MapForm(pair_data_of(pairs_of(src, i))),
{
    assert(flattened(Seq::<(SpanForm, SpanForm)>::empty()) =~= Seq::<SpanForm>::empty());
    lemma_pairs_nested(src, i + 1, i, Seq::empty());
}

/// Spans that are nested and ordered as positions are nested and ordered as
/// byte offsets too.
pub proof fn law_span_nesting_in_bytes(src: Seq<char>, forms: Seq<SpanForm>, low: int, high: int)
    requires
        nested(forms, low, high),
        0 <= low,
        high < src.len(),
    ensures
        forall|k: int|
            0 <= k < forms.len() ==> byte_offset(src, low) < byte_offset(
                src,
                (#[trigger] forms[k]).span.0,
            ) <= byte_offset(src, forms[k].span.1) < byte_offset(src, high),
        forall|j: int, k: int|
            0 <= j < k < forms.len() ==> byte_offset(src, (#[trigger] forms[j]).span.1)
                < byte_offset(src, (#[trigger] forms[k]).span.0),
{
    assert forall|k: int| 0 <= k < forms.len() implies byte_offset(src, low) < byte_offset(
        src,
        (#[trigger] forms[k]).span.0,
    ) <= byte_offset(src, forms[k].span.1) < byte_offset(src, high) by {
        lemma_byte_offset_increases(src, low, forms[k].span.0);
        if forms[k].span.0 < forms[k].span.1 {
            lemma_byte_offset_increases(src, forms[k].span.0, forms[k].span.1);
        }
        lemma_byte_offset_increases(src, forms[k].span.1, high);
    }
    assert forall|j: int, k: int| 0 <= j < k < forms.len() implies byte_offset(
        src,
        (#[trigger] forms[j]).span.1,
    ) < byte_offset(src, (#[trigger] forms[k]).span.0) by {
        lemma_byte_offset_increases(src, forms[j].span.1, forms[k].span.0);
    }
}

/// That the region from `i` up to `j` holds nothing but whitespace, comments
/// and discarded forms.
pub open spec fn blank(src: Seq<char>, i: int, j: int) -> bool
    decreases src.len() - i,
{
    if i >= j {
        i == j
    } else if !(0 <= i < src.len()) {
        false
    } else if is_whitespace_char(src[i]) {
        blank(src, i + 1, j)
    } else if src[i] == ';' {
        let end = comment_end(src, i);
        i < end <= j && end <= src.len() && blank(src, end, j)
    } else if src[i] == '#' && char_at_is(src, i + 1, '_') {
        let dropped = read_one(src, i + 2);
        dropped.result is Ok && dropped.result->Ok_0 is Some && i < dropped.pos <= j && dropped.pos
            <= src.len() && blank(src, dropped.pos, j)
    } else {
        false
    }
}

/// Span coverage. A read that gives a form leaves nothing unaccounted for
/// between the cursor's old and new positions: up to the form there is only
/// whitespace, comments and discarded forms, and the cursor stops on the
/// character after the form. A read that gives no form has passed nothing but
/// whitespace, comments and discarded forms, up to the end of the source. So
/// the spans of the values read one after another never overlap, and together
/// with what lies between them they make up the source.
pub proof fn law_span_coverage(src: Seq<char>, i: int)
    requires
        0 <= i <= src.len(),
    ensures
        match read_one(src, i).result {
            Ok(Some(form)) => {
                &&& blank(src, i, form.span.0)
                &&& form.span.0 <= form.span.1 < src.len()
                &&& read_one(src, i).pos == form.span.1 + 1
            },
            Ok(None) => blank(src, i, src.len() as int) && read_one(src, i).pos == src.len(),
            Err(_) => true,
        },
    decreases src.len() - i,
{
    lemma_read_one_advances(src, i);
    if i < src.len() {
        let ch = src[i];
        if is_whitespace_char(ch) {
            law_span_coverage(src, i + 1);
        } else if is_closer(ch) {
        } else if ch == '(' {
            lemma_read_list_advances(src, i);
        } else if ch == '[' {
            lemma_read_vect_advances(src, i);
        } else if ch == '{' {
            lemma_read_map_advances(src, i);
        } else if ch == '\'' {
            lemma_read_wrapped_advances(src, i, "quote"@);
        } else if ch == '@' {
            lemma_read_wrapped_advances(src, i, "deref"@);
        } else if ch == '#' && char_at_is(src, i + 1, '{') {
            lemma_read_set_advances(src, i);
        } else if ch == '#' && char_at_is(src, i + 1, ':') {
            lemma_read_namespaced_map_advances(src, i);
        } else if ch == '#' && char_at_is(src, i + 1, '_') {
            lemma_read_one_advances(src, i + 2);
            let dropped = read_one(src, i + 2);
            assert(read_one(src, i) == read_discard(src, i));
            if let Ok(Some(_)) = dropped.result {
                law_span_coverage(src, dropped.pos);
            }
        } else if ch == ':' {
            lemma_read_keyword_tiles(src, i);
        } else if ch == '"' {
            lemma_read_string_tiles(src, i);
        } else if ch == ';' {
            lemma_comment_end(src, i);
            law_span_coverage(src, comment_end(src, i));
        } else {
            lemma_read_symbol_tiles(src, i);
        }
    }
}

/// The span of a form that is read, in byte offsets: the end is not before
/// the beginning, and both are offsets of characters of the source.
pub proof fn law_span_in_bytes(src: Seq<char>, i: int)
    requires
        0 <= i <= src.len(),
    ensures
        read_one(src, i).result matches Ok(Some(form)) ==> 0 <= form.span.0 <= form.span.1
            < src.len() && byte_offset(src, form.span.0) <= byte_offset(src, form.span.1)
            < utf8_len(src),
{
    lemma_read_one_advances(src, i);
    if let Ok(Some(form)) = read_one(src, i).result {
        if form.span.0 < form.span.1 {
            lemma_byte_offset_increases(src, form.span.0, form.span.1);
        }
        lemma_byte_offset_increases(src, form.span.1, src.len() as int);
        assert(src.take(src.len() as int) =~= src);
    }
}

/// The values of the forms that are read one after another from `i` on, up
/// to the first read that gives none: the end of the source, or a fault.
pub open spec fn read_all(src: Seq<char>, i: int) -> Seq<ValueView>
    decreases src.len() - i,
{
    let out = read_one(src, i);
    match out.result {
        Ok(Some(form)) => if i < out.pos <= src.len() {
            seq![form.data] + read_all(src, out.pos)
        } else {
            Seq::empty()
        },
        _ => Seq::empty(),
    }
}

/// That `p` lies between forms, at any depth, when forms are read one after
/// another from `i` on: each form before `p` is read, and `p` lies behind it or
/// between the forms inside it (see [`free_at`]). With `closed`, what is put
/// in at `p` is a comment, which must not follow a symbol or a keyword
/// directly, nor stand last in a collection.
pub open spec fn between_forms(src: Seq<char>, i: int, p: int, closed: bool) -> bool
    decreases src.len() - i,
{
    i == p || {
        let out = read_one(src, i);
        &&& 0 <= i < p
        &&& out.result is Ok
        &&& out.result->Ok_0 is Some
        &&& i < out.pos <= src.len()
        &&& free_at(src, i, p, closed)
        &&& out.pos <= p ==> between_forms(src, out.pos, p, closed)
    }
}

/// The source with `inserted` put in at position `p`.
pub open spec fn with_inserted(src: Seq<char>, p: int, inserted: Seq<char>) -> Seq<char> {
    src.subrange(0, p) + inserted + src.subrange(p, src.len() as int)
}

/// That every character of `text` is whitespace for the reader.
pub open spec fn all_whitespace(text: Seq<char>) -> bool {
    forall|k: int| 0 <= k < text.len() ==> is_whitespace_char(#[trigger] text[k])
}

/// That `text` is a comment with the line break that ends it: a `;`, then
/// characters other than line breaks, then one line break.
pub open spec fn is_comment_line(text: Seq<char>) -> bool {
    &&& text.len() >= 2
    &&& text[0] == ';'
    &&& text.last() == '\n' || text.last() == '\r'
    &&& forall|k: int| 1 <= k < text.len() - 1 ==> #[trigger] text[k] != '\n' && text[k] != '\r'
}

proof fn lemma_inserted(src: Seq<char>, p: int, inserted: Seq<char>)
    requires
        0 <= p <= src.len(),
    ensures
        with_inserted(src, p, inserted).len() == src.len() + inserted.len(),
        agree(src, with_inserted(src, p, inserted), p),
        aligned(src, with_inserted(src, p, inserted), inserted.len() as int, p),
        forall|k: int|
            0 <= k < inserted.len() ==> #[trigger] with_inserted(src, p, inserted)[p + k]
                == inserted[k],
{
    reveal(agree);
    let out = with_inserted(src, p, inserted);
    assert forall|k: int| p <= k < src.len() implies #[trigger] src[k] == out[k
        + inserted.len()] by {}
}

/// The values that are read from a position on depend only on the characters
/// from that position on.
pub proof fn lemma_shift_read_all(a: Seq<char>, b: Seq<char>, by: int, i: int)
    requires
        aligned(a, b, by, i),
    ensures
        read_all(b, i + by) == read_all(a, i),
    decreases a.len() - i,
{
    lemma_shift_read_one(a, b, by, i);
    let out = read_one(a, i);
    if let Ok(Some(form)) = out.result {
        if i < out.pos {
            lemma_shift_read_all(a, b, by, out.pos);
        }
    }
}

/// Putting whitespace or a comment in between forms leaves the values that
/// are read as they were.
proof fn lemma_put_in_read_all(
    src: Seq<char>,
    there: Seq<char>,
    p: int,
    n: int,
    closed: bool,
    i: int,
)
    requires
        put_in(src, there, p, n, closed),
        0 <= i <= p,
        between_forms(src, i, p, closed),
    ensures
        read_all(there, i) == read_all(src, i),
    decreases src.len() - i,
{
    lemma_put_in(src, there, p, n, closed);
    if i == p {
        assert(aligned(src, there, n, p));
        lemma_shift_read_one(src, there, n, p);
        lemma_read_one_advances(src, p);
        let first = read_one(src, p);
        if let Ok(Some(form)) = first.result {
            assert(aligned(src, there, n, first.pos));
            lemma_shift_read_all(src, there, n, first.pos);
        }
    } else {
        let first = read_one(src, i);
        lemma_put_in_read_one(src, there, p, n, closed, i);
        if first.pos <= p {
            lemma_put_in_read_all(src, there, p, n, closed, first.pos);
        } else {
            assert(aligned(src, there, n, first.pos));
            lemma_shift_read_all(src, there, n, first.pos);
        }
    }
}

/// Whitespace insensitivity. Whitespace (commas included) that is inserted
/// between forms, at any depth, does not change the values that are read:
/// where `p` lies between forms, the source with whitespace inserted at `p`
/// gives the same values from `i` on as the source itself.
pub proof fn law_whitespace_insensitive(src: Seq<char>, i: int, p: int, inserted: Seq<char>)
    requires
        0 <= i <= p <= src.len(),
        between_forms(src, i, p, false),
        all_whitespace(inserted),
    ensures
        read_all(with_inserted(src, p, inserted), i) == read_all(src, i),
{
    let out = with_inserted(src, p, inserted);
    lemma_inserted(src, p, inserted);
    assert forall|k: int| p <= k < p + inserted.len() implies is_whitespace_char(
        #[trigger] out[k],
    ) by {
        assert(out[p + (k - p)] == inserted[k - p]);
    }
    lemma_put_in_read_all(src, out, p, inserted.len() as int, false, i);
}

proof fn lemma_line_end_of_comment(src: Seq<char>, i: int, end: int)
    requires
        0 <= i <= end < src.len(),
        forall|k: int| i <= k < end ==> #[trigger] src[k] != '\n' && src[k] != '\r',
        src[end] == '\n' || src[end] == '\r',
    ensures
        line_end(src, i) == end,
    decreases end - i,
{
    if i < end {
        assert(src[i] != '\n' && src[i] != '\r');
        lemma_line_end_of_comment(src, i + 1, end);
    }
}

/// Comment transparency. A comment, with the line break that ends it, that is
/// inserted between forms, at any depth, does not change the values that are
/// read: where `p` lies between forms, the source with the comment inserted at
/// `p` gives the same values from `i` on as the source itself.
///
/// This holds unless the comment is put directly behind a symbol or a
/// keyword, where the symbol would go on into what was meant as a comment
/// (`;` may stand in a symbol), or last in a collection, where the closing
/// delimiter would be read as a form of its own.
pub proof fn law_comment_transparent(src: Seq<char>, i: int, p: int, comment: Seq<char>)
    requires
        0 <= i <= p <= src.len(),
        between_forms(src, i, p, true),
        is_comment_line(comment),
    ensures
        read_all(with_inserted(src, p, comment), i) == read_all(src, i),
{
    let out = with_inserted(src, p, comment);
    lemma_inserted(src, p, comment);
    assert(out[p + 0] == comment[0]);
    let end = p + comment.len() - 1;
    assert(out[p + (comment.len() - 1)] == comment[comment.len() - 1]);
    assert forall|k: int| p + 1 <= k < end implies #[trigger] out[k] != '\n' && out[k]
        != '\r' by {
        assert(out[p + (k - p)] == comment[k - p]);
    }
    lemma_line_end_of_comment(out, p + 1, end);
    assert(comment_end(out, p) == p + comment.len());
    lemma_put_in_read_all(src, out, p, comment.len() as int, true, i);
}

/// Discard equivalence. Where `#_` stands at `i` and a form is read behind it,
/// the values that are read from `i` on are the values that are read from
/// behind that form on, and they are the values that the rest of the source
/// behind that form gives when it stands alone.
pub proof fn law_discard_equivalent(src: Seq<char>, i: int)
    requires
        0 <= i,
        char_at_is(src, i, '#'),
        char_at_is(src, i + 1, '_'),
        read_one(src, i + 2).result is Ok,
        read_one(src, i + 2).result->Ok_0 is Some,
    ensures
        read_one(src, i) == read_one(src, read_one(src, i + 2).pos),
        read_all(src, i) == read_all(src, read_one(src, i + 2).pos),
        read_all(src, i) == read_all(
            src.subrange(read_one(src, i + 2).pos, src.len() as int),
            0,
        ),
{
    lemma_read_one_advances(src, i + 2);
    let behind = read_one(src, i + 2).pos;
    assert(read_one(src, i) == read_discard(src, i));
    lemma_read_one_advances(src, behind);
    let rest = src.subrange(behind, src.len() as int);
    assert(aligned(rest, src, behind, 0));
    lemma_shift_read_all(rest, src, behind, 0);
}

/// The outcome of reading `'form` or `@form`, given the outcome `inner` of
/// reading the form alone: the list `(name form)`, one position further on,
/// from the position of the `'` or `@` on.
pub open spec fn sugared(name: Seq<char>, inner: Outcome<SpanForm>) -> Outcome<SpanForm> {
    Outcome {
        result: match inner.result {
            Ok(Some(form)) => Ok(
                Some(WithSpan { span: (0, form.span.1 + 1), data: wrapped(name, form.data) }),
            ),
            Ok(None) => Err(Fault::InvalidInput((0, 0))),
            Err(fault) => Err(shift_fault(fault, 1)),
        },
        pos: inner.pos + 1,
    }
}

/// Quote sugar. Reading `'E` gives the list `(quote E')`, where `E'` is what
/// reading `E` alone gives; reading `@E` gives `(deref E')`. The span runs
/// from the `'` or `@` to the end of `E`. Where reading `E` fails, so does
/// reading `'E`; where `E` holds no form, `'E` is invalid.
pub proof fn law_quote_sugar(form: Seq<char>)
    ensures
        read_one(seq!['\''] + form, 0) == sugared("quote"@, read_one(form, 0)),
        read_one(seq!['@'] + form, 0) == sugared("deref"@, read_one(form, 0)),
{
    let quoted = seq!['\''] + form;
    assert(aligned(form, quoted, 1, 0));
    lemma_shift_read_one(form, quoted, 1, 0);
    assert(read_one(quoted, 0) == read_wrapped(quoted, 0, "quote"@));
    let dereferenced = seq!['@'] + form;
    assert(aligned(form, dereferenced, 1, 0));
    lemma_shift_read_one(form, dereferenced, 1, 0);
    assert(read_one(dereferenced, 0) == read_wrapped(dereferenced, 0, "deref"@));
}

} // verus!

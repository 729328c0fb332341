//! Putting whitespace or a comment into a source, between forms at any depth:
//! the forms read are the same, only further on.

use vstd::prelude::*;
use crate::grammar::{
    char_at_is, comment_end, data_of, is_closer, is_whitespace_char, pair_data_of, read_discard,
    read_items, read_keyword, read_list, read_map, read_namespaced_map, read_one, read_pairs,
    read_set, read_vect, read_wrapped, skip_whitespace, Outcome, SpanForm,
};
use crate::locality::{
    agree, aligned, breaks_alike, ends_in_symbol, lemma_agree_at, lemma_agree_bounds,
    lemma_agree_earlier, lemma_shift_char_at, lemma_shift_read_one, lemma_shift_skip_whitespace,
    lemma_stable_keyword, lemma_stable_line_end, lemma_stable_read_one,
    lemma_stable_skip_whitespace,
};
use crate::progress::{
    lemma_comment_end, lemma_line_end, lemma_read_items_advances, lemma_read_keyword_tiles,
    lemma_read_one_advances, lemma_read_one_past_whitespace, lemma_read_pairs_advances,
    lemma_skip_past_whitespace, lemma_skip_whitespace,
};

verus! {

/// Where the character at `x` stands once `n` characters are put in at `p`.
pub open spec fn moved(x: int, p: int, n: int) -> int {
    if x < p {
        x
    } else {
        x + n
    }
}

/// Where a cursor at `x` stands once `n` characters are put in at `p`: a
/// cursor at `p` itself stays before what is put in.
pub open spec fn moved_cursor(x: int, p: int, n: int) -> int {
    if x <= p {
        x
    } else {
        x + n
    }
}

/// That a form is read from both sources, with the same value, at
/// corresponding places: `there` is the outcome in the source into which `n`
/// characters were put at `p`, `here` the outcome in the source as it was.
pub open spec fn read_alike(there: Outcome<SpanForm>, here: Outcome<SpanForm>, p: int, n: int)
    -> bool {
    &&& here.result matches Ok(Some(form))
    &&& there.result matches Ok(Some(same))
    &&& same.data == form.data
    &&& same.span == (moved(form.span.0, p, n), moved(form.span.1, p, n))
    &&& there.pos == moved_cursor(here.pos, p, n)
}

/// [`read_alike`], for the items of a collection.
pub open spec fn items_alike(
    there: Outcome<(Seq<SpanForm>, int)>,
    here: Outcome<(Seq<SpanForm>, int)>,
    p: int,
    n: int,
) -> bool {
    &&& here.result matches Ok(Some((forms, close)))
    &&& there.result matches Ok(Some((same, same_close)))
    &&& data_of(same) == data_of(forms)
    &&& same_close == moved(close, p, n)
    &&& there.pos == moved_cursor(here.pos, p, n)
}

/// [`read_alike`], for the pairs of a map.
pub open spec fn pairs_alike(
    there: Outcome<(Seq<(SpanForm, SpanForm)>, int)>,
    here: Outcome<(Seq<(SpanForm, SpanForm)>, int)>,
    p: int,
    n: int,
) -> bool {
    &&& here.result matches Ok(Some((pairs, close)))
    &&& there.result matches Ok(Some((same, same_close)))
    &&& pair_data_of(same) == pair_data_of(pairs)
    &&& same_close == moved(close, p, n)
    &&& there.pos == moved_cursor(here.pos, p, n)
}

/// That `there` is `here` with `n` characters put in at `p`, which the reader
/// passes over: whitespace, or with `closed` a comment with the line break
/// that ends it.
pub open spec fn put_in(here: Seq<char>, there: Seq<char>, p: int, n: int, closed: bool) -> bool {
    &&& 0 <= p <= here.len()
    &&& 0 <= n
    &&& agree(here, there, p)
    &&& aligned(here, there, n, p)
    &&& if closed {
        n >= 2 && there[p] == ';' && comment_end(there, p) == p + n
    } else {
        forall|k: int| p <= k < p + n ==> is_whitespace_char(#[trigger] there[k])
    }
}

proof fn lemma_push_data(acc: Seq<SpanForm>, same: Seq<SpanForm>, form: SpanForm, other: SpanForm)
    requires
        data_of(same) == data_of(acc),
        other.data == form.data,
    ensures
        data_of(same.push(other)) == data_of(acc.push(form)),
        same.len() == acc.len(),
{
    assert(same.len() == data_of(same).len());
    assert(acc.len() == data_of(acc).len());
    let left = data_of(same.push(other));
    let right = data_of(acc.push(form));
    assert(left.len() == right.len());
    assert forall|k: int| 0 <= k < left.len() implies left[k] == right[k] by {
        if k < acc.len() {
            assert(same.push(other)[k] == same[k]);
            assert(acc.push(form)[k] == acc[k]);
            assert(data_of(same)[k] == same[k].data);
            assert(data_of(acc)[k] == acc[k].data);
        } else {
            assert(same.push(other)[k] == other);
            assert(acc.push(form)[k] == form);
        }
    }
    assert(left =~= right);
}

proof fn lemma_push_pair_data(
    acc: Seq<(SpanForm, SpanForm)>,
    same: Seq<(SpanForm, SpanForm)>,
    pair: (SpanForm, SpanForm),
    other: (SpanForm, SpanForm),
)
    requires
        pair_data_of(same) == pair_data_of(acc),
        other.0.data == pair.0.data,
        other.1.data == pair.1.data,
    ensures
        pair_data_of(same.push(other)) == pair_data_of(acc.push(pair)),
{
    assert(same.len() == pair_data_of(same).len());
    assert(acc.len() == pair_data_of(acc).len());
    assert forall|k: int| 0 <= k < acc.len() + 1 implies pair_data_of(same.push(other))[k]
        == pair_data_of(acc.push(pair))[k] by {
        if k < acc.len() {
            assert(pair_data_of(same)[k] == pair_data_of(acc)[k]);
            assert(same.push(other)[k] == same[k]);
            assert(acc.push(pair)[k] == acc[k]);
        } else {
            assert(same.push(other)[k] == other);
            assert(acc.push(pair)[k] == pair);
        }
    }
    assert(pair_data_of(same.push(other)) =~= pair_data_of(acc.push(pair)));
}

/// Behind the place where characters were put in, the items of a collection
/// are read as before, further on, whatever was read before them.
proof fn lemma_items_behind(
    a: Seq<char>,
    b: Seq<char>,
    by: int,
    i: int,
    open: int,
    other_open: int,
    closer: char,
    acc: Seq<SpanForm>,
    same: Seq<SpanForm>,
    p: int,
)
    requires
        aligned(a, b, by, i),
        0 <= by,
        0 <= open < i,
        p <= i,
        data_of(same) == data_of(acc),
        read_items(a, i, open, closer, acc).result is Ok,
    ensures
        items_alike(
            read_items(b, i + by, other_open, closer, same),
            read_items(a, i, open, closer, acc),
            p,
            by,
        ),
        read_items(a, i, open, closer, acc).pos > i,
    decreases a.len() - i,
{
    lemma_read_items_advances(a, i, open, closer, acc);
    lemma_shift_skip_whitespace(a, b, by, i);
    let at = skip_whitespace(a, i);
    if at < a.len() {
        assert(a[at] == b[at + by]);
        if a[at] != closer {
            lemma_shift_read_one(a, b, by, at);
            lemma_read_one_advances(a, at);
            let item = read_one(a, at);
            if let Ok(Some(form)) = item.result {
                let other = read_one(b, at + by).result->Ok_0->Some_0;
                lemma_push_data(acc, same, form, other);
                lemma_items_behind(
                    a,
                    b,
                    by,
                    item.pos,
                    open,
                    other_open,
                    closer,
                    acc.push(form),
                    same.push(other),
                    p,
                );
            }
        }
    }
}

/// Behind the place where characters were put in, the pairs of a map are read
/// as before, further on, whatever was read before them.
proof fn lemma_pairs_behind(
    a: Seq<char>,
    b: Seq<char>,
    by: int,
    i: int,
    open: int,
    other_open: int,
    acc: Seq<(SpanForm, SpanForm)>,
    same: Seq<(SpanForm, SpanForm)>,
    p: int,
)
    requires
        aligned(a, b, by, i),
        0 <= by,
        0 <= open < i,
        p <= i,
        pair_data_of(same) == pair_data_of(acc),
        read_pairs(a, i, open, acc).result is Ok,
    ensures
        pairs_alike(read_pairs(b, i + by, other_open, same), read_pairs(a, i, open, acc), p, by),
        read_pairs(a, i, open, acc).pos > i,
    decreases a.len() - i,
{
    lemma_read_pairs_advances(a, i, open, acc);
    lemma_shift_skip_whitespace(a, b, by, i);
    let at = skip_whitespace(a, i);
    if at < a.len() {
        assert(a[at] == b[at + by]);
        if a[at] != '}' {
            lemma_shift_read_one(a, b, by, at);
            lemma_read_one_advances(a, at);
            let key = read_one(a, at);
            if let Ok(Some(k)) = key.result {
                lemma_shift_skip_whitespace(a, b, by, key.pos);
                let then = skip_whitespace(a, key.pos);
                lemma_shift_char_at(a, b, by, i, then, '}');
                if !char_at_is(a, then, '}') {
                    lemma_shift_read_one(a, b, by, then);
                    lemma_read_one_advances(a, then);
                    let value = read_one(a, then);
                    if let Ok(Some(v)) = value.result {
                        let other_k = read_one(b, at + by).result->Ok_0->Some_0;
                        let other_v = read_one(b, then + by).result->Ok_0->Some_0;
                        lemma_push_pair_data(acc, same, (k, v), (other_k, other_v));
                        lemma_pairs_behind(
                            a,
                            b,
                            by,
                            value.pos,
                            open,
                            other_open,
                            acc.push((k, v)),
                            same.push((other_k, other_v)),
                            p,
                        );
                    }
                }
            }
        }
    }
}

/// That the form read at `at`, which ends at or before `p`, still ends there
/// when a comment is put in at `p`: it does not end in a symbol just before
/// `p`. Whitespace may follow any form.
pub open spec fn settled(src: Seq<char>, at: int, p: int, closed: bool) -> bool {
    !(closed && read_one(src, at).pos == p && ends_in_symbol(src, at))
}

/// That `p` lies between forms as far as the read at `i` goes: not inside a
/// symbol, a keyword, a string or a comment that is read or passed there, nor
/// between the characters that open a set, a discard or a map with a
/// namespace tag. With `closed`, what is put in at `p` is a comment, which
/// must not follow a symbol directly, nor stand last in a collection.
pub open spec fn free_at(src: Seq<char>, i: int, p: int, closed: bool) -> bool
    decreases src.len() - i, 2int,
{
    if p <= i {
        true
    } else if !(0 <= i < src.len()) {
        false
    } else if read_one(src, i).pos <= p {
        settled(src, i, p, closed)
    } else {
        let ch = src[i];
        if is_whitespace_char(ch) || ch == '\'' || ch == '@' {
            free_at(src, i + 1, p, closed)
        } else if ch == '(' {
            free_items(src, i + 1, ')', p, closed)
        } else if ch == '[' {
            free_items(src, i + 1, ']', p, closed)
        } else if ch == '{' {
            free_pairs(src, i + 1, p, closed)
        } else if ch == '#' && char_at_is(src, i + 1, '{') {
            i + 2 <= p && free_items(src, i + 2, '}', p, closed)
        } else if ch == '#' && char_at_is(src, i + 1, ':') {
            let tag = read_keyword(src, i + 1);
            tag.result is Ok && i < tag.pos < p && tag.pos < src.len() && free_pairs(
                src,
                tag.pos + 1,
                p,
                closed,
            )
        } else if ch == '#' && char_at_is(src, i + 1, '_') {
            let dropped = read_one(src, i + 2);
            if !(i + 2 <= p) {
                false
            } else if dropped.result is Ok && dropped.result->Ok_0 is Some && i < dropped.pos
                <= p && dropped.pos <= src.len() {
                settled(src, i + 2, p, closed) && free_at(src, dropped.pos, p, closed)
            } else {
                free_at(src, i + 2, p, closed)
            }
        } else if ch == ';' {
            let next = comment_end(src, i);
            i < next <= p && free_at(src, next, p, closed)
        } else {
            false
        }
    }
}

/// [`free_at`], for the items of a collection that are read from `i` on.
pub open spec fn free_items(src: Seq<char>, i: int, closer: char, p: int, closed: bool) -> bool
    decreases src.len() - i, 3int,
{
    let at = skip_whitespace(src, i);
    if !(0 <= i <= at <= src.len()) {
        false
    } else if p <= at {
        closed ==> at < src.len() && src[at] != closer
    } else if at >= src.len() {
        false
    } else if src[at] == closer {
        true
    } else {
        let item = read_one(src, at);
        if !(item.result is Ok && item.result->Ok_0 is Some && at < item.pos <= src.len()) {
            false
        } else if item.pos <= p {
            settled(src, at, p, closed) && free_items(src, item.pos, closer, p, closed)
        } else {
            free_at(src, at, p, closed)
        }
    }
}

/// [`free_at`], for the pairs of a map that are read from `i` on.
pub open spec fn free_pairs(src: Seq<char>, i: int, p: int, closed: bool) -> bool
    decreases src.len() - i, 3int,
{
    let at = skip_whitespace(src, i);
    if !(0 <= i <= at <= src.len()) {
        false
    } else if p <= at {
        closed ==> at < src.len() && src[at] != '}'
    } else if at >= src.len() {
        false
    } else if src[at] == '}' {
        true
    } else {
        let key = read_one(src, at);
        let then = skip_whitespace(src, key.pos);
        if !(key.result is Ok && key.result->Ok_0 is Some && at < key.pos <= then <= src.len()) {
            false
        } else if key.pos > p {
            free_at(src, at, p, closed)
        } else if p <= then {
            settled(src, at, p, closed)
        } else {
            let value = read_one(src, then);
            if !(value.result is Ok && value.result->Ok_0 is Some && then < value.pos
                <= src.len()) {
                false
            } else if value.pos <= p {
                settled(src, at, p, closed) && settled(src, then, p, closed) && free_pairs(
                    src,
                    value.pos,
                    p,
                    closed,
                )
            } else {
                settled(src, at, p, closed) && free_at(src, then, p, closed)
            }
        }
    }
}

/// What holds of a source into which whitespace or a comment was put: the
/// reader passes over what was put in, and finds the rest where it was, or
/// further on.
pub proof fn lemma_put_in(here: Seq<char>, there: Seq<char>, p: int, n: int, closed: bool)
    requires
        put_in(here, there, p, n, closed),
    ensures
        there.len() == here.len() + n,
        read_one(there, p) == read_one(there, p + n),
        !closed ==> skip_whitespace(there, p) == skip_whitespace(there, p + n),
        closed ==> skip_whitespace(there, p) == p && p < there.len() && !is_closer(there[p]),
        !closed ==> breaks_alike(here, there, p),
        forall|q: int| 0 <= q < p ==> #[trigger] breaks_alike(here, there, q),
        forall|q: int| 0 <= q < p ==> here[q] == #[trigger] there[q],
        forall|q: int| p <= q <= here.len() ==> #[trigger] aligned(here, there, n, q),
{
    lemma_agree_bounds(here, there, p);
    if closed {
        assert(read_one(there, p) == read_one(there, comment_end(there, p)));
    } else {
        lemma_read_one_past_whitespace(there, p, p + n);
        lemma_skip_past_whitespace(there, p, p + n);
        if n > 0 {
            assert(is_whitespace_char(there[p]));
        } else if p < here.len() {
            assert(here[p] == there[p + n]);
        }
    }
    assert forall|q: int| 0 <= q < p implies #[trigger] breaks_alike(here, there, q) by {
        lemma_agree_at(here, there, p, q);
    }
    assert forall|q: int| 0 <= q < p implies here[q] == #[trigger] there[q] by {
        lemma_agree_at(here, there, p, q);
    }
}

/// Reading before the place where characters were put in gives what it gave.
proof fn lemma_one_before(
    here: Seq<char>,
    there: Seq<char>,
    p: int,
    n: int,
    closed: bool,
    at: int,
)
    requires
        put_in(here, there, p, n, closed),
        0 <= at,
        read_one(here, at).result is Ok,
        read_one(here, at).result->Ok_0 is Some,
        read_one(here, at).pos <= p,
        settled(here, at, p, closed),
    ensures
        read_one(there, at) == read_one(here, at),
        read_alike(read_one(there, at), read_one(here, at), p, n),
{
    lemma_put_in(here, there, p, n, closed);
    let pos = read_one(here, at).pos;
    if at <= here.len() {
        lemma_read_one_advances(here, at);
    }
    lemma_agree_earlier(here, there, p, pos);
    if pos < p {
        assert(breaks_alike(here, there, pos));
    }
    lemma_stable_read_one(here, there, pos, at);
}

/// Reading at or behind the place where characters were put in gives what it
/// gave, further on.
proof fn lemma_one_behind(
    here: Seq<char>,
    there: Seq<char>,
    p: int,
    n: int,
    closed: bool,
    at: int,
)
    requires
        put_in(here, there, p, n, closed),
        p <= at <= here.len(),
        read_one(here, at).result is Ok,
        read_one(here, at).result->Ok_0 is Some,
    ensures
        read_alike(read_one(there, at + n), read_one(here, at), p, n),
        read_one(here, at).pos > at,
{
    lemma_put_in(here, there, p, n, closed);
    assert(aligned(here, there, n, at));
    lemma_shift_read_one(here, there, n, at);
    lemma_read_one_advances(here, at);
}

/// Putting whitespace or a comment in between forms, at any depth, leaves the
/// form that is read as it was: the same value, with the positions behind
/// what was put in moved on.
pub proof fn lemma_put_in_read_one(
    here: Seq<char>,
    there: Seq<char>,
    p: int,
    n: int,
    closed: bool,
    i: int,
)
    requires
        put_in(here, there, p, n, closed),
        0 <= i <= p,
        free_at(here, i, p, closed),
        read_one(here, i).result is Ok,
        read_one(here, i).result->Ok_0 is Some,
    ensures
        read_alike(read_one(there, i), read_one(here, i), p, n),
    decreases here.len() - i, 2int,
{
    lemma_put_in(here, there, p, n, closed);
    lemma_read_one_advances(here, i);
    let out = read_one(here, i);
    if i == p {
        lemma_one_behind(here, there, p, n, closed, p);
    } else if out.pos <= p {
        lemma_one_before(here, there, p, n, closed, i);
    } else {
        let ch = here[i];
        assert(there[i] == ch);
        if i + 1 < p {
            assert(there[i + 1] == here[i + 1]);
        }
        if is_whitespace_char(ch) {
            lemma_put_in_read_one(here, there, p, n, closed, i + 1);
        } else if ch == '(' {
            assert(out == read_list(here, i));
            lemma_put_in_items(here, there, p, n, closed, i + 1, i, ')', Seq::empty());
            assert(read_one(there, i) == read_list(there, i));
        } else if ch == '[' {
            assert(out == read_vect(here, i));
            lemma_put_in_items(here, there, p, n, closed, i + 1, i, ']', Seq::empty());
            assert(read_one(there, i) == read_vect(there, i));
        } else if ch == '{' {
            lemma_put_in_map(here, there, p, n, closed, i);
        } else if ch == '\'' {
            assert(out == read_wrapped(here, i, "quote"@));
            lemma_put_in_read_one(here, there, p, n, closed, i + 1);
            assert(read_one(there, i) == read_wrapped(there, i, "quote"@));
        } else if ch == '@' {
            assert(out == read_wrapped(here, i, "deref"@));
            lemma_put_in_read_one(here, there, p, n, closed, i + 1);
            assert(read_one(there, i) == read_wrapped(there, i, "deref"@));
        } else if ch == '#' {
            lemma_put_in_hash(here, there, p, n, closed, i);
        } else if ch == ';' {
            let next = comment_end(here, i);
            lemma_comment_end(here, i);
            lemma_line_end(here, i + 1);
            lemma_read_one_advances(here, next);
            lemma_stable_line_end(here, there, p, i + 1);
            lemma_put_in_read_one(here, there, p, n, closed, next);
        } else {
        }
    }
}

proof fn lemma_put_in_hash(
    here: Seq<char>,
    there: Seq<char>,
    p: int,
    n: int,
    closed: bool,
    i: int,
)
    requires
        put_in(here, there, p, n, closed),
        0 <= i < p,
        i < here.len(),
        here[i] == '#',
        free_at(here, i, p, closed),
        read_one(here, i).result is Ok,
        read_one(here, i).result->Ok_0 is Some,
        read_one(here, i).pos > p,
    ensures
        read_alike(read_one(there, i), read_one(here, i), p, n),
    decreases here.len() - i, 1int,
{
    lemma_put_in(here, there, p, n, closed);
    let out = read_one(here, i);
    assert(there[i] == '#');
    if i + 1 < p {
        assert(there[i + 1] == here[i + 1]);
    }
    if char_at_is(here, i + 1, '{') {
        assert(out == read_set(here, i));
        lemma_put_in_items(here, there, p, n, closed, i + 2, i, '}', Seq::empty());
        assert(read_one(there, i) == read_set(there, i));
    } else if char_at_is(here, i + 1, ':') {
        assert(out == read_namespaced_map(here, i));
        let tag = read_keyword(here, i + 1);
        lemma_read_keyword_tiles(here, i + 1);
        lemma_agree_earlier(here, there, p, tag.pos);
        lemma_stable_keyword(here, there, tag.pos, i + 1);
        assert(there[tag.pos] == here[tag.pos]);
        lemma_put_in_map(here, there, p, n, closed, tag.pos);
        assert(read_one(there, i) == read_namespaced_map(there, i));
    } else if char_at_is(here, i + 1, '_') {
        assert(out == read_discard(here, i));
        let dropped = read_one(here, i + 2);
        lemma_read_one_advances(here, i + 2);
        lemma_read_one_advances(here, dropped.pos);
        if dropped.pos <= p {
            lemma_one_before(here, there, p, n, closed, i + 2);
            lemma_put_in_read_one(here, there, p, n, closed, dropped.pos);
        } else {
            lemma_put_in_read_one(here, there, p, n, closed, i + 2);
            lemma_one_behind(here, there, p, n, closed, dropped.pos);
        }
        assert(read_one(there, i) == read_discard(there, i));
    } else {
    }
}

proof fn lemma_put_in_map(
    here: Seq<char>,
    there: Seq<char>,
    p: int,
    n: int,
    closed: bool,
    i: int,
)
    requires
        put_in(here, there, p, n, closed),
        0 <= i < p,
        i < here.len(),
        here[i] == '{',
        free_pairs(here, i + 1, p, closed),
        read_map(here, i).result is Ok,
        read_map(here, i).result->Ok_0 is Some,
    ensures
        read_alike(read_map(there, i), read_map(here, i), p, n),
    decreases here.len() - i, 1int,
{
    lemma_put_in(here, there, p, n, closed);
    lemma_put_in_pairs(here, there, p, n, closed, i + 1, i, Seq::empty());
}

/// [`lemma_put_in_read_one`], for the items of a collection.
proof fn lemma_put_in_items(
    here: Seq<char>,
    there: Seq<char>,
    p: int,
    n: int,
    closed: bool,
    i: int,
    open: int,
    closer: char,
    acc: Seq<SpanForm>,
)
    requires
        put_in(here, there, p, n, closed),
        0 <= open < i <= p,
        is_closer(closer),
        free_items(here, i, closer, p, closed),
        read_items(here, i, open, closer, acc).result is Ok,
    ensures
        items_alike(
            read_items(there, i, open, closer, acc),
            read_items(here, i, open, closer, acc),
            p,
            n,
        ),
    decreases here.len() - i, 3int,
{
    lemma_put_in(here, there, p, n, closed);
    lemma_read_items_advances(here, i, open, closer, acc);
    lemma_skip_whitespace(here, i);
    let at = skip_whitespace(here, i);
    if p <= at {
        // what is put in stands in the whitespace before the next item
        assert forall|k: int| i <= k < p implies is_whitespace_char(#[trigger] there[k]) by {
            assert(there[k] == here[k]);
        }
        lemma_skip_past_whitespace(there, i, p);
        lemma_skip_past_whitespace(here, p, at);
        lemma_shift_skip_whitespace(here, there, n, p);
        assert(aligned(here, there, n, at));
        assert(there[at + n] == here[at]);
        assert forall|k: int| p + n <= k < at + n implies is_whitespace_char(
            #[trigger] there[k],
        ) by {
            assert(here[k - n] == there[k - n + n]);
        }
        lemma_read_one_past_whitespace(there, p + n, at + n);
        lemma_skip_past_whitespace(there, p + n, at + n);
        assert(skip_whitespace(here, at) == at);
        assert(skip_whitespace(there, at + n) == at + n);
        assert(read_items(here, at, open, closer, acc) == read_items(here, i, open, closer, acc));
        if closed {
            assert(skip_whitespace(there, i) == p);
            assert(read_one(there, p) == read_one(there, at + n));
            lemma_read_one_advances(there, at + n);
        } else {
            assert(skip_whitespace(there, i) == at + n);
        }
        assert(read_items(there, at + n, open, closer, acc) == read_items(
            there,
            i,
            open,
            closer,
            acc,
        ));
        lemma_items_behind(here, there, n, at, open, open, closer, acc, acc, p);
    } else {
        lemma_stable_skip_whitespace(here, there, p, i);
        assert(there[at] == here[at]);
        if here[at] != closer {
            lemma_read_one_advances(here, at);
            let item = read_one(here, at);
            let form = item.result->Ok_0->Some_0;
            lemma_read_items_advances(here, item.pos, open, closer, acc.push(form));
            if item.pos <= p {
                lemma_one_before(here, there, p, n, closed, at);
                lemma_put_in_items(here, there, p, n, closed, item.pos, open, closer, acc.push(form));
            } else {
                lemma_put_in_read_one(here, there, p, n, closed, at);
                let other = read_one(there, at).result->Ok_0->Some_0;
                lemma_push_data(acc, acc, form, other);
                assert(aligned(here, there, n, item.pos));
                lemma_items_behind(
                    here,
                    there,
                    n,
                    item.pos,
                    open,
                    open,
                    closer,
                    acc.push(form),
                    acc.push(other),
                    p,
                );
            }
        }
    }
}

/// [`lemma_put_in_read_one`], for the pairs of a map.
#[verifier::rlimit(100)]
proof fn lemma_put_in_pairs(
    here: Seq<char>,
    there: Seq<char>,
    p: int,
    n: int,
    closed: bool,
    i: int,
    open: int,
    acc: Seq<(SpanForm, SpanForm)>,
)
    requires
        put_in(here, there, p, n, closed),
        0 <= open < i <= p,
        free_pairs(here, i, p, closed),
        read_pairs(here, i, open, acc).result is Ok,
    ensures
        pairs_alike(read_pairs(there, i, open, acc), read_pairs(here, i, open, acc), p, n),
    decreases here.len() - i, 3int,
{
    lemma_put_in(here, there, p, n, closed);
    lemma_read_pairs_advances(here, i, open, acc);
    lemma_skip_whitespace(here, i);
    let at = skip_whitespace(here, i);
    if p <= at {
        // what is put in stands in the whitespace before the next key
        assert forall|k: int| i <= k < p implies is_whitespace_char(#[trigger] there[k]) by {
            assert(there[k] == here[k]);
        }
        lemma_skip_past_whitespace(there, i, p);
        lemma_skip_past_whitespace(here, p, at);
        lemma_shift_skip_whitespace(here, there, n, p);
        assert(aligned(here, there, n, at));
        assert(there[at + n] == here[at]);
        assert forall|k: int| p + n <= k < at + n implies is_whitespace_char(
            #[trigger] there[k],
        ) by {
            assert(here[k - n] == there[k - n + n]);
        }
        lemma_read_one_past_whitespace(there, p + n, at + n);
        lemma_skip_past_whitespace(there, p + n, at + n);
        assert(skip_whitespace(here, at) == at);
        assert(skip_whitespace(there, at + n) == at + n);
        assert(read_pairs(here, at, open, acc) == read_pairs(here, i, open, acc));
        if closed {
            assert(skip_whitespace(there, i) == p);
            assert(read_one(there, p) == read_one(there, at + n));
            lemma_read_one_advances(there, at + n);
            let key = read_one(there, p);
            if key.result is Ok && key.result->Ok_0 is Some {
                lemma_skip_whitespace(there, key.pos);
                lemma_read_one_advances(there, skip_whitespace(there, key.pos));
            }
        } else {
            assert(skip_whitespace(there, i) == at + n);
        }
        assert(read_pairs(there, at + n, open, acc) == read_pairs(there, i, open, acc));
        lemma_pairs_behind(here, there, n, at, open, open, acc, acc, p);
    } else {
        lemma_stable_skip_whitespace(here, there, p, i);
        assert(there[at] == here[at]);
        if here[at] != '}' {
            lemma_read_one_advances(here, at);
            let key = read_one(here, at);
            let k = key.result->Ok_0->Some_0;
            lemma_skip_whitespace(here, key.pos);
            let then = skip_whitespace(here, key.pos);
            lemma_read_one_advances(here, then);
            let value = read_one(here, then);
            let v = value.result->Ok_0->Some_0;
            lemma_read_pairs_advances(here, value.pos, open, acc.push((k, v)));
            if key.pos > p {
                lemma_put_in_read_one(here, there, p, n, closed, at);
                let other_k = read_one(there, at).result->Ok_0->Some_0;
                assert(aligned(here, there, n, key.pos));
                lemma_shift_skip_whitespace(here, there, n, key.pos);
                lemma_shift_char_at(here, there, n, key.pos, then, '}');
                lemma_one_behind(here, there, p, n, closed, then);
                let other_v = read_one(there, then + n).result->Ok_0->Some_0;
                lemma_push_pair_data(acc, acc, (k, v), (other_k, other_v));
                assert(aligned(here, there, n, value.pos));
                lemma_pairs_behind(
                    here,
                    there,
                    n,
                    value.pos,
                    open,
                    open,
                    acc.push((k, v)),
                    acc.push((other_k, other_v)),
                    p,
                );
            } else {
                lemma_one_before(here, there, p, n, closed, at);
                if p <= then {
                    // what is put in stands between the key and its value
                    assert forall|j: int| key.pos <= j < p implies is_whitespace_char(
                        #[trigger] there[j],
                    ) by {
                        assert(there[j] == here[j]);
                    }
                    lemma_skip_past_whitespace(there, key.pos, p);
                    lemma_skip_past_whitespace(here, p, then);
                    lemma_shift_skip_whitespace(here, there, n, p);
                    assert(aligned(here, there, n, then));
                    assert(there[then + n] == here[then]);
                    assert forall|j: int| p + n <= j < then + n implies is_whitespace_char(
                        #[trigger] there[j],
                    ) by {
                        assert(here[j - n] == there[j - n + n]);
                    }
                    lemma_read_one_past_whitespace(there, p + n, then + n);
                    lemma_one_behind(here, there, p, n, closed, then);
                    let other_v = read_one(there, then + n).result->Ok_0->Some_0;
                    lemma_push_pair_data(acc, acc, (k, v), (k, other_v));
                    assert(aligned(here, there, n, value.pos));
                    lemma_pairs_behind(
                        here,
                        there,
                        n,
                        value.pos,
                        open,
                        open,
                        acc.push((k, v)),
                        acc.push((k, other_v)),
                        p,
                    );
                } else {
                    lemma_stable_skip_whitespace(here, there, p, key.pos);
                    assert(there[then] == here[then]);
                    if value.pos <= p {
                        lemma_one_before(here, there, p, n, closed, then);
                        lemma_put_in_pairs(
                            here,
                            there,
                            p,
                            n,
                            closed,
                            value.pos,
                            open,
                            acc.push((k, v)),
                        );
                    } else {
                        lemma_put_in_read_one(here, there, p, n, closed, then);
                        let other_v = read_one(there, then).result->Ok_0->Some_0;
                        lemma_push_pair_data(acc, acc, (k, v), (k, other_v));
                        assert(aligned(here, there, n, value.pos));
                        lemma_pairs_behind(
                            here,
                            there,
                            n,
                            value.pos,
                            open,
                            open,
                            acc.push((k, v)),
                            acc.push((k, other_v)),
                            p,
                        );
                    }
                }
            }
        }
    }
}

} // verus!

//! The reader: a cursor over the characters of a source string, and the
//! reading of forms from it.

use vstd::prelude::*;
use vstd::slice::*;
use vstd::string::*;
use crate::grammar::{
    char_at_is, closing_quote, comment_end, data_of, fault_in_bytes, has_leading_slash, in_bytes,
    is_symbol_char, is_whitespace_char, last_position, line_end, pair_data_of, read_discard,
    read_items, read_keyword, read_list, read_map, read_namespaced_map, read_one, read_pairs,
    read_set, read_string, read_symbol, read_symbol_part, read_vect, read_wrapped, skip_whitespace,
    symbol_form, symbol_part_end, symbol_value, Outcome, Span, SpanForm,
};
use crate::progress::{
    lemma_comment_end, lemma_read_keyword_tiles, lemma_read_one_advances,
    lemma_read_one_skips_whitespace, lemma_read_symbol_part_tiles, lemma_skip_whitespace,
};
use crate::keyword::Keyword;
use crate::offsets::{
    byte_offset, char_width, lemma_byte_offset_bounded, lemma_byte_offset_step,
};
use crate::symbol::Symbol;
use crate::text::push_char;
use crate::value::{views, pair_views, Value, ValuePtr, ValueView};
use crate::{ByteIndexSpan, ReadError, ReadResult, SpanValue, WithSpan};

verus! {

type ByteIdx = usize;

type SrcIdx = usize;

/// A cursor over the characters of a non-empty source string. It knows, for
/// each character, the byte offset at which the character begins.
#[derive(Debug)]
pub struct CharReader<'i> {
    _src: &'i str,
    src: Vec<(ByteIdx, char)>,
    src_idx: SrcIdx,
}

/// The mathematical value of a [`CharReader`]: the characters of the source,
/// and the position of the cursor among them (the length of the source once
/// the cursor has passed the last character).
pub struct CursorView {
    pub chars: Seq<char>,
    pub pos: int,
}

impl CursorView {
    /// The byte offset and the character at position `p`, if there is one.
    pub open spec fn entry(self, p: int) -> Option<(ByteIdx, char)> {
        if 0 <= p < self.chars.len() {
            Some((byte_offset(self.chars, p) as usize, self.chars[p]))
        } else {
            None
        }
    }

    /// The same source with the cursor at `p`.
    pub open spec fn moved_to(self, p: int) -> CursorView {
        CursorView { chars: self.chars, pos: p }
    }
}

impl<'i> View for CharReader<'i> {
    type V = CursorView;

    closed spec fn view(&self) -> CursorView {
        CursorView { chars: self._src@, pos: self.src_idx as int }
    }
}

impl<'i> CharReader<'i> {
    #[verifier::type_invariant]
    spec fn well_formed(self) -> bool {
        &&& self.src@.len() >= 1
        &&& self.src@.len() == self._src@.len()
        &&& self.src_idx <= self.src@.len()
        &&& forall|k: int|
            0 <= k < self.src@.len() ==> (#[trigger] self.src@[k]).1 == self._src@[k]
                && self.src@[k].0 == byte_offset(self._src@, k)
    }

    /// Every byte offset of a well-formed reader fits in a `usize`.
    proof fn lemma_offsets_fit(self)
        requires
            self.well_formed(),
        ensures
            self@.chars.len() >= 1,
            0 <= self@.pos <= self@.chars.len(),
            forall|p: int|
                0 <= p < self@.chars.len() ==> #[trigger] byte_offset(self@.chars, p)
                    <= usize::MAX,
    {
        assert forall|p: int| 0 <= p < self@.chars.len() implies #[trigger] byte_offset(
            self@.chars,
            p,
        ) <= usize::MAX by {
            assert(self.src@[p].0 == byte_offset(self._src@, p));
        }
    }

    /// Opens a reader on `s`, with the cursor on its first character. There is
    /// no reader for the empty string.
    pub fn try_from_str(s: &'i str) -> (r: Option<Self>)
        ensures
            r is Some <==> s@.len() > 0,
            r matches Some(rdr) ==> rdr@ == (CursorView { chars: s@, pos: 0 }),
    {
        // the length in bytes, which no byte offset exceeds
        let total: usize = s.as_bytes().len();
        let mut src: Vec<(ByteIdx, char)> = Vec::new();
        let mut offset: usize = 0;
        for ch in it: s.chars()
            invariant
                it.seq() == s@,
                total == vstd::utf8::encode_utf8(s@).len(),
                src@.len() == it.index(),
                offset == byte_offset(s@, it.index() as int),
                forall|k: int|
                    0 <= k < src@.len() ==> (#[trigger] src@[k]).1 == s@[k] && src@[k].0
                        == byte_offset(s@, k),
        {
            proof {
                lemma_byte_offset_step(s@, it.index() as int);
                lemma_byte_offset_bounded(s@, it.index() + 1);
            }
            src.push((offset, ch));
            offset = offset + char_width(ch);
        }
        if src.len() == 0 {
            None
        } else {
            Some(CharReader { _src: s, src, src_idx: 0 })
        }
    }

    /// Whether the cursor stands on the last character.
    pub fn is_at_end(&mut self) -> (b: bool)
        ensures
            *final(self) == *old(self),
            b == (old(self)@.pos == old(self)@.chars.len() - 1),
    {
        proof {
            use_type_invariant(&*self);
        }
        self.src_idx == self.src.len() - 1
    }

    /// Whether the cursor has passed the last character.
    pub fn is_beyond_end(&mut self) -> (b: bool)
        ensures
            *final(self) == *old(self),
            b == (old(self)@.pos >= old(self)@.chars.len()),
            0 <= old(self)@.pos <= old(self)@.chars.len(),
            old(self)@.chars.len() >= 1,
    {
        proof {
            use_type_invariant(&*self);
        }
        self.src_idx > self.src.len() - 1
    }

    /// The byte offset and the character at position `src_idx`.
    pub fn at(&mut self, src_idx: SrcIdx) -> (r: Option<(ByteIdx, char)>)
        ensures
            *final(self) == *old(self),
            r == old(self)@.entry(src_idx as int),
    {
        proof {
            use_type_invariant(&*self);
        }
        if src_idx < self.src.len() {
            Some(self.src[src_idx])
        } else {
            None
        }
    }

    /// The byte offset at position `src_idx`.
    pub fn byte_idx_at(&mut self, src_idx: SrcIdx) -> (r: Option<ByteIdx>)
        ensures
            *final(self) == *old(self),
            r == match old(self)@.entry(src_idx as int) {
                Some(e) => Some(e.0),
                None => None,
            },
    {
        match self.at(src_idx) {
            Some((byte_idx, _)) => Some(byte_idx),
            None => None,
        }
    }

    /// The byte offset and the character under the cursor.
    pub fn current(&mut self) -> (r: Option<(ByteIdx, char)>)
        ensures
            *final(self) == *old(self),
            r == old(self)@.entry(old(self)@.pos),
    {
        let idx: SrcIdx = self.src_idx;
        self.at(idx)
    }

    /// The byte offset under the cursor.
    pub fn current_byte_idx(&mut self) -> (r: Option<ByteIdx>)
        ensures
            *final(self) == *old(self),
            r == match old(self)@.entry(old(self)@.pos) {
                Some(e) => Some(e.0),
                None => None,
            },
    {
        match self.current() {
            Some((byte_idx, _)) => Some(byte_idx),
            None => None,
        }
    }

    /// The character under the cursor.
    pub fn current_char(&mut self) -> (r: Option<char>)
        ensures
            *final(self) == *old(self),
            r == match old(self)@.entry(old(self)@.pos) {
                Some(e) => Some(e.1),
                None => None,
            },
    {
        match self.current() {
            Some((_, ch)) => Some(ch),
            None => None,
        }
    }

    /// Whether the character under the cursor is `eq`.
    pub fn current_char_eq(&mut self, eq: char) -> (b: bool)
        ensures
            *final(self) == *old(self),
            b == char_at_is(old(self)@.chars, old(self)@.pos, eq),
    {
        proof {
            use_type_invariant(&*self);
            self.lemma_offsets_fit();
        }
        match self.current_char() {
            Some(ch) => ch == eq,
            None => false,
        }
    }

    /// Moves the cursor one character on, unless it has passed the last one.
    pub fn advance(&mut self)
        ensures
            final(self)@ == old(self)@.moved_to(
                if old(self)@.pos < old(self)@.chars.len() {
                    old(self)@.pos + 1
                } else {
                    old(self)@.pos
                },
            ),
    {
        proof {
            use_type_invariant(&*self);
        }
        if self.src_idx < self.src.len() {
            self.src_idx += 1;
        }
    }

    /// The byte offset and the character behind the cursor.
    pub fn peek(&mut self) -> (r: Option<(ByteIdx, char)>)
        ensures
            *final(self) == *old(self),
            r == old(self)@.entry(old(self)@.pos + 1),
    {
        proof {
            use_type_invariant(&*self);
        }
        let idx: SrcIdx = self.src_idx;
        if idx < self.src.len() {
            self.at(idx + 1)
        } else {
            None
        }
    }

    /// The byte offset behind the cursor.
    pub fn peek_byte_idx(&mut self) -> (r: Option<ByteIdx>)
        ensures
            *final(self) == *old(self),
            r == match old(self)@.entry(old(self)@.pos + 1) {
                Some(e) => Some(e.0),
                None => None,
            },
    {
        match self.peek() {
            Some((byte_idx, _)) => Some(byte_idx),
            None => None,
        }
    }

    /// The character behind the cursor.
    pub fn peek_char(&mut self) -> (r: Option<char>)
        ensures
            *final(self) == *old(self),
            r == match old(self)@.entry(old(self)@.pos + 1) {
                Some(e) => Some(e.1),
                None => None,
            },
    {
        match self.peek() {
            Some((_, ch)) => Some(ch),
            None => None,
        }
    }

    /// Whether the character behind the cursor is `eq`.
    pub fn peek_char_eq(&mut self, eq: char) -> (b: bool)
        ensures
            *final(self) == *old(self),
            b == char_at_is(old(self)@.chars, old(self)@.pos + 1, eq),
    {
        proof {
            use_type_invariant(&*self);
            self.lemma_offsets_fit();
        }
        match self.peek_char() {
            Some(ch) => ch == eq,
            None => false,
        }
    }

    /// Moves the cursor to the first character, at or after it, that is not
    /// whitespace.
    pub fn skip_whitespaces(&mut self)
        ensures
            final(self)@ == old(self)@.moved_to(skip_whitespace(old(self)@.chars, old(self)@.pos)),
    {
        proof {
            use_type_invariant(&*self);
            self.lemma_offsets_fit();
        }
        loop
            invariant
                self@.chars == old(self)@.chars,
                0 <= self@.pos <= self@.chars.len(),
                skip_whitespace(self@.chars, self@.pos) == skip_whitespace(
                    old(self)@.chars,
                    old(self)@.pos,
                ),
            ensures
                self@ == old(self)@.moved_to(skip_whitespace(old(self)@.chars, old(self)@.pos)),
            decreases self@.chars.len() - self@.pos,
        {
            match self.current() {
                Some((_, ch)) => {
                    if !is_whitespace(ch) {
                        break ;
                    }
                },
                None => {
                    break ;
                },
            }
            self.advance();
        }
    }
}

/// Whether `ch` is whitespace for the reader: Unicode whitespace, or a comma.
pub fn is_whitespace(ch: char) -> (b: bool)
    ensures
        b == is_whitespace_char(ch),
{
    let v: u32 = ch as u32;
    (0x09 <= v && v <= 0x0D) || v == 0x20 || v == 0x85 || v == 0xA0 || v == 0x1680 || (0x2000 <= v
        && v <= 0x200A) || v == 0x2028 || v == 0x2029 || v == 0x202F || v == 0x205F || v == 0x3000
        || ch == ','
}

/// Whether a symbol may begin with `ch`.
pub fn is_symbol_begin_char(ch: char) -> (b: bool)
    ensures
        b == is_symbol_char(ch),
{
    !is_whitespace(ch) && match ch {
        '(' | ')' | '{' | '}' | '[' | ']' => false,
        _ => true,
    }
}

/// Whether a symbol may go on with `ch`.
pub fn is_symbol_continue_char(ch: char) -> (b: bool)
    ensures
        b == is_symbol_char(ch),
{
    !is_whitespace(ch) && match ch {
        '(' | ')' | '{' | '}' | '[' | ']' => false,
        _ => true,
    }
}

/// What a read gave, with each value taken by its mathematical value.
pub open spec fn read_view(r: ReadResult) -> Result<
    Option<WithSpan<ByteIndexSpan, ValueView>>,
    ReadError,
> {
    match r {
        Ok(Some(sv)) => Ok(Some(WithSpan { span: sv.span, data: sv.data@ })),
        Ok(None) => Ok(None),
        Err(e) => Err(e),
    }
}

/// What the read of a symbol part gave, with the text taken as characters.
pub open spec fn part_view(r: Result<Option<WithSpan<ByteIndexSpan, String>>, ReadError>) -> Result<
    Option<WithSpan<ByteIndexSpan, Seq<char>>>,
    ReadError,
> {
    match r {
        Ok(Some(part)) => Ok(Some(WithSpan { span: part.span, data: part.data@ })),
        Ok(None) => Ok(None),
        Err(e) => Err(e),
    }
}

/// That a read went as the grammar says: from the cursor `before` it gave
/// `got` and left the cursor `after`, where `out` is the outcome that the
/// grammar defines for `before`, its spans turned into byte offsets.
pub open spec fn follows<T>(
    before: CursorView,
    after: CursorView,
    got: Result<Option<WithSpan<ByteIndexSpan, T>>, ReadError>,
    out: Outcome<WithSpan<Span, T>>,
) -> bool {
    after == before.moved_to(out.pos) && got == in_bytes(before.chars, out.result)
}

/// Reads one symbol part under the cursor: the run of symbol characters up to
/// the next `/`, where the first character may itself be `/`. Gives `Ok(None)`
/// and leaves the cursor where it is if no symbol character stands under it.
pub fn try_read_symbol_part<'i>(rdr: &mut CharReader<'i>) -> (r: Result<
    Option<WithSpan<ByteIndexSpan, String>>,
    ReadError,
>)
    ensures
        follows(
            old(rdr)@,
            final(rdr)@,
            part_view(r),
            read_symbol_part(old(rdr)@.chars, old(rdr)@.pos),
        ),
{
    proof {
        use_type_invariant(&*rdr);
        rdr.lemma_offsets_fit();
    }
    let ghost chars = rdr@.chars;
    let ghost start = rdr@.pos;
    let (begin_byte_idx, first_ch) = match rdr.current() {
        Some(entry) => entry,
        None => {
            return Ok(None);
        },
    };
    if !is_symbol_begin_char(first_ch) {
        return Ok(None);
    }
    let mut end_byte_idx = begin_byte_idx;
    let mut buf = String::new();
    push_char(&mut buf, first_ch);
    rdr.advance();
    assert(buf@ =~= chars.subrange(start, start + 1));
    loop
        invariant
            rdr@.chars == chars,
            0 <= start < rdr@.pos <= chars.len(),
            symbol_part_end(chars, rdr@.pos) == symbol_part_end(chars, start + 1),
            buf@ == chars.subrange(start, rdr@.pos),
            end_byte_idx == byte_offset(chars, rdr@.pos - 1),
        ensures
            rdr@ == (CursorView { chars, pos: symbol_part_end(chars, start + 1) }),
            start < rdr@.pos,
            buf@ == chars.subrange(start, rdr@.pos),
            end_byte_idx == byte_offset(chars, rdr@.pos - 1),
        decreases chars.len() - rdr@.pos,
    {
        proof {
            use_type_invariant(&*rdr);
            rdr.lemma_offsets_fit();
        }
        match rdr.current() {
            Some((ch_byte_idx, ch)) => {
                if ch == '/' || !is_symbol_continue_char(ch) {
                    break ;
                }
                push_char(&mut buf, ch);
                end_byte_idx = ch_byte_idx;
                assert(chars.subrange(start, rdr@.pos).push(ch) =~= chars.subrange(
                    start,
                    rdr@.pos + 1,
                ));
                rdr.advance();
            },
            None => {
                break ;
            },
        }
    }
    Ok(Some(WithSpan { data: buf, span: (begin_byte_idx, end_byte_idx) }))
}

/// Whether `part` is a `/` with more behind it.
fn starts_with_extra_slash(part: &String) -> (b: bool)
    ensures
        b == has_leading_slash(part@),
{
    let text = part.as_str();
    text.unicode_len() >= 2 && text.get_char(0) == '/'
}

/// The value that a symbol stands for: `nil`, `true` and `false` are atoms of
/// their own.
fn symbol_to_value(symbol: Symbol) -> (v: Value)
    ensures
        v@ == symbol_value(symbol@),
{
    match symbol {
        Symbol::Unqualified { name } => {
            if name == String::from_str("nil") {
                Value::Nil
            } else if name == String::from_str("true") {
                Value::Bool(true)
            } else if name == String::from_str("false") {
                Value::Bool(false)
            } else {
                Value::Symbol(Symbol::Unqualified { name })
            }
        },
        other => Value::Symbol(other),
    }
}

// readers of the forms that hold no other form
impl<'i> CharReader<'i> {
    /// The byte offset of the last character of the source.
    fn last_byte_idx(&self) -> (idx: ByteIdx)
        ensures
            idx == byte_offset(self@.chars, last_position(self@.chars)),
    {
        proof {
            use_type_invariant(self);
        }
        self.src[self.src.len() - 1].0
    }

    /// Reads the comment that begins under the cursor, up to and including the
    /// line break that ends it. A comment gives no value.
    pub fn try_read_comment(&mut self) -> (r: ReadResult)
        requires
            char_at_is(old(self)@.chars, old(self)@.pos, ';'),
        ensures
            r == Ok::<Option<SpanValue>, ReadError>(None),
            final(self)@ == old(self)@.moved_to(comment_end(old(self)@.chars, old(self)@.pos)),
    {
        proof {
            use_type_invariant(&*self);
        }
        let ghost chars = self@.chars;
        let ghost start = self@.pos;
        self.advance();  // move beyond beginning ';'
        loop
            invariant_except_break
                self@.chars == chars,
                0 <= start < self@.pos <= chars.len(),
                line_end(chars, self@.pos) == line_end(chars, start + 1),
            ensures
                self@ == (CursorView { chars, pos: comment_end(chars, start) }),
            decreases chars.len() - self@.pos,
        {
            match self.current_char() {
                Some(ch) => {
                    if ch == '\n' || ch == '\r' {
                        self.advance();
                        break ;
                    }
                    self.advance();
                },
                None => {
                    break ;
                },
            }
        }
        Ok(None)
    }

    /// Reads the symbol under the cursor: `name`, or `namespace/name`.
    ///
    /// A part that is a `/` with more behind it is invalid, and so is a `/`
    /// that ends the source. Gives `Ok(None)` where no symbol character stands
    /// under the cursor, or behind the `/` of a qualified symbol.
    pub fn try_read_symbol(&mut self) -> (r: ReadResult)
        ensures
            follows(
                old(self)@,
                final(self)@,
                read_view(r),
                symbol_form(read_symbol(old(self)@.chars, old(self)@.pos)),
            ),
    {
        proof {
            use_type_invariant(&*self);
            self.lemma_offsets_fit();
            lemma_read_symbol_part_tiles(self@.chars, self@.pos);
        }
        let ghost chars = self@.chars;
        let ghost start = self@.pos;
        let WithSpan { span: part1_span, data: part1_buf } = match try_read_symbol_part(self) {
            Ok(Some(part1)) => part1,
            Ok(None) => {
                return Ok(None);
            },
            Err(e) => {
                return Err(e);
            },
        };
        if starts_with_extra_slash(&part1_buf) {
            return Err(ReadError::invalid_input(part1_span));
        }
        let is_qualified = self.current_char_eq('/');
        if is_qualified {
            if self.is_at_end() {
                let slash_byte_idx = match self.current_byte_idx() {
                    Some(idx) => idx,
                    None => vstd::pervasive::unreached(),
                };
                return Err(ReadError::invalid_input((part1_span.0, slash_byte_idx)));
            }
            self.advance();  // beyond '/'
            proof {
                lemma_read_symbol_part_tiles(chars, self@.pos);
            }
            let WithSpan { span: part2_span, data: part2_buf } = match try_read_symbol_part(self) {
                Ok(Some(part2)) => part2,
                Ok(None) => {
                    return Ok(None);
                },
                Err(e) => {
                    return Err(e);
                },
            };
            if starts_with_extra_slash(&part2_buf) {
                return Err(ReadError::invalid_input(part2_span));
            }
            Ok(
                Some(
                    WithSpan {
                        data: Value::Symbol(Symbol::qualified(part1_buf, part2_buf)),
                        span: (part1_span.0, part2_span.1),
                    },
                ),
            )
        } else {
            Ok(
                Some(
                    WithSpan { data: Value::Symbol(Symbol::unqualified(part1_buf)), span: part1_span },
                ),
            )
        }
    }

    /// Reads the keyword whose first colon stands under the cursor: one colon
    /// or two, then a symbol. A colon with no symbol behind it is invalid.
    pub fn try_read_keyword(&mut self) -> (r: ReadResult)
        requires
            char_at_is(old(self)@.chars, old(self)@.pos, ':'),
        ensures
            follows(
                old(self)@,
                final(self)@,
                read_view(r),
                read_keyword(old(self)@.chars, old(self)@.pos),
            ),
    {
        proof {
            use_type_invariant(&*self);
            self.lemma_offsets_fit();
        }
        let first_colon_byte_idx = match self.current_byte_idx() {
            Some(idx) => idx,
            None => vstd::pervasive::unreached(),
        };
        self.advance();
        let double_colon = self.current_char_eq(':');
        if double_colon {
            self.advance();
        }
        let WithSpan { data: symbol, span: symbol_span } = match self.try_read_symbol() {
            Ok(Some(sv)) => sv,
            Ok(None) => {
                return Err(
                    ReadError::invalid_input((first_colon_byte_idx, first_colon_byte_idx)),
                );
            },
            Err(e) => {
                return Err(e);
            },
        };
        let symbol = match symbol {
            Value::Symbol(sym) => sym,
            _ => {
                return Err(
                    ReadError::invalid_input((first_colon_byte_idx, first_colon_byte_idx)),
                );
            },
        };
        let keyword = match symbol {
            Symbol::Unqualified { name } => if double_colon {
                Keyword::self_qualified(name)
            } else {
                Keyword::unqualified(name)
            },
            Symbol::Qualified { namespace, name } => if double_colon {
                Keyword::alias_qualified(namespace, name)
            } else {
                Keyword::qualified(namespace, name)
            },
        };
        Ok(
            Some(
                WithSpan {
                    data: Value::Keyword(keyword),
                    span: (first_colon_byte_idx, symbol_span.1),
                },
            ),
        )
    }

    /// Reads the string whose opening quote stands under the cursor. The value
    /// holds the text between the quotes as it stands; the input is
    /// insufficient if no closing quote follows.
    pub fn try_read_string(&mut self) -> (r: ReadResult)
        requires
            char_at_is(old(self)@.chars, old(self)@.pos, '"'),
        ensures
            follows(
                old(self)@,
                final(self)@,
                read_view(r),
                read_string(old(self)@.chars, old(self)@.pos),
            ),
    {
        proof {
            use_type_invariant(&*self);
            self.lemma_offsets_fit();
        }
        let ghost chars = self@.chars;
        let ghost start = self@.pos;
        let str_begin_byte_idx = match self.current_byte_idx() {
            Some(idx) => idx,
            None => vstd::pervasive::unreached(),
        };
        let mut str_end_byte_idx: Option<ByteIdx> = None;
        let mut buf = String::new();
        self.advance();  // move beyond beginning '"'
        assert(buf@ =~= chars.subrange(start + 1, start + 1));
        loop
            invariant_except_break
                self@.chars == chars,
                0 <= start < self@.pos <= chars.len(),
                closing_quote(chars, self@.pos) == closing_quote(chars, start + 1),
                buf@ == chars.subrange(start + 1, self@.pos),
                str_end_byte_idx is None,
            ensures
                self@ == (CursorView { chars, pos: closing_quote(chars, start + 1) }),
                start < self@.pos <= chars.len(),
                buf@ == chars.subrange(start + 1, self@.pos),
                str_end_byte_idx is Some <==> self@.pos < chars.len(),
                str_end_byte_idx matches Some(idx) ==> idx == byte_offset(chars, self@.pos),
            decreases chars.len() - self@.pos,
        {
            proof {
                use_type_invariant(&*self);
                self.lemma_offsets_fit();
            }
            match self.current() {
                Some((byte_idx, ch)) => {
                    if ch == '"' {
                        str_end_byte_idx = Some(byte_idx);
                        break ;
                    }
                    push_char(&mut buf, ch);
                    assert(chars.subrange(start + 1, self@.pos).push(ch) =~= chars.subrange(
                        start + 1,
                        self@.pos + 1,
                    ));
                    self.advance();
                },
                None => {
                    break ;
                },
            }
        }
        match str_end_byte_idx {
            Some(str_end_byte_idx) => {
                self.advance();  // move beyond ending '"'
                Ok(
                    Some(
                        WithSpan {
                            data: Value::Str(buf),
                            span: (str_begin_byte_idx, str_end_byte_idx),
                        },
                    ),
                )
            },
            None => Err(
                ReadError::insufficient_input((str_begin_byte_idx, self.last_byte_idx())),
            ),
        }
    }
}

/// That the items of a collection were read as the grammar says: `got` holds
/// the values of the forms, in order, and the byte offset of the closing
/// delimiter.
pub open spec fn items_follow(
    before: CursorView,
    after: CursorView,
    got: Result<(Vec<ValuePtr>, ByteIdx), ReadError>,
    out: Outcome<(Seq<SpanForm>, int)>,
) -> bool {
    &&& after == before.moved_to(out.pos)
    &&& match got {
        Ok((ptrs, close_byte_idx)) => {
            &&& out.result matches Ok(Some((forms, close)))
            &&& views(ptrs@) == data_of(forms)
            &&& close_byte_idx == byte_offset(before.chars, close)
        },
        Err(e) => out.result matches Err(fault) && e == fault_in_bytes(before.chars, fault),
    }
}

/// That the pairs of a map were read as the grammar says: `got` holds the
/// values of the keys and values, in order, and the byte offset of the closing
/// delimiter.
pub open spec fn pairs_follow(
    before: CursorView,
    after: CursorView,
    got: Result<(Vec<(ValuePtr, ValuePtr)>, ByteIdx), ReadError>,
    out: Outcome<(Seq<(SpanForm, SpanForm)>, int)>,
) -> bool {
    &&& after == before.moved_to(out.pos)
    &&& match got {
        Ok((ptrs, close_byte_idx)) => {
            &&& out.result matches Ok(Some((kvs, close)))
            &&& pair_views(ptrs@) == pair_data_of(kvs)
            &&& close_byte_idx == byte_offset(before.chars, close)
        },
        Err(e) => out.result matches Err(fault) && e == fault_in_bytes(before.chars, fault),
    }
}

// readers of forms that hold other forms
impl<'i> CharReader<'i> {
    /// Reads one form, passing over whitespace, comments and discarded forms
    /// before it, and leaves the cursor behind it. Gives `Ok(None)` where the
    /// source ends before a form begins.
    pub fn try_read_one(&mut self) -> (r: ReadResult)
        ensures
            follows(
                old(self)@,
                final(self)@,
                read_view(r),
                read_one(old(self)@.chars, old(self)@.pos),
            ),
        decreases old(self)@.chars.len() - old(self)@.pos, 2int,
    {
        proof {
            use_type_invariant(&*self);
        }
        let ghost chars = self@.chars;
        let ghost start = self@.pos;
        loop
            invariant
                chars == old(self)@.chars,
                start == old(self)@.pos,
                self@.chars == chars,
                0 <= start <= self@.pos <= chars.len(),
                read_one(chars, self@.pos) == read_one(chars, start),
            decreases chars.len() - self@.pos,
        {
            proof {
                use_type_invariant(&*self);
                self.lemma_offsets_fit();
            }
            let ghost here = self@.pos;
            let (byte_idx, ch) = match self.current() {
                Some(entry) => entry,
                None => {
                    return Ok(None);
                },
            };
            if is_whitespace(ch) {
                self.advance();
            } else if ch == ')' || ch == ']' || ch == '}' {
                self.advance();
                return Err(ReadError::unclosed_collection((byte_idx, byte_idx)));
            } else if ch == '(' {
                return self.try_read_list();
            } else if ch == '[' {
                return self.try_read_vect();
            } else if ch == '{' {
                return self.try_read_map();
            } else if ch == '\'' {
                return self.read_wrapped("quote");
            } else if ch == '@' {
                return self.read_wrapped("deref");
            } else if ch == '#' && self.peek_char_eq('{') {
                return self.try_read_set();
            } else if ch == '#' && self.peek_char_eq(':') {
                return self.read_namespaced_map();
            } else if ch == '#' && self.peek_char_eq('_') {
                self.advance();  // move beyond '#'
                self.advance();  // move beyond '_'
                self.skip_whitespaces();
                proof {
                    lemma_skip_whitespace(chars, here + 2);
                    lemma_read_one_skips_whitespace(chars, here + 2);
                    lemma_read_one_advances(chars, here + 2);
                    assert(read_one(chars, here) == read_discard(chars, here));
                }
                match self.try_read_one() {
                    Ok(Some(_)) => {},
                    Ok(None) => {
                        return Err(ReadError::invalid_input((byte_idx, self.last_byte_idx())));
                    },
                    Err(ReadError::UnclosedCollection(byte_range)) => {
                        return Err(ReadError::unclosed_collection((byte_idx, byte_range.1)));
                    },
                    Err(e) => {
                        return Err(e);
                    },
                }
                proof {
                    lemma_skip_whitespace(chars, self@.pos);
                    lemma_read_one_skips_whitespace(chars, self@.pos);
                }
                self.skip_whitespaces();
            } else if ch == ':' {
                return self.try_read_keyword();
            } else if ch == '"' {
                return self.try_read_string();
            } else if ch == ';' {
                proof {
                    lemma_comment_end(chars, here);
                }
                let _ = self.try_read_comment();
            } else {
                return match self.try_read_symbol() {
                    Ok(Some(WithSpan { data: Value::Symbol(symbol), span })) => Ok(
                        Some(WithSpan { span, data: symbol_to_value(symbol) }),
                    ),
                    Ok(_) => Err(ReadError::invalid_input((byte_idx, byte_idx))),
                    Err(e) => Err(e),
                };
            }
        }
    }

    /// Reads `'form` or `@form`, whose first character stands under the
    /// cursor, as the list `(name form)`.
    fn read_wrapped(&mut self, name: &str) -> (r: ReadResult)
        requires
            0 <= old(self)@.pos < old(self)@.chars.len(),
        ensures
            follows(
                old(self)@,
                final(self)@,
                read_view(r),
                read_wrapped(old(self)@.chars, old(self)@.pos, name@),
            ),
        decreases old(self)@.chars.len() - old(self)@.pos, 1int,
    {
        proof {
            use_type_invariant(&*self);
            self.lemma_offsets_fit();
        }
        let byte_idx = match self.current_byte_idx() {
            Some(idx) => idx,
            None => vstd::pervasive::unreached(),
        };
        self.advance();
        match self.try_read_one() {
            Ok(Some(WithSpan { data: inner, span: (_, inner_span_end) })) => {
                let head = Value::Symbol(Symbol::unqualified(String::from_str(name)));
                let ghost items = seq![head@, inner@];
                let ptrs = vec![Box::new(head), Box::new(inner)];
                let data = Value::list_from_value_ptrs(ptrs);
                assert(views(ptrs@) =~= items);
                Ok(Some(WithSpan { data, span: (byte_idx, inner_span_end) }))
            },
            Ok(None) => Err(ReadError::invalid_input((byte_idx, byte_idx))),
            Err(e) => Err(e),
        }
    }

    /// Reads forms up to the closing delimiter `closer` and moves beyond it.
    /// The opening delimiter stands at `open`, at the byte `begin_byte_idx`.
    fn read_items_until(
        &mut self,
        begin_byte_idx: ByteIdx,
        Ghost(open): Ghost<int>,
        closer: char,
    ) -> (r: Result<(Vec<ValuePtr>, ByteIdx), ReadError>)
        requires
            0 <= open < old(self)@.pos,
            begin_byte_idx == byte_offset(old(self)@.chars, open),
        ensures
            items_follow(
                old(self)@,
                final(self)@,
                r,
                read_items(old(self)@.chars, old(self)@.pos, open, closer, Seq::empty()),
            ),
        decreases old(self)@.chars.len() - old(self)@.pos, 3int,
    {
        proof {
            use_type_invariant(&*self);
        }
        let ghost chars = self@.chars;
        let ghost start = self@.pos;
        let ghost mut acc = Seq::<SpanForm>::empty();
        let mut ptrs: Vec<ValuePtr> = Vec::new();
        assert(views(ptrs@) =~= data_of(acc));
        loop
            invariant
                chars == old(self)@.chars,
                start == old(self)@.pos,
                self@.chars == chars,
                0 <= open < start <= self@.pos <= chars.len(),
                begin_byte_idx == byte_offset(chars, open),
                read_items(chars, self@.pos, open, closer, acc) == read_items(
                    chars,
                    start,
                    open,
                    closer,
                    Seq::empty(),
                ),
                views(ptrs@) == data_of(acc),
            decreases chars.len() - self@.pos,
        {
            proof {
                use_type_invariant(&*self);
                self.lemma_offsets_fit();
                lemma_skip_whitespace(chars, self@.pos);
            }
            self.skip_whitespaces();
            match self.current() {
                Some((byte_idx, ch)) => {
                    if ch == closer {
                        self.advance();  // move beyond the closing delimiter
                        return Ok((ptrs, byte_idx));
                    }
                },
                None => {
                    return Err(
                        ReadError::insufficient_input((begin_byte_idx, self.last_byte_idx())),
                    );
                },
            }
            proof {
                lemma_read_one_advances(chars, self@.pos);
            }
            let ghost form = read_one(chars, self@.pos).result->Ok_0->Some_0;
            let ghost before = ptrs@;
            match self.try_read_one() {
                Ok(Some(WithSpan { data: value, .. })) => {
                    ptrs.push(Box::new(value));
                    proof {
                        assert(views(before).len() == data_of(acc).len());
                        assert(ptrs@.len() == before.len() + 1);
                        assert forall|k: int| 0 <= k < ptrs@.len() implies views(ptrs@)[k]
                            == data_of(acc.push(form))[k] by {
                            if k < before.len() {
                                assert(views(before)[k] == data_of(acc)[k]);
                            }
                        }
                        assert(views(ptrs@) =~= data_of(acc.push(form)));
                        acc = acc.push(form);
                    }
                },
                Ok(None) => {
                    return Err(
                        ReadError::insufficient_input((begin_byte_idx, self.last_byte_idx())),
                    );
                },
                Err(e) => {
                    return Err(e);
                },
            }
        }
    }

    /// Reads the list whose `(` stands under the cursor.
    pub fn try_read_list(&mut self) -> (r: ReadResult)
        requires
            char_at_is(old(self)@.chars, old(self)@.pos, '('),
        ensures
            follows(
                old(self)@,
                final(self)@,
                read_view(r),
                read_list(old(self)@.chars, old(self)@.pos),
            ),
        decreases old(self)@.chars.len() - old(self)@.pos, 1int,
    {
        proof {
            use_type_invariant(&*self);
            self.lemma_offsets_fit();
        }
        let ghost open = self@.pos;
        let list_begin_byte_idx = match self.current_byte_idx() {
            Some(idx) => idx,
            None => vstd::pervasive::unreached(),
        };
        self.advance();  // move beyond '('
        match self.read_items_until(list_begin_byte_idx, Ghost(open), ')') {
            Ok((value_ptrs, byte_idx)) => Ok(
                Some(
                    WithSpan {
                        span: (list_begin_byte_idx, byte_idx),
                        data: Value::list_from_value_ptrs(value_ptrs),
                    },
                ),
            ),
            Err(e) => Err(e),
        }
    }

    /// Reads the vector whose `[` stands under the cursor.
    pub fn try_read_vect(&mut self) -> (r: ReadResult)
        requires
            char_at_is(old(self)@.chars, old(self)@.pos, '['),
        ensures
            follows(
                old(self)@,
                final(self)@,
                read_view(r),
                read_vect(old(self)@.chars, old(self)@.pos),
            ),
        decreases old(self)@.chars.len() - old(self)@.pos, 1int,
    {
        proof {
            use_type_invariant(&*self);
            self.lemma_offsets_fit();
        }
        let ghost open = self@.pos;
        let vect_begin_byte_idx = match self.current_byte_idx() {
            Some(idx) => idx,
            None => vstd::pervasive::unreached(),
        };
        self.advance();  // move beyond '['
        match self.read_items_until(vect_begin_byte_idx, Ghost(open), ']') {
            Ok((value_ptrs, byte_idx)) => Ok(
                Some(
                    WithSpan {
                        span: (vect_begin_byte_idx, byte_idx),
                        data: Value::vect_from_value_ptrs(value_ptrs),
                    },
                ),
            ),
            Err(e) => Err(e),
        }
    }

    /// Reads the set whose `#` stands under the cursor, with `{` behind it.
    pub fn try_read_set(&mut self) -> (r: ReadResult)
        requires
            char_at_is(old(self)@.chars, old(self)@.pos, '#'),
            char_at_is(old(self)@.chars, old(self)@.pos + 1, '{'),
        ensures
            follows(
                old(self)@,
                final(self)@,
                read_view(r),
                read_set(old(self)@.chars, old(self)@.pos),
            ),
        decreases old(self)@.chars.len() - old(self)@.pos, 1int,
    {
        proof {
            use_type_invariant(&*self);
            self.lemma_offsets_fit();
        }
        let ghost open = self@.pos;
        let set_begin_byte_idx = match self.current_byte_idx() {
            Some(idx) => idx,
            None => vstd::pervasive::unreached(),
        };
        self.advance();  // move beyond '#'
        self.advance();  // move beyond '{'
        match self.read_items_until(set_begin_byte_idx, Ghost(open), '}') {
            Ok((value_ptrs, byte_idx)) => Ok(
                Some(
                    WithSpan {
                        span: (set_begin_byte_idx, byte_idx),
                        data: Value::set_from_value_ptrs(value_ptrs),
                    },
                ),
            ),
            Err(e) => Err(e),
        }
    }

    /// Reads key-value pairs up to the closing `}` and moves beyond it. The
    /// opening delimiter stands at `open`, at the byte `begin_byte_idx`.
    fn read_pairs_until(&mut self, begin_byte_idx: ByteIdx, Ghost(open): Ghost<int>) -> (r: Result<
        (Vec<(ValuePtr, ValuePtr)>, ByteIdx),
        ReadError,
    >)
        requires
            0 <= open < old(self)@.pos,
            begin_byte_idx == byte_offset(old(self)@.chars, open),
        ensures
            pairs_follow(
                old(self)@,
                final(self)@,
                r,
                read_pairs(old(self)@.chars, old(self)@.pos, open, Seq::empty()),
            ),
        decreases old(self)@.chars.len() - old(self)@.pos, 3int,
    {
        proof {
            use_type_invariant(&*self);
        }
        let ghost chars = self@.chars;
        let ghost start = self@.pos;
        let ghost mut acc = Seq::<(SpanForm, SpanForm)>::empty();
        let mut value_ptr_pairs: Vec<(ValuePtr, ValuePtr)> = Vec::new();
        assert(pair_views(value_ptr_pairs@) =~= pair_data_of(acc));
        loop
            invariant
                chars == old(self)@.chars,
                start == old(self)@.pos,
                self@.chars == chars,
                0 <= open < start <= self@.pos <= chars.len(),
                begin_byte_idx == byte_offset(chars, open),
                read_pairs(chars, self@.pos, open, acc) == read_pairs(
                    chars,
                    start,
                    open,
                    Seq::empty(),
                ),
                pair_views(value_ptr_pairs@) == pair_data_of(acc),
            decreases chars.len() - self@.pos,
        {
            proof {
                use_type_invariant(&*self);
                self.lemma_offsets_fit();
                lemma_skip_whitespace(chars, self@.pos);
            }
            self.skip_whitespaces();
            match self.current() {
                Some((byte_idx, ch)) => {
                    if ch == '}' {
                        self.advance();  // move beyond '}'
                        return Ok((value_ptr_pairs, byte_idx));
                    }
                },
                None => {
                    return Err(
                        ReadError::insufficient_input((begin_byte_idx, self.last_byte_idx())),
                    );
                },
            }
            proof {
                lemma_read_one_advances(chars, self@.pos);
            }
            let ghost k = read_one(chars, self@.pos).result->Ok_0->Some_0;
            let key = match self.try_read_one() {
                Ok(Some(WithSpan { data: key, .. })) => key,
                Ok(None) => {
                    return Err(
                        ReadError::insufficient_input((begin_byte_idx, self.last_byte_idx())),
                    );
                },
                Err(e) => {
                    return Err(e);
                },
            };
            proof {
                use_type_invariant(&*self);
                self.lemma_offsets_fit();
                lemma_skip_whitespace(chars, self@.pos);
            }
            self.skip_whitespaces();
            match self.current() {
                Some((byte_idx, ch)) => {
                    if ch == '}' {
                        self.advance();  // move beyond '}'
                        // a key without a value
                        return Err(ReadError::insufficient_input((begin_byte_idx, byte_idx)));
                    }
                },
                None => {},
            }
            proof {
                lemma_read_one_advances(chars, self@.pos);
            }
            let ghost v = read_one(chars, self@.pos).result->Ok_0->Some_0;
            let value = match self.try_read_one() {
                Ok(Some(WithSpan { data: value, .. })) => value,
                Ok(None) => {
                    return Err(
                        ReadError::insufficient_input((begin_byte_idx, self.last_byte_idx())),
                    );
                },
                Err(e) => {
                    return Err(e);
                },
            };
            let ghost before = value_ptr_pairs@;
            value_ptr_pairs.push((Box::new(key), Box::new(value)));
            proof {
                assert(pair_views(before).len() == pair_data_of(acc).len());
                assert(value_ptr_pairs@.len() == before.len() + 1);
                assert forall|j: int| 0 <= j < value_ptr_pairs@.len() implies pair_views(
                    value_ptr_pairs@,
                )[j] == pair_data_of(acc.push((k, v)))[j] by {
                    if j < before.len() {
                        assert(pair_views(before)[j] == pair_data_of(acc)[j]);
                    }
                }
                assert(pair_views(value_ptr_pairs@) =~= pair_data_of(acc.push((k, v))));
                acc = acc.push((k, v));
            }
        }
    }

    /// Reads the map whose `{` stands under the cursor. A key without a value
    /// leaves the input insufficient.
    pub fn try_read_map(&mut self) -> (r: ReadResult)
        requires
            char_at_is(old(self)@.chars, old(self)@.pos, '{'),
        ensures
            follows(
                old(self)@,
                final(self)@,
                read_view(r),
                read_map(old(self)@.chars, old(self)@.pos),
            ),
        decreases old(self)@.chars.len() - old(self)@.pos, 1int,
    {
        proof {
            use_type_invariant(&*self);
            self.lemma_offsets_fit();
        }
        let ghost open = self@.pos;
        let map_begin_byte_idx = match self.current_byte_idx() {
            Some(idx) => idx,
            None => vstd::pervasive::unreached(),
        };
        self.advance();  // move beyond '{'
        match self.read_pairs_until(map_begin_byte_idx, Ghost(open)) {
            Ok((value_ptr_pairs, byte_idx)) => Ok(
                Some(
                    WithSpan {
                        span: (map_begin_byte_idx, byte_idx),
                        data: Value::map_from_value_ptr_pairs(value_ptr_pairs),
                    },
                ),
            ),
            Err(e) => Err(e),
        }
    }

    /// Reads the map with a namespace tag, `#:ns{ ... }`, whose `#` stands
    /// under the cursor. The tag is read and left aside.
    fn read_namespaced_map(&mut self) -> (r: ReadResult)
        requires
            char_at_is(old(self)@.chars, old(self)@.pos, '#'),
            char_at_is(old(self)@.chars, old(self)@.pos + 1, ':'),
        ensures
            follows(
                old(self)@,
                final(self)@,
                read_view(r),
                read_namespaced_map(old(self)@.chars, old(self)@.pos),
            ),
        decreases old(self)@.chars.len() - old(self)@.pos, 1int,
    {
        proof {
            use_type_invariant(&*self);
            self.lemma_offsets_fit();
            lemma_read_keyword_tiles(self@.chars, self@.pos + 1);
        }
        let byte_idx = match self.current_byte_idx() {
            Some(idx) => idx,
            None => vstd::pervasive::unreached(),
        };
        self.advance();  // move beyond '#'
        match self.try_read_keyword() {
            Ok(Some(_)) => {},
            Ok(None) => {
                return Err(ReadError::invalid_input((byte_idx, byte_idx)));
            },
            Err(e) => {
                return Err(e);
            },
        }
        proof {
            use_type_invariant(&*self);
            self.lemma_offsets_fit();
        }
        match self.current() {
            Some((here_byte_idx, ch)) => {
                if ch != '{' {
                    return Err(ReadError::invalid_input((byte_idx, here_byte_idx)));
                }
            },
            None => {
                return Err(ReadError::insufficient_input((byte_idx, self.last_byte_idx())));
            },
        }
        match self.try_read_map() {
            Ok(Some(WithSpan { data, span: (_, map_span_end) })) => Ok(
                Some(WithSpan { data, span: (byte_idx, map_span_end) }),
            ),
            Ok(None) => Ok(None),
            Err(e) => Err(e),
        }
    }
}

} // verus!

//! Reads the inside of one tag: a name, then attributes.
use crate::code::utils::text::{
    is_boundary, lemma_boundary_through_match, lemma_scalar_step, lemma_str_valid, next_char, slice, str_eq, width,
    SPACE,
};
use crate::tokenizer::{Token, TokenKind, TokenKindView, TokenView};
use vstd::prelude::*;
use vstd::string::StringSliceAdditionalSpecFns;
use vstd::utf8::valid_utf8;

verus! {

/// The byte of `=`.
pub const EQUALS: u8 = 0x3d;

/// The byte of `"`.
pub const DOUBLE_QUOTE: u8 = 0x22;

/// The byte of `'`.
pub const SINGLE_QUOTE: u8 = 0x27;

/// The name of a directive and its attributes, in the order written.
#[derive(Debug, PartialEq, Clone)]
pub struct Element<'a> {
    pub name: &'a str,
    pub attrs: Vec<Attribute<'a>>,
}

/// An attribute: a bare name, or a name with the value written after `=`.
#[derive(Debug, PartialEq, Clone, Copy)]
pub struct Attribute<'a> {
    pub name: &'a str,
    pub value: Option<&'a str>,
}

/// What an attribute stands for, its texts taken as bytes.
pub struct AttributeView {
    pub name: Seq<u8>,
    pub value: Option<Seq<u8>>,
}

/// What the opening tag of a directive stands for, its texts taken as bytes.
pub struct ElementView {
    pub name: Seq<u8>,
    pub attrs: Seq<AttributeView>,
}

impl<'a> View for Attribute<'a> {
    type V = AttributeView;

    open spec fn view(&self) -> AttributeView {
        AttributeView {
            name: self.name.spec_bytes(),
            value: match self.value {
                Some(v) => Some(v.spec_bytes()),
                None => None,
            },
        }
    }
}

/// The views of a run of attributes.
pub open spec fn attribute_views(attrs: Seq<Attribute>) -> Seq<AttributeView> {
    Seq::new(attrs.len(), |i: int| attrs[i]@)
}

impl<'a> View for Element<'a> {
    type V = ElementView;

    open spec fn view(&self) -> ElementView {
        ElementView { name: self.name.spec_bytes(), attrs: attribute_views(self.attrs@) }
    }
}

/// Where the reader stands inside a tag. A state that is part-way through a
/// name or a value holds the byte at which that began.
#[derive(Clone, Copy)]
pub enum ParseState {
    NameBegin,
    Name(usize),
    NameEnd,
    ValueBegin,
    ValueWithNoQuote(usize),
    ValueWithDoubleQuote(usize),
    ValueWithSingleQuote(usize),
    ParseError,
}

/// The end of the run of whole copies of `pattern` that starts at byte `from`
/// of `text`.
pub open spec fn trimmed_from(text: Seq<u8>, pattern: Seq<u8>, from: int) -> int
    decreases text.len() - from,
{
    if pattern.len() > 0 && 0 <= from && from + pattern.len() <= text.len() && text.subrange(
        from,
        from + pattern.len(),
    ) == pattern {
        trimmed_from(text, pattern, from + pattern.len())
    } else {
        from
    }
}

/// The start of the run of whole copies of `pattern` that ends at byte `to`
/// of `text` and does not reach back before byte `from`.
pub open spec fn trimmed_to(text: Seq<u8>, pattern: Seq<u8>, from: int, to: int) -> int
    decreases to,
{
    if pattern.len() > 0 && 0 <= from <= to - pattern.len() && to <= text.len() && text.subrange(
        to - pattern.len(),
        to,
    ) == pattern {
        trimmed_to(text, pattern, from, to - pattern.len())
    } else {
        to
    }
}

/// `pairs` with `value` given to the last of them.
pub open spec fn with_last_value(pairs: Seq<AttributeView>, value: Seq<u8>) -> Seq<AttributeView> {
    if pairs.len() > 0 {
        pairs.update(pairs.len() - 1, AttributeView { name: pairs.last().name, value: Some(value) })
    } else {
        pairs
    }
}

/// One step of the reader: the pairs and the state after the character that
/// starts at byte `pos` of `target`. The marks that the reader knows are
/// characters of one byte, so the first byte of a character tells all.
///
/// A name ends at a space or at `=`. After `=` a value in quotes runs to the
/// matching quote, and a value without quotes runs to the next space. Where a
/// name is due, `=` or a quote is an error.
pub open spec fn spec_step(
    target: Seq<u8>,
    pairs: Seq<AttributeView>,
    state: ParseState,
    pos: int,
) -> (Seq<AttributeView>, ParseState) {
    let c = target[pos];
    match state {
        ParseState::NameBegin => if c == SPACE {
            (pairs, state)
        } else if c == EQUALS || c == DOUBLE_QUOTE || c == SINGLE_QUOTE {
            (pairs, ParseState::ParseError)
        } else {
            (pairs, ParseState::Name(pos as usize))
        },
        ParseState::Name(start) => if c == SPACE {
            (
                pairs.push(AttributeView { name: target.subrange(start as int, pos), value: None }),
                ParseState::NameEnd,
            )
        } else if c == EQUALS {
            (
                pairs.push(AttributeView { name: target.subrange(start as int, pos), value: None }),
                ParseState::ValueBegin,
            )
        } else {
            (pairs, state)
        },
        ParseState::NameEnd => if c == SPACE {
            (pairs, state)
        } else if c == EQUALS {
            (pairs, ParseState::ValueBegin)
        } else {
            (pairs, ParseState::Name(pos as usize))
        },
        ParseState::ValueBegin => if c == SPACE {
            (pairs, state)
        } else if c == DOUBLE_QUOTE {
            (pairs, ParseState::ValueWithDoubleQuote((pos + 1) as usize))
        } else if c == SINGLE_QUOTE {
            (pairs, ParseState::ValueWithSingleQuote((pos + 1) as usize))
        } else {
            (pairs, ParseState::ValueWithNoQuote(pos as usize))
        },
        ParseState::ValueWithDoubleQuote(start) => if c == DOUBLE_QUOTE {
            (with_last_value(pairs, target.subrange(start as int, pos)), ParseState::NameBegin)
        } else {
            (pairs, state)
        },
        ParseState::ValueWithSingleQuote(start) => if c == SINGLE_QUOTE {
            (with_last_value(pairs, target.subrange(start as int, pos)), ParseState::NameBegin)
        } else {
            (pairs, state)
        },
        ParseState::ValueWithNoQuote(start) => if c == SPACE {
            (with_last_value(pairs, target.subrange(start as int, pos)), ParseState::NameBegin)
        } else {
            (pairs, state)
        },
        ParseState::ParseError => (pairs, state),
    }
}

/// The pairs and the state when the reader has gone, character by character,
/// from byte `pos` to the end of `target`.
pub open spec fn spec_run(
    target: Seq<u8>,
    pos: int,
    pairs: Seq<AttributeView>,
    state: ParseState,
) -> (Seq<AttributeView>, ParseState)
    decreases target.len() - pos,
{
    if pos < 0 || pos >= target.len() {
        (pairs, state)
    } else {
        let (next_pairs, next) = spec_step(target, pairs, state, pos);
        spec_run(target, next_char(target, pos), next_pairs, next)
    }
}

/// What is read inside `value` once the delimiters that bound it are taken
/// off: as many copies of the opening delimiter as stand at its start, then as
/// many copies of the closing delimiter as stand at its end.
pub open spec fn spec_target(value: Seq<u8>, delimiter_start: Seq<u8>, delimiter_end: Seq<u8>) -> Seq<u8> {
    let from = trimmed_from(value, delimiter_start, 0);
    let to = trimmed_to(value, delimiter_end, from, value.len() as int);
    value.subrange(from, to)
}

/// The pairs once the text has ended in `state`: a name under way ends with
/// the text, and so does a value without quotes.
pub open spec fn spec_finish(target: Seq<u8>, read: Seq<AttributeView>, state: ParseState) -> Seq<
    AttributeView,
> {
    match state {
        ParseState::Name(start) => read.push(
            AttributeView { name: target.subrange(start as int, target.len() as int), value: None },
        ),
        ParseState::ValueWithNoQuote(start) => with_last_value(
            read,
            target.subrange(start as int, target.len() as int),
        ),
        _ => read,
    }
}

/// The directive that the inside `target` of a tag spells: the first name is
/// the directive's, the names after it are its attributes. Nothing is spelled
/// where the reader met an error or found no name at all.
pub open spec fn spec_parse_target(target: Seq<u8>) -> Option<ElementView> {
    let (read, state) = spec_run(target, 0, Seq::empty(), ParseState::NameBegin);
    let pairs = spec_finish(target, read, state);
    if state is ParseError || pairs.len() == 0 {
        None
    } else {
        Some(ElementView { name: pairs[0].name, attrs: pairs.subrange(1, pairs.len() as int) })
    }
}

/// The directive that a token spells, if it is a tag and spells one.
pub open spec fn spec_parse(token: TokenView) -> Option<ElementView> {
    match token.kind {
        TokenKindView::Element { delimiter_start, delimiter_end } => spec_parse_target(
            spec_target(token.value, delimiter_start, delimiter_end),
        ),
        TokenKindView::Text => None,
    }
}

/// What the reader knows of its state before byte `pos`: a name or a value
/// under way began between two characters, and so does whatever comes next
/// where one may begin.
pub open spec fn state_fits(target: Seq<u8>, pairs: Seq<AttributeView>, state: ParseState, pos: int) -> bool {
    match state {
        ParseState::NameBegin => is_boundary(target, pos),
        ParseState::NameEnd => is_boundary(target, pos) && pairs.len() > 0,
        ParseState::ValueBegin => is_boundary(target, pos) && pairs.len() > 0,
        ParseState::Name(start) => start < pos && is_boundary(target, start as int),
        ParseState::ValueWithDoubleQuote(start) => start <= pos && is_boundary(target, start as int)
            && pairs.len() > 0,
        ParseState::ValueWithSingleQuote(start) => start <= pos && is_boundary(target, start as int)
            && pairs.len() > 0,
        ParseState::ValueWithNoQuote(start) => start < pos && is_boundary(target, start as int) && pairs.len()
            > 0,
        ParseState::ParseError => true,
    }
}

/// Whether `pattern` stands in `bytes` at byte `at`.
fn matches_at(bytes: &[u8], at: usize, pattern: &[u8]) -> (found: bool)
    requires
        at <= bytes@.len(),
    ensures
        found == (at + pattern@.len() <= bytes@.len() && bytes@.subrange(at as int, at + pattern@.len())
            == pattern@),
{
    if pattern.len() > bytes.len() - at {
        return false;
    }
    let mut k: usize = 0;
    while k < pattern.len()
        invariant
            at + pattern.len() <= bytes.len(),
            k <= pattern.len(),
            forall|t: int| 0 <= t < k ==> bytes@[at + t] == pattern@[t],
        decreases pattern.len() - k,
    {
        if bytes[at + k] != pattern[k] {
            assert(bytes@.subrange(at as int, at + pattern@.len())[k as int] != pattern@[k as int]);
            return false;
        }
        k += 1;
    }
    assert(bytes@.subrange(at as int, at + pattern@.len()) =~= pattern@);
    true
}

/// The inside of the tag `value`, its delimiters taken off.
fn strip_delimiters<'a>(value: &'a str, delimiter_start: &str, delimiter_end: &str) -> (target: &'a str)
    ensures
        target.spec_bytes() == spec_target(
            value.spec_bytes(),
            delimiter_start.spec_bytes(),
            delimiter_end.spec_bytes(),
        ),
{
    let bytes = value.as_bytes();
    let ds = delimiter_start.as_bytes();
    let de = delimiter_end.as_bytes();
    let ghost text = value.spec_bytes();
    proof {
        lemma_str_valid(value);
        lemma_str_valid(delimiter_start);
        lemma_str_valid(delimiter_end);
    }
    let mut from: usize = 0;
    loop
        invariant
            bytes@ == text,
            ds@ == delimiter_start.spec_bytes(),
            valid_utf8(text),
            valid_utf8(ds@),
            from <= bytes.len(),
            is_boundary(text, from as int),
            trimmed_from(text, ds@, from as int) == trimmed_from(text, ds@, 0),
        ensures
            from <= bytes.len(),
            is_boundary(text, from as int),
            from == trimmed_from(text, ds@, 0),
        decreases bytes.len() - from,
    {
        if ds.len() == 0 || !matches_at(bytes, from, ds) {
            break ;
        }
        proof {
            lemma_boundary_through_match(text, ds@, from as int, 0);
        }
        from += ds.len();
    }
    let mut to: usize = bytes.len();
    loop
        invariant
            bytes@ == text,
            de@ == delimiter_end.spec_bytes(),
            valid_utf8(text),
            valid_utf8(de@),
            from <= to <= bytes.len(),
            is_boundary(text, to as int),
            trimmed_to(text, de@, from as int, to as int) == trimmed_to(
                text,
                de@,
                from as int,
                text.len() as int,
            ),
        ensures
            from <= to <= bytes.len(),
            is_boundary(text, to as int),
            to == trimmed_to(text, de@, from as int, text.len() as int),
        decreases to,
    {
        if de.len() == 0 || to - from < de.len() || !matches_at(bytes, to - de.len(), de) {
            break ;
        }
        proof {
            lemma_scalar_step(de@, 0);
            assert(text.subrange(to - de@.len(), to as int)[0] == text[to - de@.len()]);
        }
        to -= de.len();
    }
    slice(value, from, to)
}

/// Reads the tag that `token` holds. The first name inside the delimiters is
/// the directive's name; each name after it is an attribute, with the value
/// that follows its `=`: in double or single quotes, or bare up to the next
/// space. A token of plain text, a
/// tag with `=` or a quote where a name is due, and a tag without any name
/// give nothing.
pub fn parse<'a>(token: &Token<'a, '_, '_>) -> (element: Option<Element<'a>>)
    ensures
        match element {
            Some(el) => spec_parse(token@) == Some(el@),
            None => spec_parse(token@) is None,
        },
{
    let delimiters = match token.kind {
        TokenKind::Element(e) => e,
        TokenKind::Text => {
            return None;
        },
    };
    let target = strip_delimiters(token.value, delimiters.delimiter_start, delimiters.delimiter_end);
    parse_target(target)
}

/// Reads the inside of a tag.
pub fn parse_target<'a>(target: &'a str) -> (element: Option<Element<'a>>)
    ensures
        match element {
            Some(el) => spec_parse_target(target.spec_bytes()) == Some(el@),
            None => spec_parse_target(target.spec_bytes()) is None,
        },
{
    let bytes = target.as_bytes();
    let ghost text = target.spec_bytes();
    proof {
        lemma_str_valid(target);
    }
    let mut pairs: Vec<Attribute<'a>> = Vec::new();
    let mut state = ParseState::NameBegin;
    let mut pos: usize = 0;
    assert(attribute_views(pairs@) =~= Seq::<AttributeView>::empty());
    while pos < bytes.len()
        invariant
            bytes@ == text,
            text == target.spec_bytes(),
            valid_utf8(text),
            pos <= text.len(),
            is_boundary(text, pos as int),
            state_fits(text, attribute_views(pairs@), state, pos as int),
            spec_run(text, pos as int, attribute_views(pairs@), state) == spec_run(
                text,
                0,
                Seq::empty(),
                ParseState::NameBegin,
            ),
        decreases bytes.len() - pos,
    {
        let c = bytes[pos];
        let ghost before = attribute_views(pairs@);
        proof {
            lemma_scalar_step(text, pos as int);
        }
        let next = pos + width(c);
        match state {
            ParseState::NameBegin => {
                if c == SPACE {
                } else if c == EQUALS || c == DOUBLE_QUOTE || c == SINGLE_QUOTE {
                    state = ParseState::ParseError;
                } else {
                    state = ParseState::Name(pos);
                }
            },
            ParseState::Name(start) => {
                if c == SPACE || c == EQUALS {
                    let attr = Attribute { name: slice(target, start, pos), value: None };
                    pairs.push(attr);
                    assert(attribute_views(pairs@) =~= before.push(attr@));
                    state =
                    if c == SPACE {
                        ParseState::NameEnd
                    } else {
                        ParseState::ValueBegin
                    };
                }
            },
            ParseState::NameEnd => {
                if c == SPACE {
                } else if c == EQUALS {
                    state = ParseState::ValueBegin;
                } else {
                    state = ParseState::Name(pos);
                }
            },
            ParseState::ValueBegin => {
                if c == SPACE {
                } else if c == DOUBLE_QUOTE {
                    state = ParseState::ValueWithDoubleQuote(pos + 1);
                } else if c == SINGLE_QUOTE {
                    state = ParseState::ValueWithSingleQuote(pos + 1);
                } else {
                    state = ParseState::ValueWithNoQuote(pos);
                }
            },
            ParseState::ValueWithDoubleQuote(start) => {
                if c == DOUBLE_QUOTE {
                    set_last_value(&mut pairs, slice(target, start, pos));
                    state = ParseState::NameBegin;
                }
            },
            ParseState::ValueWithSingleQuote(start) => {
                if c == SINGLE_QUOTE {
                    set_last_value(&mut pairs, slice(target, start, pos));
                    state = ParseState::NameBegin;
                }
            },
            ParseState::ValueWithNoQuote(start) => {
                if c == SPACE {
                    set_last_value(&mut pairs, slice(target, start, pos));
                    state = ParseState::NameBegin;
                }
            },
            ParseState::ParseError => {},
        }
        pos = next;
    }
    if let ParseState::Name(start) = state {
        let ghost before = attribute_views(pairs@);
        let attr = Attribute { name: slice(target, start, bytes.len()), value: None };
        pairs.push(attr);
        assert(attribute_views(pairs@) =~= before.push(attr@));
    }
    if let ParseState::ValueWithNoQuote(start) = state {
        set_last_value(&mut pairs, slice(target, start, bytes.len()));
    }
    if let ParseState::ParseError = state {
        return None;
    }
    if pairs.len() == 0 {
        return None;
    }
    let ghost all = attribute_views(pairs@);
    let first = pairs.remove(0);
    assert(attribute_views(pairs@) =~= all.subrange(1, all.len() as int));
    assert(all[0] == first@);
    Some(Element { name: first.name, attrs: pairs })
}

/// Gives `value` to the last of `pairs`.
fn set_last_value<'a>(pairs: &mut Vec<Attribute<'a>>, value: &'a str)
    requires
        old(pairs).len() > 0,
    ensures
        attribute_views(final(pairs)@) == with_last_value(attribute_views(old(pairs)@), value.spec_bytes()),
{
    let ghost before = attribute_views(pairs@);
    let last = pairs.pop().unwrap();
    let attr = Attribute { name: last.name, value: Some(value) };
    pairs.push(attr);
    assert(attribute_views(pairs@) =~= with_last_value(before, value.spec_bytes()));
}

/// The first of `attrs` that is named `key`.
pub open spec fn first_named(attrs: Seq<AttributeView>, key: Seq<u8>) -> Option<AttributeView>
    decreases attrs.len(),
{
    if attrs.len() == 0 {
        None
    } else if attrs[0].name == key {
        Some(attrs[0])
    } else {
        first_named(attrs.drop_first(), key)
    }
}

impl<'a> Element<'a> {
    /// The first attribute named `key`.
    pub fn attribute(&self, key: &str) -> (found: Option<Attribute<'a>>)
        ensures
            match found {
                Some(attr) => first_named(self@.attrs, key.spec_bytes()) == Some(attr@),
                None => first_named(self@.attrs, key.spec_bytes()) is None,
            },
    {
        let ghost all = self@.attrs;
        let mut i: usize = 0;
        assert(all.subrange(0, all.len() as int) =~= all);
        while i < self.attrs.len()
            invariant
                i <= self.attrs.len(),
                all == self@.attrs,
                first_named(all, key.spec_bytes()) == first_named(
                    all.subrange(i as int, all.len() as int),
                    key.spec_bytes(),
                ),
            decreases self.attrs.len() - i,
        {
            let attr = self.attrs[i];
            let ghost rest = all.subrange(i as int, all.len() as int);
            assert(rest[0] == attr@);
            if str_eq(attr.name, key) {
                return Some(attr);
            }
            assert(rest.drop_first() =~= all.subrange(i + 1, all.len() as int));
            i += 1;
        }
        None
    }
}

} // verus!

//! Splits text into plain runs and delimiter-bounded tags.
use crate::code::utils::text::{
    char_at, is_boundary, lemma_scalar_step, lemma_str_valid, next_char, slice, width, width_of,
};
use vstd::prelude::*;
use vstd::string::StringSliceAdditionalSpecFns;
use vstd::utf8::valid_utf8;

pub mod tiling;

verus! {

/// What a token is: a tag, or plain text.
#[derive(PartialEq, Debug, Clone, Copy)]
pub enum TokenKind<'a, 'b> {
    Element(ElementToken<'a, 'b>),
    Text,
}

/// The two delimiters that bound a tag.
#[derive(PartialEq, Debug, Clone, Copy)]
pub struct ElementToken<'a, 'b> {
    pub delimiter_start: &'a str,
    pub delimiter_end: &'b str,
}

/// A run of the scanned text. `start` and `end` count characters, `byte_start`
/// and `byte_end` count bytes; both ends are exclusive.
#[derive(PartialEq, Debug, Clone, Copy)]
pub struct Token<'a, 'b, 'c> {
    pub kind: TokenKind<'b, 'c>,
    pub value: &'a str,
    pub start: usize,
    pub byte_start: usize,
    pub end: usize,
    pub byte_end: usize,
}

/// What a token kind stands for: a tag with the delimiters that bound it, or
/// plain text.
pub enum TokenKindView {
    Element { delimiter_start: Seq<u8>, delimiter_end: Seq<u8> },
    Text,
}

/// What a token stands for, its text taken as bytes.
pub struct TokenView {
    pub kind: TokenKindView,
    pub value: Seq<u8>,
    pub start: int,
    pub byte_start: int,
    pub end: int,
    pub byte_end: int,
}

impl<'a, 'b> View for TokenKind<'a, 'b> {
    type V = TokenKindView;

    open spec fn view(&self) -> TokenKindView {
        match *self {
            TokenKind::Element(e) => TokenKindView::Element {
                delimiter_start: e.delimiter_start.spec_bytes(),
                delimiter_end: e.delimiter_end.spec_bytes(),
            },
            TokenKind::Text => TokenKindView::Text,
        }
    }
}

impl<'a, 'b, 'c> View for Token<'a, 'b, 'c> {
    type V = TokenView;

    open spec fn view(&self) -> TokenView {
        TokenView {
            kind: self.kind@,
            value: self.value.spec_bytes(),
            start: self.start as int,
            byte_start: self.byte_start as int,
            end: self.end as int,
            byte_end: self.byte_end as int,
        }
    }
}

/// The views of a run of tokens.
pub open spec fn token_views(tokens: Seq<Token>) -> Seq<TokenView> {
    Seq::new(tokens.len(), |i: int| tokens[i]@)
}

/// Where the scanner stands: in plain text, part-way through the opening
/// delimiter (with the number of its bytes that have been matched), inside a
/// tag, or part-way through the closing delimiter.
#[derive(Clone, Copy)]
pub enum ScanState {
    Text,
    DelimiterStart(usize),
    InDelimiter,
    DelimiterEnd(usize),
}

/// What ends just before the character that was scanned.
#[derive(Clone, Copy)]
pub enum Ended {
    Nothing,
    Text,
    Element,
}

/// The state that a character leads to when no tag is open: it starts the
/// opening delimiter if it is the delimiter's first character.
pub open spec fn spec_check_delimiter_start(c: Seq<u8>, delimiter_start: Seq<u8>) -> ScanState {
    if c == char_at(delimiter_start, 0) {
        ScanState::DelimiterStart(width_of(delimiter_start[0]) as usize)
    } else {
        ScanState::Text
    }
}

/// One step of the scanner: what ends before the character `c`, and the state
/// after it.
///
/// The character that follows a complete opening delimiter is taken into the
/// tag unseen, and a character that breaks off a delimiter is not looked at
/// again as the start of another.
pub open spec fn spec_get_state(
    c: Seq<u8>,
    delimiter_start: Seq<u8>,
    delimiter_end: Seq<u8>,
    state: ScanState,
) -> (Ended, ScanState) {
    match state {
        ScanState::Text => match spec_check_delimiter_start(c, delimiter_start) {
            ScanState::DelimiterStart(k) => (Ended::Text, ScanState::DelimiterStart(k)),
            _ => (Ended::Nothing, ScanState::Text),
        },
        ScanState::DelimiterStart(k) => if k < delimiter_start.len() {
            if c == char_at(delimiter_start, k as int) {
                (
                    Ended::Nothing,
                    ScanState::DelimiterStart((k + width_of(delimiter_start[k as int])) as usize),
                )
            } else {
                (Ended::Nothing, ScanState::Text)
            }
        } else {
            (Ended::Nothing, ScanState::InDelimiter)
        },
        ScanState::InDelimiter => if c == char_at(delimiter_end, 0) {
            (Ended::Nothing, ScanState::DelimiterEnd(width_of(delimiter_end[0]) as usize))
        } else {
            (Ended::Nothing, ScanState::InDelimiter)
        },
        ScanState::DelimiterEnd(k) => if k < delimiter_end.len() {
            if c == char_at(delimiter_end, k as int) {
                (Ended::Nothing, ScanState::DelimiterEnd((k + width_of(delimiter_end[k as int])) as usize))
            } else {
                (Ended::Nothing, ScanState::InDelimiter)
            }
        } else {
            (Ended::Element, spec_check_delimiter_start(c, delimiter_start))
        },
    }
}

/// The token of the given kind over bytes `byte_start..byte_end` of `source`.
pub open spec fn token_over(
    source: Seq<u8>,
    delimiter_start: Seq<u8>,
    delimiter_end: Seq<u8>,
    element: bool,
    start: int,
    byte_start: int,
    end: int,
    byte_end: int,
) -> TokenView {
    TokenView {
        kind: if element {
            TokenKindView::Element { delimiter_start, delimiter_end }
        } else {
            TokenKindView::Text
        },
        value: source.subrange(byte_start, byte_end),
        start,
        byte_start,
        end,
        byte_end,
    }
}

/// The tokens that the scanner cuts from the character at byte `i` on, when
/// it stands in `state`, the run under way began at byte `byte_start` and
/// character `start`, and `current` characters lie before byte `i`. The
/// scanner goes character by character.
pub open spec fn scan(
    source: Seq<u8>,
    delimiter_start: Seq<u8>,
    delimiter_end: Seq<u8>,
    i: int,
    state: ScanState,
    byte_start: int,
    start: int,
    current: int,
) -> Seq<TokenView>
    decreases source.len() - i,
{
    if i < 0 || i >= source.len() {
        if source.len() == 0 {
            Seq::empty()
        } else {
            let element = state matches ScanState::DelimiterEnd(k) && k >= delimiter_end.len();
            seq![
                token_over(
                    source,
                    delimiter_start,
                    delimiter_end,
                    element,
                    start,
                    byte_start,
                    current,
                    source.len() as int,
                ),
            ]
        }
    } else {
        let next = next_char(source, i);
        let (ended, state_after) = spec_get_state(
            source.subrange(i, next),
            delimiter_start,
            delimiter_end,
            state,
        );
        match ended {
            Ended::Nothing => scan(
                source,
                delimiter_start,
                delimiter_end,
                next,
                state_after,
                byte_start,
                start,
                current + 1,
            ),
            _ => {
                let head = if i > byte_start {
                    seq![
                        token_over(
                            source,
                            delimiter_start,
                            delimiter_end,
                            ended is Element,
                            start,
                            byte_start,
                            current,
                            i,
                        ),
                    ]
                } else {
                    Seq::empty()
                };
                head + scan(source, delimiter_start, delimiter_end, next, state_after, i, current, current + 1)
            },
        }
    }
}

/// `tokens` with every run of neighbouring text tokens joined into one.
pub open spec fn join_text(source: Seq<u8>, tokens: Seq<TokenView>) -> Seq<TokenView>
    decreases tokens.len(),
{
    if tokens.len() == 0 {
        Seq::empty()
    } else {
        let joined = join_text(source, tokens.drop_last());
        let cur = tokens.last();
        if joined.len() > 0 && joined.last().kind is Text && cur.kind is Text {
            let last = joined.last();
            joined.drop_last().push(
                TokenView {
                    kind: TokenKindView::Text,
                    value: source.subrange(last.byte_start, cur.byte_end),
                    start: last.start,
                    byte_start: last.byte_start,
                    end: cur.end,
                    byte_end: cur.byte_end,
                },
            )
        } else {
            joined.push(cur)
        }
    }
}

/// The tokens of `source` for the given pair of delimiters.
pub open spec fn spec_tokenize(
    source: Seq<u8>,
    delimiter_start: Seq<u8>,
    delimiter_end: Seq<u8>,
) -> Seq<TokenView> {
    join_text(source, scan(source, delimiter_start, delimiter_end, 0, ScanState::Text, 0, 0, 0))
}

/// True when `token` is a piece of `source`: not empty, cut between
/// characters, and holding the text between its two ends.
pub open spec fn token_fits(source: Seq<u8>, token: TokenView) -> bool {
    &&& 0 <= token.byte_start < token.byte_end <= source.len()
    &&& is_boundary(source, token.byte_start)
    &&& is_boundary(source, token.byte_end)
    &&& token.value == source.subrange(token.byte_start, token.byte_end)
}

/// True when `tokens` are pieces of `source` that follow one another without
/// gap from byte `lo` to byte `hi`.
#[verifier::opaque]
pub open spec fn chain(source: Seq<u8>, tokens: Seq<TokenView>, lo: int, hi: int) -> bool {
    &&& tokens.len() == 0 ==> lo == hi
    &&& tokens.len() > 0 ==> tokens[0].byte_start == lo && tokens.last().byte_end == hi
    &&& forall|i: int| 0 <= i < tokens.len() ==> token_fits(source, #[trigger] tokens[i])
    &&& forall|i: int|
        0 <= i < tokens.len() - 1 ==> (#[trigger] tokens[i]).byte_end == tokens[i + 1].byte_start
}

/// A chain of tokens breaks into two chains at any token.
pub proof fn lemma_chain_split(source: Seq<u8>, a: Seq<TokenView>, b: Seq<TokenView>, lo: int, hi: int)
    requires
        chain(source, a + b, lo, hi),
        b.len() > 0,
    ensures
        chain(source, a, lo, b[0].byte_start),
        chain(source, b, b[0].byte_start, hi),
{
    reveal(chain);
    let all = a + b;
    assert forall|i: int| 0 <= i < a.len() implies token_fits(source, #[trigger] a[i]) by {
        assert(all[i] == a[i]);
    }
    assert forall|i: int| 0 <= i < b.len() implies token_fits(source, #[trigger] b[i]) by {
        assert(all[a.len() + i] == b[i]);
    }
    assert forall|i: int| 0 <= i < a.len() - 1 implies (#[trigger] a[i]).byte_end == a[i + 1].byte_start by {
        assert(all[i] == a[i]);
        assert(all[i + 1] == a[i + 1]);
    }
    assert forall|i: int| 0 <= i < b.len() - 1 implies (#[trigger] b[i]).byte_end == b[i + 1].byte_start by {
        assert(all[a.len() + i] == b[i]);
        assert(all[a.len() + i + 1] == b[i + 1]);
    }
    assert(all.last() == b.last());
    if a.len() > 0 {
        assert(all[0] == a[0]);
        assert(all[a.len() - 1] == a.last());
        assert(all[a.len() - 1 + 1] == b[0]);
    } else {
        assert(all[0] == b[0]);
    }
}

/// A chain of one token: the token is a piece of the text from the start of
/// the chain to its end.
pub proof fn lemma_chain_one(source: Seq<u8>, token: TokenView, lo: int, hi: int)
    requires
        chain(source, seq![token], lo, hi),
    ensures
        token_fits(source, token),
        token.byte_start == lo,
        token.byte_end == hi,
{
    reveal(chain);
    assert(seq![token][0] == token);
}

/// A chain without tokens starts where it ends.
pub proof fn lemma_chain_none(source: Seq<u8>, lo: int, hi: int)
    requires
        chain(source, Seq::empty(), lo, hi),
    ensures
        lo == hi,
{
    reveal(chain);
}

/// True when `tokens` cut `source` into pieces that follow one another without
/// gap from the first byte to the last.
pub open spec fn tokens_tile(source: Seq<u8>, tokens: Seq<TokenView>) -> bool {
    &&& (tokens.len() == 0 <==> source.len() == 0)
    &&& chain(source, tokens, 0, source.len() as int)
}

/// A chain goes on with the piece that starts where it ended.
pub proof fn lemma_chain_push(source: Seq<u8>, before: Seq<TokenView>, lo: int, hi: int, piece: TokenView)
    requires
        chain(source, before, lo, hi),
        token_fits(source, piece),
        piece.byte_start == hi,
    ensures
        chain(source, before.push(piece), lo, piece.byte_end),
{
    reveal(chain);
    let all = before.push(piece);
    assert forall|j: int| 0 <= j < all.len() implies token_fits(source, #[trigger] all[j]) by {
        if j < before.len() {
            assert(all[j] == before[j]);
        }
    }
    assert forall|j: int| 0 <= j < all.len() - 1 implies (#[trigger] all[j]).byte_end == all[j
        + 1].byte_start by {
        if j < before.len() - 1 {
            assert(all[j] == before[j]);
            assert(all[j + 1] == before[j + 1]);
        } else {
            assert(all[j] == before.last());
        }
    }
}

/// A chain goes on from the piece that ends where it starts.
pub proof fn lemma_chain_push_front(source: Seq<u8>, piece: TokenView, rest: Seq<TokenView>, lo: int, hi: int)
    requires
        chain(source, rest, lo, hi),
        token_fits(source, piece),
        piece.byte_end == lo,
    ensures
        chain(source, seq![piece] + rest, piece.byte_start, hi),
{
    reveal(chain);
    let all = seq![piece] + rest;
    assert forall|j: int| 0 <= j < all.len() implies token_fits(source, #[trigger] all[j]) by {
        if j > 0 {
            assert(all[j] == rest[j - 1]);
        }
    }
    assert forall|j: int| 0 <= j < all.len() - 1 implies (#[trigger] all[j]).byte_end == all[j
        + 1].byte_start by {
        if j > 0 {
            assert(all[j] == rest[j - 1]);
            assert(all[j + 1] == rest[j]);
        } else {
            assert(all[1] == rest[0]);
        }
    }
    if rest.len() > 0 {
        assert(all.last() == rest.last());
    }
}

/// The chain without tokens starts where it ends.
pub proof fn lemma_chain_empty(source: Seq<u8>, at: int)
    ensures
        chain(source, Seq::empty(), at, at),
{
    reveal(chain);
}

/// What a chain says of each of its pieces and of each pair of neighbours.
pub proof fn lemma_chain_facts(source: Seq<u8>, tokens: Seq<TokenView>, lo: int, hi: int)
    requires
        chain(source, tokens, lo, hi),
    ensures
        tokens.len() == 0 ==> lo == hi,
        tokens.len() > 0 ==> tokens[0].byte_start == lo && tokens.last().byte_end == hi,
        forall|i: int| 0 <= i < tokens.len() ==> token_fits(source, #[trigger] tokens[i]),
        forall|i: int| 0 <= i < tokens.len() - 1 ==> (#[trigger] tokens[i]).byte_end == tokens[i + 1].byte_start,
{
    reveal(chain);
}

/// True when the scanner can stand in `state`: as many bytes of a delimiter as
/// it has matched are whole characters of the delimiter.
pub open spec fn state_fits(delimiter_start: Seq<u8>, delimiter_end: Seq<u8>, state: ScanState) -> bool {
    match state {
        ScanState::DelimiterStart(k) => 1 <= k <= delimiter_start.len() && is_boundary(delimiter_start, k as int),
        ScanState::DelimiterEnd(k) => 1 <= k <= delimiter_end.len() && is_boundary(delimiter_end, k as int),
        _ => true,
    }
}

/// After a character the scanner stands in a state in which it can stand.
pub proof fn lemma_state_fits_step(
    c: Seq<u8>,
    delimiter_start: Seq<u8>,
    delimiter_end: Seq<u8>,
    state: ScanState,
)
    requires
        valid_utf8(delimiter_start),
        valid_utf8(delimiter_end),
        0 < delimiter_start.len() <= usize::MAX,
        0 < delimiter_end.len() <= usize::MAX,
        state_fits(delimiter_start, delimiter_end, state),
    ensures
        state_fits(delimiter_start, delimiter_end, spec_get_state(c, delimiter_start, delimiter_end, state).1),
{
    lemma_scalar_step(delimiter_start, 0);
    lemma_scalar_step(delimiter_end, 0);
    match state {
        ScanState::DelimiterStart(k) => {
            if k < delimiter_start.len() {
                lemma_scalar_step(delimiter_start, k as int);
            }
        },
        ScanState::DelimiterEnd(k) => {
            if k < delimiter_end.len() {
                lemma_scalar_step(delimiter_end, k as int);
            }
        },
        _ => {},
    }
}

/// Whether the character of `a` that starts at byte `i` is the character of
/// `b` that starts at byte `k`.
fn same_char(a: &[u8], i: usize, b: &[u8], k: usize) -> (same: bool)
    requires
        i < a@.len(),
        k < b@.len(),
        i + width_of(a@[i as int]) <= a@.len(),
        k + width_of(b@[k as int]) <= b@.len(),
    ensures
        same == (char_at(a@, i as int) == char_at(b@, k as int)),
{
    let w = width(a[i]);
    if w != width(b[k]) {
        assert(char_at(a@, i as int).len() != char_at(b@, k as int).len());
        return false;
    }
    let mut t: usize = 0;
    while t < w
        invariant
            t <= w,
            w == width_of(a@[i as int]),
            w == width_of(b@[k as int]),
            i + w <= a.len(),
            k + w <= b.len(),
            forall|u: int| 0 <= u < t ==> #[trigger] a@[i + u] == b@[k + u],
        decreases w - t,
    {
        if a[i + t] != b[k + t] {
            assert(char_at(a@, i as int)[t as int] != char_at(b@, k as int)[t as int]);
            return false;
        }
        t += 1;
    }
    assert forall|u: int| 0 <= u < w implies char_at(a@, i as int)[u] == char_at(b@, k as int)[u] by {
        assert(a@[i + u] == b@[k + u]);
    }
    assert(char_at(a@, i as int) =~= char_at(b@, k as int));
    true
}

/// The state that the character of `source` at byte `i` leads to when no tag
/// is open.
fn check_delimiter_start(source: &[u8], i: usize, delimiter_start: &[u8]) -> (state: ScanState)
    requires
        i < source@.len(),
        i + width_of(source@[i as int]) <= source@.len(),
        delimiter_start@.len() > 0,
        width_of(delimiter_start@[0]) <= delimiter_start@.len(),
    ensures
        state == spec_check_delimiter_start(char_at(source@, i as int), delimiter_start@),
{
    if same_char(source, i, delimiter_start, 0) {
        ScanState::DelimiterStart(width(delimiter_start[0]))
    } else {
        ScanState::Text
    }
}

/// One step of the scanner: what ends before the character of `source` at
/// byte `i`, and the state after it.
fn get_state(source: &[u8], i: usize, delimiter_start: &[u8], delimiter_end: &[u8], state: ScanState) -> (step:
    (Ended, ScanState))
    requires
        i < source@.len(),
        i + width_of(source@[i as int]) <= source@.len(),
        valid_utf8(delimiter_start@),
        valid_utf8(delimiter_end@),
        delimiter_start@.len() > 0,
        delimiter_end@.len() > 0,
        state_fits(delimiter_start@, delimiter_end@, state),
    ensures
        step == spec_get_state(char_at(source@, i as int), delimiter_start@, delimiter_end@, state),
{
    proof {
        lemma_scalar_step(delimiter_start@, 0);
        lemma_scalar_step(delimiter_end@, 0);
    }
    match state {
        ScanState::Text => match check_delimiter_start(source, i, delimiter_start) {
            ScanState::DelimiterStart(k) => (Ended::Text, ScanState::DelimiterStart(k)),
            _ => (Ended::Nothing, ScanState::Text),
        },
        ScanState::DelimiterStart(k) => {
            if k < delimiter_start.len() {
                proof {
                    lemma_scalar_step(delimiter_start@, k as int);
                }
                if same_char(source, i, delimiter_start, k) {
                    (Ended::Nothing, ScanState::DelimiterStart(k + width(delimiter_start[k])))
                } else {
                    (Ended::Nothing, ScanState::Text)
                }
            } else {
                (Ended::Nothing, ScanState::InDelimiter)
            }
        },
        ScanState::InDelimiter => {
            if same_char(source, i, delimiter_end, 0) {
                (Ended::Nothing, ScanState::DelimiterEnd(width(delimiter_end[0])))
            } else {
                (Ended::Nothing, ScanState::InDelimiter)
            }
        },
        ScanState::DelimiterEnd(k) => {
            if k < delimiter_end.len() {
                proof {
                    lemma_scalar_step(delimiter_end@, k as int);
                }
                if same_char(source, i, delimiter_end, k) {
                    (Ended::Nothing, ScanState::DelimiterEnd(k + width(delimiter_end[k])))
                } else {
                    (Ended::Nothing, ScanState::InDelimiter)
                }
            } else {
                (Ended::Element, check_delimiter_start(source, i, delimiter_start))
            }
        },
    }
}

/// Cuts `source` into text and tags, character by character. A tag runs from
/// `delimiter_start` to the next `delimiter_end`; all else is text. A
/// delimiter that is opened and not closed before the text ends leaves text.
/// The tokens follow one another without gap from the first byte of the text
/// to the last, each starts and ends between characters and counts the
/// characters before its two ends, no text token stands next to another, and
/// every tag starts with the opening delimiter and ends with the closing one.
pub fn tokenize<'a, 'b, 'c>(source: &'a str, delimiter_start: &'b str, delimiter_end: &'c str) -> (tokens:
    Vec<Token<'a, 'b, 'c>>)
    requires
        delimiter_start.spec_bytes().len() > 0,
        delimiter_end.spec_bytes().len() > 0,
    ensures
        token_views(tokens@) == spec_tokenize(
            source.spec_bytes(),
            delimiter_start.spec_bytes(),
            delimiter_end.spec_bytes(),
        ),
        tokens_tile(source.spec_bytes(), token_views(tokens@)),
        tiling::all_counted(source.spec_bytes(), token_views(tokens@)),
        tiling::no_text_pairs(token_views(tokens@)),
        tiling::all_delimited(delimiter_start.spec_bytes(), delimiter_end.spec_bytes(), token_views(tokens@)),
{
    let bytes = source.as_bytes();
    let ds = delimiter_start.as_bytes();
    let de = delimiter_end.as_bytes();
    let ghost src = source.spec_bytes();
    let ghost dsb = delimiter_start.spec_bytes();
    let ghost deb = delimiter_end.spec_bytes();
    let element_kind = TokenKind::Element(ElementToken { delimiter_start, delimiter_end });
    proof {
        lemma_str_valid(source);
        lemma_str_valid(delimiter_start);
        lemma_str_valid(delimiter_end);
        assert(deb.len() == de.len());
        assert(dsb.len() == ds.len());
        tiling::lemma_tokenize_tiles(src, dsb, deb);
        tiling::lemma_tokenize_delimited(src, dsb, deb);
    }

    let mut raw: Vec<Token<'a, 'b, 'c>> = Vec::new();
    let mut state = ScanState::Text;
    let mut byte_start: usize = 0;
    let mut start: usize = 0;
    let mut current: usize = 0;
    let mut i: usize = 0;
    assert(token_views(raw@) =~= Seq::<TokenView>::empty());
    while i < bytes.len()
        invariant
            bytes@ == src,
            ds@ == dsb,
            de@ == deb,
            src == source.spec_bytes(),
            0 < dsb.len() <= usize::MAX,
            0 < deb.len() <= usize::MAX,
            valid_utf8(src),
            valid_utf8(dsb),
            valid_utf8(deb),
            element_kind@ == (TokenKindView::Element { delimiter_start: dsb, delimiter_end: deb }),
            i <= src.len(),
            byte_start <= i,
            start <= current <= i,
            is_boundary(src, byte_start as int),
            is_boundary(src, i as int),
            state_fits(dsb, deb, state),
            token_views(raw@) + scan(src, dsb, deb, i as int, state, byte_start as int, start as int, current as int)
                == scan(src, dsb, deb, 0, ScanState::Text, 0, 0, 0),
        decreases bytes.len() - i,
    {
        proof {
            lemma_scalar_step(src, i as int);
            lemma_state_fits_step(char_at(src, i as int), dsb, deb, state);
        }
        let next = i + width(bytes[i]);
        let (ended, state_after) = get_state(bytes, i, ds, de, state);
        let ghost rest = scan(src, dsb, deb, next as int, state_after, i as int, current as int, current + 1);
        let ghost before = token_views(raw@);
        match ended {
            Ended::Nothing => {},
            _ => {
                if i > byte_start {
                    let kind = match ended {
                        Ended::Element => element_kind,
                        _ => TokenKind::Text,
                    };
                    let token = Token {
                        kind,
                        value: slice(source, byte_start, i),
                        start,
                        byte_start,
                        end: current,
                        byte_end: i,
                    };
                    raw.push(token);
                    proof {
                        assert(token@ == token_over(
                            src,
                            dsb,
                            deb,
                            ended is Element,
                            start as int,
                            byte_start as int,
                            current as int,
                            i as int,
                        ));
                        assert(token_views(raw@) =~= before.push(token@));
                        assert(before.push(token@) + rest =~= before + (seq![token@] + rest));
                    }
                } else {
                    proof {
                        assert(Seq::<TokenView>::empty() + rest =~= rest);
                    }
                }
                start = current;
                byte_start = i;
            },
        }
        state = state_after;
        current = current + 1;
        i = next;
    }

    let ghost before = token_views(raw@);
    if bytes.len() > 0 {
        let kind = match state {
            ScanState::DelimiterEnd(k) => if k >= de.len() {
                element_kind
            } else {
                TokenKind::Text
            },
            _ => TokenKind::Text,
        };
        proof {
            lemma_scan_started(src, dsb, deb);
            lemma_chain_facts(src, scan(src, dsb, deb, 0, ScanState::Text, 0, 0, 0), 0, src.len() as int);
        }
        let token = Token {
            kind,
            value: slice(source, byte_start, bytes.len()),
            start,
            byte_start,
            end: current,
            byte_end: bytes.len(),
        };
        raw.push(token);
        proof {
            assert(token_views(raw@) =~= before.push(token@));
            assert(before.push(token@) =~= before + seq![token@]);
        }
    } else {
        proof {
            assert(before + Seq::<TokenView>::empty() =~= before);
        }
    }
    proof {
        lemma_scan_started(src, dsb, deb);
    }
    join_text_tokens(source, raw)
}

/// What the scanner cuts from the start of a text cuts up the text.
proof fn lemma_scan_started(source: Seq<u8>, delimiter_start: Seq<u8>, delimiter_end: Seq<u8>)
    requires
        valid_utf8(source),
        valid_utf8(delimiter_start),
        valid_utf8(delimiter_end),
        0 < delimiter_start.len() <= usize::MAX,
        0 < delimiter_end.len() <= usize::MAX,
    ensures
        tokens_tile(source, scan(source, delimiter_start, delimiter_end, 0, ScanState::Text, 0, 0, 0)),
{
    tiling::lemma_scan_chain(source, delimiter_start, delimiter_end, 0, ScanState::Text, 0, 0, 0);
}

/// Joins every run of neighbouring text tokens of `raw` into one token.
fn join_text_tokens<'a, 'b, 'c>(source: &'a str, raw: Vec<Token<'a, 'b, 'c>>) -> (tokens: Vec<
    Token<'a, 'b, 'c>,
>)
    requires
        tokens_tile(source.spec_bytes(), token_views(raw@)),
    ensures
        token_views(tokens@) == join_text(source.spec_bytes(), token_views(raw@)),
        tokens_tile(source.spec_bytes(), token_views(tokens@)),
{
    let ghost src = source.spec_bytes();
    let ghost views = token_views(raw@);
    let mut tokens: Vec<Token<'a, 'b, 'c>> = Vec::new();
    if raw.len() == 0 {
        assert(token_views(tokens@) =~= views);
        assert(views =~= join_text(src, views));
        return tokens;
    }
    let mut open = raw[0];
    let mut n: usize = 1;
    proof {
        lemma_chain_facts(src, views, 0, src.len() as int);
        lemma_chain_empty(src, 0);
        assert(views[0] == open@);
        assert(token_fits(src, views[0]));
        assert(join_text(src, views.subrange(0, 1)) =~= seq![open@]) by {
            assert(views.subrange(0, 1).drop_last() =~= Seq::<TokenView>::empty());
            assert(views.subrange(0, 1).last() == open@);
            assert(join_text(src, Seq::<TokenView>::empty()) =~= Seq::<TokenView>::empty());
        }
        assert(token_views(tokens@) =~= Seq::<TokenView>::empty());
        assert(token_views(tokens@).push(open@) =~= seq![open@]);
    }
    while n < raw.len()
        invariant
            1 <= n <= raw.len(),
            src == source.spec_bytes(),
            views == token_views(raw@),
            tokens_tile(src, views),
            join_text(src, views.subrange(0, n as int)) == token_views(tokens@).push(open@),
            token_fits(src, open@),
            open.byte_end == views[n - 1].byte_end,
            chain(src, token_views(tokens@), 0, open.byte_start as int),
        decreases raw.len() - n,
    {
        let cur = raw[n];
        let ghost before = token_views(tokens@);
        proof {
            lemma_chain_facts(src, views, 0, src.len() as int);
            assert(views.subrange(0, n + 1).drop_last() =~= views.subrange(0, n as int));
            assert(views.subrange(0, n + 1).last() == cur@);
            assert(views[n as int] == cur@);
            assert(token_fits(src, views[n as int]));
            assert(views[n - 1].byte_end == views[n as int].byte_start);
            assert(before.push(open@).last() == open@);
            assert(before.push(open@).drop_last() =~= before);
        }
        let both_text = match (open.kind, cur.kind) {
            (TokenKind::Text, TokenKind::Text) => true,
            _ => false,
        };
        if both_text {
            open =
            Token {
                kind: TokenKind::Text,
                value: slice(source, open.byte_start, cur.byte_end),
                start: open.start,
                byte_start: open.byte_start,
                end: cur.end,
                byte_end: cur.byte_end,
            };
        } else {
            tokens.push(open);
            proof {
                assert(token_views(tokens@) =~= before.push(open@));
                lemma_chain_push(src, before, 0, open.byte_start as int, open@);
            }
            open = cur;
        }
        n += 1;
    }
    proof {
        lemma_chain_facts(src, views, 0, src.len() as int);
        assert(views.subrange(0, n as int) =~= views);
        assert(views[raw.len() - 1] == views.last());
        lemma_chain_push(src, token_views(tokens@), 0, open.byte_start as int, open@);
        assert(token_views(tokens@.push(open)) =~= token_views(tokens@).push(open@));
    }
    tokens.push(open);
    tokens
}

} // verus!

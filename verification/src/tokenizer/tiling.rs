//! What holds of the tokens of every text.
use crate::code::utils::text::{char_at, is_boundary, lemma_scalar_step, next_char, width_of};
use crate::tokenizer::{
    chain, join_text, lemma_chain_empty, lemma_chain_facts, lemma_chain_push, lemma_chain_push_front,
    lemma_chain_split, lemma_state_fits_step, scan, spec_get_state, spec_tokenize, state_fits,
    token_over, tokens_tile, ScanState, TokenKindView, TokenView,
};
use vstd::prelude::*;
use vstd::utf8::{is_continuation_byte, valid_utf8};

verus! {

/// The number of characters that start among the first `n` bytes of `source`.
pub open spec fn chars_before(source: Seq<u8>, n: int) -> int
    decreases n,
{
    if n <= 0 || n > source.len() {
        0
    } else {
        chars_before(source, n - 1) + if is_continuation_byte(source[n - 1]) {
            0int
        } else {
            1int
        }
    }
}

/// One character starts between a cut point and the next.
pub proof fn lemma_chars_step(source: Seq<u8>, i: int)
    requires
        valid_utf8(source),
        is_boundary(source, i),
        i < source.len(),
    ensures
        chars_before(source, i + width_of(source[i])) == chars_before(source, i) + 1,
{
    lemma_scalar_step(source, i);
    let w = width_of(source[i]);
    assert(chars_before(source, i + 1) == chars_before(source, i) + 1);
    lemma_no_chars_between(source, i + 1, i + w);
}

/// No character starts among bytes that continue a character.
pub proof fn lemma_no_chars_between(source: Seq<u8>, from: int, to: int)
    requires
        0 <= from <= to <= source.len(),
        forall|k: int| from <= k < to ==> is_continuation_byte(#[trigger] source[k]),
    ensures
        chars_before(source, to) == chars_before(source, from),
    decreases to - from,
{
    if from < to {
        lemma_no_chars_between(source, from, to - 1);
    }
}

/// How many characters start among the first bytes of a text depends on
/// those bytes alone.
pub proof fn lemma_chars_prefix(a: Seq<u8>, b: Seq<u8>, n: int)
    requires
        0 <= n <= a.len(),
        n <= b.len(),
        forall|i: int| 0 <= i < n ==> a[i] == b[i],
    ensures
        chars_before(a, n) == chars_before(b, n),
    decreases n,
{
    if n > 0 {
        lemma_chars_prefix(a, b, n - 1);
    }
}

/// The characters that start among the first bytes of a text are those that
/// start before a place among them and those that start from that place on.
pub proof fn lemma_chars_shift(source: Seq<u8>, from: int, n: int)
    requires
        0 <= from,
        0 <= n,
        from + n <= source.len(),
    ensures
        chars_before(source, from + n) == chars_before(source, from) + chars_before(
            source.subrange(from, source.len() as int),
            n,
        ),
    decreases n,
{
    if n > 0 {
        lemma_chars_shift(source, from, n - 1);
        assert(source.subrange(from, source.len() as int)[n - 1] == source[from + n - 1]);
    }
}

/// As many characters start in a text as the text holds.
pub proof fn lemma_chars_whole(source: Seq<u8>)
    requires
        valid_utf8(source),
    ensures
        chars_before(source, source.len() as int) == vstd::utf8::decode_utf8(source).len(),
    decreases source.len(),
{
    if source.len() > 0 {
        let rest = vstd::utf8::pop_first_scalar(source);
        let w = width_of(source[0]);
        lemma_scalar_step(source, 0);
        assert(w == vstd::utf8::length_of_first_scalar(source));
        lemma_chars_step(source, 0);
        lemma_chars_shift(source, w, source.len() - w);
        lemma_chars_whole(rest);
    }
}

/// What a token counts are characters: before a place between two characters
/// there start as many characters as the text before that place holds.
pub proof fn lemma_chars_are_characters(source: Seq<u8>, n: int)
    requires
        valid_utf8(source),
        is_boundary(source, n),
    ensures
        chars_before(source, n) == vstd::utf8::decode_utf8(source.subrange(0, n)).len(),
{
    let prefix = source.subrange(0, n);
    crate::code::utils::text::lemma_subrange_valid(source, 0, n);
    lemma_chars_prefix(source, prefix, n);
    lemma_chars_whole(prefix);
}

/// True when `token` counts its characters rightly: as many lie before it as
/// its `start` says, and as many before its end as its `end` says.
pub open spec fn counted(source: Seq<u8>, token: TokenView) -> bool {
    &&& token.start == chars_before(source, token.byte_start)
    &&& token.end == chars_before(source, token.byte_end)
}

/// True when every one of `tokens` counts its characters rightly.
pub open spec fn all_counted(source: Seq<u8>, tokens: Seq<TokenView>) -> bool {
    forall|i: int| 0 <= i < tokens.len() ==> counted(source, #[trigger] tokens[i])
}

/// True when no text token stands next to another.
pub open spec fn no_text_pairs(tokens: Seq<TokenView>) -> bool {
    forall|i: int|
        0 <= i < tokens.len() - 1 ==> !((#[trigger] tokens[i]).kind is Text && tokens[i + 1].kind is Text)
}

/// What the scanner cuts from a character on are pieces of the text that
/// follow one another without gap from the start of the run under way to the
/// end of the text, and each counts its characters rightly.
pub proof fn lemma_scan_chain(
    source: Seq<u8>,
    delimiter_start: Seq<u8>,
    delimiter_end: Seq<u8>,
    i: int,
    state: ScanState,
    byte_start: int,
    start: int,
    current: int,
)
    requires
        valid_utf8(source),
        valid_utf8(delimiter_start),
        valid_utf8(delimiter_end),
        0 < delimiter_start.len() <= usize::MAX,
        0 < delimiter_end.len() <= usize::MAX,
        0 <= byte_start <= i <= source.len(),
        i > 0 ==> byte_start < i,
        is_boundary(source, byte_start),
        is_boundary(source, i),
        state_fits(delimiter_start, delimiter_end, state),
        start == chars_before(source, byte_start),
        current == chars_before(source, i),
    ensures
        chain(
            source,
            scan(source, delimiter_start, delimiter_end, i, state, byte_start, start, current),
            byte_start,
            source.len() as int,
        ),
        all_counted(source, scan(source, delimiter_start, delimiter_end, i, state, byte_start, start, current)),
        source.len() > 0 ==> scan(
            source,
            delimiter_start,
            delimiter_end,
            i,
            state,
            byte_start,
            start,
            current,
        ).len() > 0,
        source.len() == 0 ==> scan(
            source,
            delimiter_start,
            delimiter_end,
            i,
            state,
            byte_start,
            start,
            current,
        ).len() == 0,
    decreases source.len() - i,
{
    let len = source.len() as int;
    let all = scan(source, delimiter_start, delimiter_end, i, state, byte_start, start, current);
    if i >= len {
        if len == 0 {
            lemma_chain_empty(source, 0);
        } else {
            let element = state matches ScanState::DelimiterEnd(k) && k >= delimiter_end.len();
            let token = token_over(source, delimiter_start, delimiter_end, element, start, byte_start, current, len);
            lemma_chain_empty(source, byte_start);
            lemma_chain_push(source, Seq::empty(), byte_start, byte_start, token);
            assert(Seq::<TokenView>::empty().push(token) =~= seq![token]);
        }
    } else {
        lemma_scalar_step(source, i);
        lemma_chars_step(source, i);
        let next = next_char(source, i);
        let c = source.subrange(i, next);
        let (ended, state_after) = spec_get_state(c, delimiter_start, delimiter_end, state);
        lemma_state_fits_step(c, delimiter_start, delimiter_end, state);
        if ended is Nothing {
            lemma_scan_chain(
                source,
                delimiter_start,
                delimiter_end,
                next,
                state_after,
                byte_start,
                start,
                current + 1,
            );
        } else {
            let rest = scan(source, delimiter_start, delimiter_end, next, state_after, i, current, current + 1);
            lemma_scan_chain(source, delimiter_start, delimiter_end, next, state_after, i, current, current + 1);
            if i > byte_start {
                let token = token_over(
                    source,
                    delimiter_start,
                    delimiter_end,
                    ended is Element,
                    start,
                    byte_start,
                    current,
                    i,
                );
                lemma_chain_push_front(source, token, rest, i, len);
                assert(all == seq![token] + rest);
                assert forall|k: int| 0 <= k < all.len() implies counted(source, #[trigger] all[k]) by {
                    if k > 0 {
                        assert(all[k] == rest[k - 1]);
                    }
                }
            } else {
                assert(all =~= rest);
            }
        }
    }
}

/// Joining the text tokens of a chain that stand next to one another leaves a
/// chain over the same stretch of text, in which no text token stands next to
/// another and each token counts its characters rightly.
pub proof fn lemma_join_chain(source: Seq<u8>, tokens: Seq<TokenView>, lo: int, hi: int)
    requires
        chain(source, tokens, lo, hi),
        all_counted(source, tokens),
    ensures
        chain(source, join_text(source, tokens), lo, hi),
        all_counted(source, join_text(source, tokens)),
        no_text_pairs(join_text(source, tokens)),
        join_text(source, tokens).len() == 0 <==> tokens.len() == 0,
        tokens.len() > 0 ==> join_text(source, tokens).last().kind == tokens.last().kind,
    decreases tokens.len(),
{
    if tokens.len() > 0 {
        let front = tokens.drop_last();
        let cur = tokens.last();
        assert(tokens =~= front + seq![cur]);
        lemma_chain_split(source, front, seq![cur], lo, hi);
        lemma_chain_facts(source, seq![cur], cur.byte_start, hi);
        assert(seq![cur][0] == cur);
        assert forall|i: int| 0 <= i < front.len() implies counted(source, #[trigger] front[i]) by {
            assert(front[i] == tokens[i]);
        }
        assert(counted(source, tokens[tokens.len() - 1]));
        lemma_join_chain(source, front, lo, cur.byte_start);
        let joined = join_text(source, front);
        let out = join_text(source, tokens);
        if joined.len() > 0 && joined.last().kind is Text && cur.kind is Text {
            let last = joined.last();
            let head = joined.drop_last();
            assert(joined =~= head + seq![last]);
            lemma_chain_split(source, head, seq![last], lo, cur.byte_start);
            lemma_chain_facts(source, seq![last], last.byte_start, cur.byte_start);
            assert(seq![last][0] == last);
            assert(counted(source, joined[joined.len() - 1]));
            let merged = TokenView {
                kind: TokenKindView::Text,
                value: source.subrange(last.byte_start, cur.byte_end),
                start: last.start,
                byte_start: last.byte_start,
                end: cur.end,
                byte_end: cur.byte_end,
            };
            assert(out == head.push(merged));
            lemma_chain_push(source, head, lo, last.byte_start, merged);
            assert forall|i: int| 0 <= i < out.len() implies counted(source, #[trigger] out[i]) by {
                if i < head.len() {
                    assert(out[i] == joined[i]);
                }
            }
            assert forall|i: int| 0 <= i < out.len() - 1 implies !((#[trigger] out[i]).kind is Text && out[i
                + 1].kind is Text) by {
                assert(out[i] == joined[i]);
                if i + 1 < head.len() {
                    assert(out[i + 1] == joined[i + 1]);
                } else {
                    assert(joined[i + 1] == last);
                }
            }
        } else {
            assert(out == joined.push(cur));
            lemma_chain_push(source, joined, lo, cur.byte_start, cur);
            assert forall|i: int| 0 <= i < out.len() implies counted(source, #[trigger] out[i]) by {
                if i < joined.len() {
                    assert(out[i] == joined[i]);
                }
            }
            assert forall|i: int| 0 <= i < out.len() - 1 implies !((#[trigger] out[i]).kind is Text && out[i
                + 1].kind is Text) by {
                assert(out[i] == joined[i]);
                if i + 1 < joined.len() {
                    assert(out[i + 1] == joined[i + 1]);
                } else {
                    assert(out[i] == joined.last());
                }
            }
        }
    } else {
        lemma_chain_facts(source, tokens, lo, hi);
        lemma_chain_empty(source, lo);
    }
}

/// The tokens of a text cut it into pieces that follow one another without
/// gap from its first byte to its last; each piece starts and ends between
/// characters and counts its characters rightly; and no text token stands
/// next to another.
pub proof fn lemma_tokenize_tiles(source: Seq<u8>, delimiter_start: Seq<u8>, delimiter_end: Seq<u8>)
    requires
        valid_utf8(source),
        valid_utf8(delimiter_start),
        valid_utf8(delimiter_end),
        0 < delimiter_start.len() <= usize::MAX,
        0 < delimiter_end.len() <= usize::MAX,
    ensures
        tokens_tile(source, spec_tokenize(source, delimiter_start, delimiter_end)),
        all_counted(source, spec_tokenize(source, delimiter_start, delimiter_end)),
        no_text_pairs(spec_tokenize(source, delimiter_start, delimiter_end)),
{
    let raw = scan(source, delimiter_start, delimiter_end, 0, ScanState::Text, 0, 0, 0);
    lemma_scan_chain(source, delimiter_start, delimiter_end, 0, ScanState::Text, 0, 0, 0);
    lemma_join_chain(source, raw, 0, source.len() as int);
}

/// True when `token`, if it is a tag, is bounded by the two delimiters: it
/// starts with the opening one, ends with the closing one behind it, and
/// names the two as its delimiters.
pub open spec fn delimited(delimiter_start: Seq<u8>, delimiter_end: Seq<u8>, token: TokenView) -> bool {
    token.kind is Element ==> {
        &&& token.kind == (TokenKindView::Element { delimiter_start, delimiter_end })
        &&& delimiter_start.len() + delimiter_end.len() < token.value.len()
        &&& token.value.subrange(0, delimiter_start.len() as int) == delimiter_start
        &&& token.value.subrange(token.value.len() - delimiter_end.len(), token.value.len() as int)
            == delimiter_end
    }
}

/// True when every tag among `tokens` is bounded by the two delimiters.
pub open spec fn all_delimited(delimiter_start: Seq<u8>, delimiter_end: Seq<u8>, tokens: Seq<TokenView>) -> bool {
    forall|i: int| 0 <= i < tokens.len() ==> delimited(delimiter_start, delimiter_end, #[trigger] tokens[i])
}

/// What the scanner knows of the run under way when it stands in `state`
/// before byte `i`: which part of the opening delimiter, and inside a tag
/// which part of the closing delimiter, the run holds so far.
pub open spec fn state_knows(
    source: Seq<u8>,
    delimiter_start: Seq<u8>,
    delimiter_end: Seq<u8>,
    i: int,
    state: ScanState,
    byte_start: int,
) -> bool {
    match state {
        ScanState::Text => true,
        ScanState::DelimiterStart(k) => {
            &&& 1 <= k <= delimiter_start.len()
            &&& byte_start == i - k
            &&& source.subrange(byte_start, i) == delimiter_start.subrange(0, k as int)
        },
        ScanState::InDelimiter => {
            &&& byte_start + delimiter_start.len() < i
            &&& source.subrange(byte_start, byte_start + delimiter_start.len()) == delimiter_start
        },
        ScanState::DelimiterEnd(k) => {
            &&& 1 <= k <= delimiter_end.len()
            &&& byte_start + delimiter_start.len() < i - k
            &&& source.subrange(byte_start, byte_start + delimiter_start.len()) == delimiter_start
            &&& source.subrange(i - k, i) == delimiter_end.subrange(0, k as int)
        },
    }
}

/// A stretch of text that holds the start of a pattern, followed by the
/// character that the pattern goes on with, holds that much more of the
/// pattern.
pub proof fn lemma_match_grows(source: Seq<u8>, from: int, i: int, next: int, pattern: Seq<u8>, k: int)
    requires
        0 <= from <= i < next <= source.len(),
        0 <= k < pattern.len(),
        k + width_of(pattern[k]) <= pattern.len(),
        i - from == k,
        source.subrange(from, i) == pattern.subrange(0, k),
        source.subrange(i, next) == char_at(pattern, k),
    ensures
        next - i == width_of(pattern[k]),
        source.subrange(from, next) == pattern.subrange(0, k + width_of(pattern[k])),
{
    let w = width_of(pattern[k]);
    assert(source.subrange(i, next).len() == char_at(pattern, k).len());
    assert forall|t: int| 0 <= t < k + w implies source.subrange(from, next)[t] == pattern.subrange(0, k + w)[t] by {
        if t < k {
            assert(source.subrange(from, i)[t] == pattern.subrange(0, k)[t]);
        } else {
            assert(source.subrange(i, next)[t - k] == char_at(pattern, k)[t - k]);
        }
    }
    assert(source.subrange(from, next) =~= pattern.subrange(0, k + w));
}

/// What the scanner knows of the run under way still holds after a character.
pub proof fn lemma_state_knows_step(
    source: Seq<u8>,
    delimiter_start: Seq<u8>,
    delimiter_end: Seq<u8>,
    i: int,
    state: ScanState,
    byte_start: int,
)
    requires
        valid_utf8(source),
        valid_utf8(delimiter_start),
        valid_utf8(delimiter_end),
        is_boundary(source, i),
        0 <= byte_start <= i < source.len(),
        0 < delimiter_start.len() <= usize::MAX,
        0 < delimiter_end.len() <= usize::MAX,
        state_fits(delimiter_start, delimiter_end, state),
        state_knows(source, delimiter_start, delimiter_end, i, state, byte_start),
    ensures
        ({
            let next = next_char(source, i);
            let (ended, state_after) = spec_get_state(
                source.subrange(i, next),
                delimiter_start,
                delimiter_end,
                state,
            );
            state_knows(
                source,
                delimiter_start,
                delimiter_end,
                next,
                state_after,
                if ended is Nothing {
                    byte_start
                } else {
                    i
                },
            )
        }),
{
    lemma_scalar_step(source, i);
    lemma_scalar_step(delimiter_start, 0);
    lemma_scalar_step(delimiter_end, 0);
    let next = next_char(source, i);
    let c = source.subrange(i, next);
    let (ended, state_after) = spec_get_state(c, delimiter_start, delimiter_end, state);
    assert(source.subrange(i, i) =~= delimiter_start.subrange(0, 0));
    assert(source.subrange(i, i) =~= delimiter_end.subrange(0, 0));
    match state {
        ScanState::Text => {
            if c == char_at(delimiter_start, 0) {
                lemma_match_grows(source, i, i, next, delimiter_start, 0);
            }
        },
        ScanState::DelimiterStart(k0) => {
            if k0 < delimiter_start.len() {
                lemma_scalar_step(delimiter_start, k0 as int);
                if c == char_at(delimiter_start, k0 as int) {
                    lemma_match_grows(source, byte_start, i, next, delimiter_start, k0 as int);
                }
            } else {
                assert(delimiter_start.subrange(0, k0 as int) =~= delimiter_start);
            }
        },
        ScanState::InDelimiter => {
            if c == char_at(delimiter_end, 0) {
                lemma_match_grows(source, i, i, next, delimiter_end, 0);
            }
        },
        ScanState::DelimiterEnd(k0) => {
            if k0 < delimiter_end.len() {
                lemma_scalar_step(delimiter_end, k0 as int);
                if c == char_at(delimiter_end, k0 as int) {
                    lemma_match_grows(source, i - k0, i, next, delimiter_end, k0 as int);
                }
            } else {
                if c == char_at(delimiter_start, 0) {
                    lemma_match_grows(source, i, i, next, delimiter_start, 0);
                }
            }
        },
    }
}

/// A run that ends as a tag is bounded by the two delimiters.
pub proof fn lemma_tag_is_delimited(
    source: Seq<u8>,
    delimiter_start: Seq<u8>,
    delimiter_end: Seq<u8>,
    i: int,
    state: ScanState,
    byte_start: int,
    start: int,
    current: int,
)
    requires
        0 <= byte_start <= i <= source.len(),
        state_knows(source, delimiter_start, delimiter_end, i, state, byte_start),
        state matches ScanState::DelimiterEnd(k) && k >= delimiter_end.len(),
    ensures
        delimited(
            delimiter_start,
            delimiter_end,
            token_over(source, delimiter_start, delimiter_end, true, start, byte_start, current, i),
        ),
{
    let token = token_over(source, delimiter_start, delimiter_end, true, start, byte_start, current, i);
    assert(delimiter_end.subrange(0, delimiter_end.len() as int) =~= delimiter_end);
    assert(token.value.subrange(0, delimiter_start.len() as int) =~= source.subrange(
        byte_start,
        byte_start + delimiter_start.len(),
    ));
    assert(token.value.subrange(token.value.len() - delimiter_end.len(), token.value.len() as int)
        =~= source.subrange(i - delimiter_end.len(), i));
}

/// Every tag that the scanner cuts is bounded by the two delimiters.
pub proof fn lemma_scan_delimited(
    source: Seq<u8>,
    delimiter_start: Seq<u8>,
    delimiter_end: Seq<u8>,
    i: int,
    state: ScanState,
    byte_start: int,
    start: int,
    current: int,
)
    requires
        valid_utf8(source),
        valid_utf8(delimiter_start),
        valid_utf8(delimiter_end),
        is_boundary(source, i),
        0 <= byte_start <= i <= source.len(),
        0 < delimiter_start.len() <= usize::MAX,
        0 < delimiter_end.len() <= usize::MAX,
        state_fits(delimiter_start, delimiter_end, state),
        state_knows(source, delimiter_start, delimiter_end, i, state, byte_start),
    ensures
        all_delimited(
            delimiter_start,
            delimiter_end,
            scan(source, delimiter_start, delimiter_end, i, state, byte_start, start, current),
        ),
    decreases source.len() - i,
{
    let all = scan(source, delimiter_start, delimiter_end, i, state, byte_start, start, current);
    if i >= source.len() {
        if source.len() > 0 {
            if state matches ScanState::DelimiterEnd(k) && k >= delimiter_end.len() {
                lemma_tag_is_delimited(source, delimiter_start, delimiter_end, i, state, byte_start, start, current);
            }
        }
    } else {
        lemma_scalar_step(source, i);
        let next = next_char(source, i);
        let c = source.subrange(i, next);
        let (ended, state_after) = spec_get_state(c, delimiter_start, delimiter_end, state);
        lemma_state_knows_step(source, delimiter_start, delimiter_end, i, state, byte_start);
        lemma_state_fits_step(c, delimiter_start, delimiter_end, state);
        if ended is Nothing {
            lemma_scan_delimited(
                source,
                delimiter_start,
                delimiter_end,
                next,
                state_after,
                byte_start,
                start,
                current + 1,
            );
        } else {
            let rest = scan(source, delimiter_start, delimiter_end, next, state_after, i, current, current + 1);
            lemma_scan_delimited(source, delimiter_start, delimiter_end, next, state_after, i, current, current + 1);
            if i > byte_start {
                let token = token_over(
                    source,
                    delimiter_start,
                    delimiter_end,
                    ended is Element,
                    start,
                    byte_start,
                    current,
                    i,
                );
                if ended is Element {
                    lemma_tag_is_delimited(
                        source,
                        delimiter_start,
                        delimiter_end,
                        i,
                        state,
                        byte_start,
                        start,
                        current,
                    );
                }
                assert(all == seq![token] + rest);
                assert forall|k: int| 0 <= k < all.len() implies delimited(
                    delimiter_start,
                    delimiter_end,
                    #[trigger] all[k],
                ) by {
                    if k > 0 {
                        assert(all[k] == rest[k - 1]);
                    }
                }
            } else {
                assert(all =~= rest);
            }
        }
    }
}

/// Joining text tokens leaves every tag as it is.
pub proof fn lemma_join_delimited(
    source: Seq<u8>,
    delimiter_start: Seq<u8>,
    delimiter_end: Seq<u8>,
    tokens: Seq<TokenView>,
)
    requires
        all_delimited(delimiter_start, delimiter_end, tokens),
    ensures
        all_delimited(delimiter_start, delimiter_end, join_text(source, tokens)),
    decreases tokens.len(),
{
    if tokens.len() > 0 {
        let front = tokens.drop_last();
        let cur = tokens.last();
        assert forall|i: int| 0 <= i < front.len() implies delimited(
            delimiter_start,
            delimiter_end,
            #[trigger] front[i],
        ) by {
            assert(front[i] == tokens[i]);
        }
        assert(delimited(delimiter_start, delimiter_end, tokens[tokens.len() - 1]));
        lemma_join_delimited(source, delimiter_start, delimiter_end, front);
        let joined = join_text(source, front);
        let out = join_text(source, tokens);
        assert forall|i: int| 0 <= i < out.len() implies delimited(
            delimiter_start,
            delimiter_end,
            #[trigger] out[i],
        ) by {
            if i < out.len() - 1 {
                assert(out[i] == joined[i]);
            }
        }
    }
}

/// Every tag among the tokens of a text starts with the opening delimiter,
/// ends with the closing delimiter behind it, and names the two.
pub proof fn lemma_tokenize_delimited(source: Seq<u8>, delimiter_start: Seq<u8>, delimiter_end: Seq<u8>)
    requires
        valid_utf8(source),
        valid_utf8(delimiter_start),
        valid_utf8(delimiter_end),
        0 < delimiter_start.len() <= usize::MAX,
        0 < delimiter_end.len() <= usize::MAX,
    ensures
        all_delimited(delimiter_start, delimiter_end, spec_tokenize(source, delimiter_start, delimiter_end)),
{
    let raw = scan(source, delimiter_start, delimiter_end, 0, ScanState::Text, 0, 0, 0);
    lemma_scan_delimited(source, delimiter_start, delimiter_end, 0, ScanState::Text, 0, 0, 0);
    lemma_join_delimited(source, delimiter_start, delimiter_end, raw);
}

} // verus!

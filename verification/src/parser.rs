//! Matches opening and closing tags into a tree of directives.
use crate::element_parser::{spec_parse, trimmed_from, ElementView};
use crate::element_parser;
use crate::tokenizer::{
    chain, lemma_chain_none, lemma_chain_one, lemma_chain_split, token_fits, token_views, tokens_tile, Token, TokenView,
};
use vstd::prelude::*;
use vstd::string::StringSliceAdditionalSpecFns;

verus! {

/// The byte of `/`.
pub const SLASH: u8 = 0x2f;

/// A piece of the parsed text: a directive with what it encloses, or text.
#[derive(Debug, PartialEq)]
pub enum ContentPart<'a, 'b, 'c, 'd> {
    Element(Element<'a, 'b, 'c, 'd>),
    Text(Text<'a, 'b, 'c, 'd>),
}

/// A directive: its opening tag as read, the tokens of its opening and closing
/// tags, and the parts between them.
#[derive(Debug, PartialEq)]
pub struct Element<'a, 'b, 'c, 'd> {
    pub start_element: element_parser::Element<'a>,
    pub start_token: &'d Token<'a, 'b, 'c>,
    pub end_token: &'d Token<'a, 'b, 'c>,
    pub children: Vec<ContentPart<'a, 'b, 'c, 'd>>,
}

/// A token that stays as it is written.
#[derive(Debug, PartialEq)]
pub struct Text<'a, 'b, 'c, 'd> {
    pub token: &'d Token<'a, 'b, 'c>,
}

/// What a part stands for.
pub enum PartView {
    Element(NodeView),
    Text(TokenView),
}

/// What a directive stands for.
pub struct NodeView {
    pub start_element: ElementView,
    pub start_token: TokenView,
    pub end_token: TokenView,
    pub children: Seq<PartView>,
}

/// What a part stands for.
pub open spec fn part_view(part: ContentPart) -> PartView
    decreases part,
{
    match part {
        ContentPart::Element(el) => PartView::Element(
            NodeView {
                start_element: el.start_element@,
                start_token: el.start_token@,
                end_token: el.end_token@,
                children: part_views_upto(el.children@, el.children@.len()),
            },
        ),
        ContentPart::Text(text) => PartView::Text(text.token@),
    }
}

/// The views of the first `n` of `parts`.
pub open spec fn part_views_upto(parts: Seq<ContentPart>, n: nat) -> Seq<PartView>
    decreases parts, n,
{
    if n == 0 || n > parts.len() {
        Seq::empty()
    } else {
        part_views_upto(parts, (n - 1) as nat).push(part_view(parts[n - 1]))
    }
}

/// The views of a run of parts.
pub open spec fn part_views(parts: Seq<ContentPart>) -> Seq<PartView> {
    part_views_upto(parts, parts.len())
}

impl<'a, 'b, 'c, 'd> View for Element<'a, 'b, 'c, 'd> {
    type V = NodeView;

    open spec fn view(&self) -> NodeView {
        NodeView {
            start_element: self.start_element@,
            start_token: self.start_token@,
            end_token: self.end_token@,
            children: part_views(self.children@),
        }
    }
}

impl<'a, 'b, 'c, 'd> View for ContentPart<'a, 'b, 'c, 'd> {
    type V = PartView;

    open spec fn view(&self) -> PartView {
        part_view(*self)
    }
}

/// A directive's name without the slashes before it.
pub open spec fn bare_name(name: Seq<u8>) -> Seq<u8> {
    name.subrange(trimmed_from(name, seq![SLASH], 0), name.len() as int)
}

/// True when a directive of this name closes one of the directives that are
/// open: it starts with a slash, and what follows the slashes is the name of
/// one of them.
pub open spec fn closes_one_of(name: Seq<u8>, parents: Seq<Seq<u8>>) -> bool {
    name.len() > 0 && name[0] == SLASH && parents.contains(bare_name(name))
}

/// What reading the tokens from one position on gives: the parts read, the
/// position of the token after the last one read, and the position of the
/// closing tag that ended the reading, if one did.
pub struct TreeResult {
    pub parts: Seq<PartView>,
    pub cursor: int,
    pub closer: Option<int>,
}

/// `result` with `parts` before its own.
pub open spec fn after_parts(parts: Seq<PartView>, result: TreeResult) -> TreeResult {
    TreeResult { parts: parts + result.parts, cursor: result.cursor, closer: result.closer }
}

/// The parts read from token `cursor` on while the directives named in
/// `parents` are open, innermost last.
///
/// A tag that closes one of the open directives ends the reading. Any other
/// tag that spells a directive opens it: the tokens after it are read with it
/// open. If that reading ends at the tag that closes it, the two tags and the
/// parts between them make a directive. If it ends at a tag that closes a
/// directive further out, or at the end of the tokens, the opening tag stays
/// text, the parts read after it follow it, and in the first case the reading
/// ends here too.
pub open spec fn spec_tree(tokens: Seq<TokenView>, cursor: int, parents: Seq<Seq<u8>>) -> TreeResult
    decreases tokens.len() - cursor,
{
    if cursor < 0 || cursor >= tokens.len() {
        TreeResult { parts: Seq::empty(), cursor: tokens.len() as int, closer: None }
    } else {
        let token = tokens[cursor];
        match spec_parse(token) {
            None => after_parts(seq![PartView::Text(token)], spec_tree(tokens, cursor + 1, parents)),
            Some(el) => if closes_one_of(el.name, parents) {
                TreeResult { parts: Seq::empty(), cursor: cursor + 1, closer: Some(cursor) }
            } else {
                let inner = spec_tree(tokens, cursor + 1, parents.push(el.name));
                let next = if cursor < inner.cursor <= tokens.len() {
                    inner.cursor
                } else {
                    tokens.len() as int
                };
                match inner.closer {
                    Some(end) => if spec_parse(tokens[end]) matches Some(end_el) && el.name
                        == bare_name(end_el.name) {
                        after_parts(
                            seq![
                                PartView::Element(
                                    NodeView {
                                        start_element: el,
                                        start_token: token,
                                        end_token: tokens[end],
                                        children: inner.parts,
                                    },
                                ),
                            ],
                            spec_tree(tokens, next, parents),
                        )
                    } else {
                        TreeResult {
                            parts: seq![PartView::Text(token)] + inner.parts,
                            cursor: next,
                            closer: Some(end),
                        }
                    },
                    None => after_parts(
                        seq![PartView::Text(token)] + inner.parts,
                        spec_tree(tokens, next, parents),
                    ),
                }
            },
        }
    }
}

/// The tree that a run of tokens spells.
pub open spec fn spec_parse_tokens(tokens: Seq<TokenView>) -> Seq<PartView> {
    spec_tree(tokens, 0, Seq::empty()).parts
}

/// The tokens of a part, in the order written.
pub open spec fn flat_part(part: PartView) -> Seq<TokenView>
    decreases part,
{
    match part {
        PartView::Text(token) => seq![token],
        PartView::Element(node) => seq![node.start_token] + flat_parts(node.children, node.children.len())
            + seq![node.end_token],
    }
}

/// The tokens of the first `n` of `parts`, in the order written.
pub open spec fn flat_parts(parts: Seq<PartView>, n: nat) -> Seq<TokenView>
    decreases parts, n,
{
    if n == 0 || n > parts.len() {
        Seq::empty()
    } else {
        flat_parts(parts, (n - 1) as nat) + flat_part(parts[n - 1])
    }
}

/// The tokens of a run of parts, in the order written.
pub open spec fn flatten(parts: Seq<PartView>) -> Seq<TokenView> {
    flat_parts(parts, parts.len())
}

/// The byte texts of a run of names.
pub open spec fn names(parents: Seq<&str>) -> Seq<Seq<u8>> {
    Seq::new(parents.len(), |i: int| parents[i].spec_bytes())
}

/// The position at which a reading stopped: that of the closing tag that
/// ended it, or the end of the tokens.
pub open spec fn stop_of(tokens: Seq<TokenView>, result: TreeResult) -> int {
    match result.closer {
        Some(end) => end,
        None => tokens.len() as int,
    }
}

/// The views of a run of parts depend on no part behind the run.
pub proof fn lemma_views_prefix(a: Seq<ContentPart>, b: Seq<ContentPart>, n: nat)
    requires
        n <= a.len(),
        n <= b.len(),
        forall|i: int| 0 <= i < n ==> a[i] == b[i],
    ensures
        part_views_upto(a, n) == part_views_upto(b, n),
    decreases n,
{
    if n > 0 {
        lemma_views_prefix(a, b, (n - 1) as nat);
    }
}

/// A run of parts has as many views as parts.
pub proof fn lemma_views_len(parts: Seq<ContentPart>, n: nat)
    requires
        n <= parts.len(),
    ensures
        part_views_upto(parts, n).len() == n,
    decreases n,
{
    if n > 0 {
        lemma_views_len(parts, (n - 1) as nat);
    }
}

/// The part at place `i` of a run has the view at place `i` of the run's
/// views.
pub proof fn lemma_views_index(parts: Seq<ContentPart>, n: nat, i: int)
    requires
        0 <= i < n <= parts.len(),
    ensures
        part_views_upto(parts, n).len() == n,
        part_views_upto(parts, n)[i] == parts[i]@,
    decreases n,
{
    lemma_views_len(parts, n);
    if i < n - 1 {
        lemma_views_index(parts, (n - 1) as nat, i);
    } else {
        lemma_views_len(parts, (n - 1) as nat);
    }
}

/// The views of parts with one more part behind them.
pub proof fn lemma_views_push(parts: Seq<ContentPart>, part: ContentPart)
    ensures
        part_views(parts.push(part)) == part_views(parts).push(part@),
{
    lemma_views_prefix(parts.push(part), parts, parts.len());
}

/// The views of two runs of parts, one behind the other.
pub proof fn lemma_views_concat(a: Seq<ContentPart>, b: Seq<ContentPart>)
    ensures
        part_views(a + b) == part_views(a) + part_views(b),
    decreases b.len(),
{
    if b.len() == 0 {
        assert(a + b =~= a);
        assert(part_views(a) + part_views(b) =~= part_views(a));
    } else {
        let front = b.drop_last();
        lemma_views_concat(a, front);
        lemma_views_push(a + front, b.last());
        lemma_views_push(front, b.last());
        assert((a + front).push(b.last()) =~= a + b);
        assert(front.push(b.last()) =~= b);
        assert(part_views(a + b) =~= part_views(a) + part_views(b));
    }
}

/// The tokens of a run of parts depend on no part behind the run.
pub proof fn lemma_flat_prefix(a: Seq<PartView>, b: Seq<PartView>, n: nat)
    requires
        n <= a.len(),
        n <= b.len(),
        forall|i: int| 0 <= i < n ==> a[i] == b[i],
    ensures
        flat_parts(a, n) == flat_parts(b, n),
    decreases n,
{
    if n > 0 {
        lemma_flat_prefix(a, b, (n - 1) as nat);
    }
}

/// The tokens of parts with one more part behind them.
pub proof fn lemma_flatten_push(parts: Seq<PartView>, part: PartView)
    ensures
        flatten(parts.push(part)) == flatten(parts) + flat_part(part),
{
    lemma_flat_prefix(parts.push(part), parts, parts.len());
}

/// The tokens of two runs of parts, one behind the other.
pub proof fn lemma_flatten_concat(a: Seq<PartView>, b: Seq<PartView>)
    ensures
        flatten(a + b) == flatten(a) + flatten(b),
    decreases b.len(),
{
    if b.len() == 0 {
        assert(a + b =~= a);
        assert(flatten(a) + flatten(b) =~= flatten(a));
    } else {
        let front = b.drop_last();
        lemma_flatten_concat(a, front);
        lemma_flatten_push(a + front, b.last());
        lemma_flatten_push(front, b.last());
        assert((a + front).push(b.last()) =~= a + b);
        assert(front.push(b.last()) =~= b);
        assert(flatten(a + b) =~= flatten(a) + flatten(b));
    }
}

/// The tokens of a single part.
pub proof fn lemma_flatten_one(part: PartView)
    ensures
        flatten(seq![part]) == flat_part(part),
{
    lemma_flatten_push(Seq::empty(), part);
    assert(Seq::<PartView>::empty().push(part) =~= seq![part]);
    assert(flatten(Seq::<PartView>::empty()) + flat_part(part) =~= flat_part(part));
}

/// A reading loses no token and moves none: the parts read from `cursor` on
/// hold, in the order written, the tokens from `cursor` up to where the
/// reading stopped. It stops at the end of the tokens, or at a tag that closes
/// one of the open directives.
pub proof fn lemma_tree_flat(tokens: Seq<TokenView>, cursor: int, parents: Seq<Seq<u8>>)
    requires
        0 <= cursor <= tokens.len(),
    ensures
        ({
            let r = spec_tree(tokens, cursor, parents);
            let stop = stop_of(tokens, r);
            &&& cursor <= stop <= tokens.len()
            &&& flatten(r.parts) == tokens.subrange(cursor, stop)
            &&& r.closer is None ==> r.cursor == tokens.len()
            &&& r.closer is Some ==> {
                &&& stop < tokens.len()
                &&& r.cursor == stop + 1
                &&& spec_parse(tokens[stop]) is Some
                &&& closes_one_of(spec_parse(tokens[stop])->0.name, parents)
            }
        }),
    decreases tokens.len() - cursor,
{
    let r = spec_tree(tokens, cursor, parents);
    if cursor >= tokens.len() {
        assert(flatten(r.parts) =~= tokens.subrange(cursor, tokens.len() as int));
    } else {
        let token = tokens[cursor];
        match spec_parse(token) {
            None => {
                let rest = spec_tree(tokens, cursor + 1, parents);
                lemma_tree_flat(tokens, cursor + 1, parents);
                lemma_flatten_concat(seq![PartView::Text(token)], rest.parts);
                lemma_flatten_one(PartView::Text(token));
                assert(seq![token] + tokens.subrange(cursor + 1, stop_of(tokens, rest))
                    =~= tokens.subrange(cursor, stop_of(tokens, rest)));
            },
            Some(el) => {
                if closes_one_of(el.name, parents) {
                    assert(flatten(r.parts) =~= tokens.subrange(cursor, cursor));
                } else {
                    let open = parents.push(el.name);
                    let inner = spec_tree(tokens, cursor + 1, open);
                    lemma_tree_flat(tokens, cursor + 1, open);
                    let next = inner.cursor;
                    let head = seq![PartView::Text(token)] + inner.parts;
                    lemma_flatten_concat(seq![PartView::Text(token)], inner.parts);
                    lemma_flatten_one(PartView::Text(token));
                    assert(seq![token] + tokens.subrange(cursor + 1, stop_of(tokens, inner))
                        =~= tokens.subrange(cursor, stop_of(tokens, inner)));
                    match inner.closer {
                        Some(end) => {
                            let end_el = spec_parse(tokens[end])->0;
                            if el.name == bare_name(end_el.name) {
                                let node = PartView::Element(
                                    NodeView {
                                        start_element: el,
                                        start_token: token,
                                        end_token: tokens[end],
                                        children: inner.parts,
                                    },
                                );
                                let rest = spec_tree(tokens, next, parents);
                                lemma_tree_flat(tokens, next, parents);
                                lemma_flatten_concat(seq![node], rest.parts);
                                lemma_flatten_one(node);
                                assert(flat_part(node) =~= tokens.subrange(cursor, end + 1));
                                assert(tokens.subrange(cursor, end + 1) + tokens.subrange(
                                    end + 1,
                                    stop_of(tokens, rest),
                                ) =~= tokens.subrange(cursor, stop_of(tokens, rest)));
                            } else {
                                assert(open.contains(bare_name(end_el.name)));
                                let at = choose|i: int|
                                    0 <= i < open.len() && open[i] == bare_name(end_el.name);
                                assert(at < parents.len());
                                assert(parents[at] == bare_name(end_el.name));
                            }
                        },
                        None => {
                            let rest = spec_tree(tokens, next, parents);
                            lemma_tree_flat(tokens, next, parents);
                            assert(head + rest.parts =~= head);
                        },
                    }
                }
            },
        }
    }
}

/// Parsing loses no token and moves none: the tokens of the tree, read in the
/// order written, are the tokens that were parsed.
pub proof fn lemma_parse_keeps_tokens(tokens: Seq<TokenView>)
    ensures
        flatten(spec_parse_tokens(tokens)) == tokens,
{
    lemma_tree_flat(tokens, 0, Seq::empty());
    let r = spec_tree(tokens, 0, Seq::empty());
    if r.closer is Some {
        let name = spec_parse(tokens[stop_of(tokens, r)])->0.name;
        assert(Seq::<Seq<u8>>::empty().contains(bare_name(name)));
    }
    assert(tokens.subrange(0, tokens.len() as int) =~= tokens);
}

/// Where a part starts.
pub open spec fn span_start(part: PartView) -> int {
    match part {
        PartView::Text(token) => token.byte_start,
        PartView::Element(node) => node.start_token.byte_start,
    }
}

/// Where a part ends.
pub open spec fn span_end(part: PartView) -> int {
    match part {
        PartView::Text(token) => token.byte_end,
        PartView::Element(node) => node.end_token.byte_end,
    }
}

/// True when a part is a piece of `source`: a token of text is one, and a
/// directive is one when its two tags are and its parts fill the text between
/// them.
pub open spec fn part_fits(source: Seq<u8>, part: PartView) -> bool
    decreases part,
{
    match part {
        PartView::Text(token) => token_fits(source, token),
        PartView::Element(node) => {
            &&& token_fits(source, node.start_token)
            &&& token_fits(source, node.end_token)
            &&& parts_tile(
                source,
                node.children,
                node.children.len(),
                node.start_token.byte_end,
                node.end_token.byte_start,
            )
        },
    }
}

/// True when the first `n` of `parts` are pieces of `source` that follow one
/// another without gap from byte `lo` to byte `hi`.
pub open spec fn parts_tile(source: Seq<u8>, parts: Seq<PartView>, n: nat, lo: int, hi: int) -> bool
    decreases parts, n,
{
    if n == 0 {
        lo == hi
    } else if n > parts.len() {
        false
    } else {
        let part = parts[n - 1];
        &&& part_fits(source, part)
        &&& span_end(part) == hi
        &&& parts_tile(source, parts, (n - 1) as nat, lo, span_start(part))
    }
}

/// A part has at least one token; it starts with the first and ends with the
/// last.
pub proof fn lemma_flat_part_first(part: PartView)
    ensures
        flat_part(part).len() > 0,
        flat_part(part)[0].byte_start == span_start(part),
{
}

/// The tokens of a directive that follow one another without gap: its two
/// tags are pieces of the text, and the tokens between them follow one
/// another without gap from the end of the first tag to the start of the
/// second.
pub proof fn lemma_chain_node(source: Seq<u8>, node: NodeView, lo: int, hi: int)
    requires
        chain(source, flat_part(PartView::Element(node)), lo, hi),
    ensures
        token_fits(source, node.start_token),
        token_fits(source, node.end_token),
        node.start_token.byte_start == lo,
        node.end_token.byte_end == hi,
        chain(
            source,
            flat_parts(node.children, node.children.len()),
            node.start_token.byte_end,
            node.end_token.byte_start,
        ),
{
    let inner = flat_parts(node.children, node.children.len());
    let head = seq![node.start_token];
    let tail = seq![node.end_token];
    assert(flat_part(PartView::Element(node)) == head + inner + tail);
    lemma_chain_split(source, head + inner, tail, lo, hi);
    assert(tail[0] == node.end_token);
    lemma_chain_one(source, node.end_token, node.end_token.byte_start, hi);
    if inner.len() > 0 {
        lemma_chain_split(source, head, inner, lo, node.end_token.byte_start);
        lemma_chain_one(source, node.start_token, lo, inner[0].byte_start);
    } else {
        assert(head + inner =~= head);
        lemma_chain_one(source, node.start_token, lo, node.end_token.byte_start);
        reveal(chain);
    }
}

/// Parts whose tokens follow one another without gap from `lo` to `hi` as
/// pieces of `source` are themselves pieces of `source` that follow one
/// another without gap from `lo` to `hi`.
pub proof fn lemma_tiles_from_chain(source: Seq<u8>, parts: Seq<PartView>, n: nat, lo: int, hi: int)
    requires
        n <= parts.len(),
        chain(source, flat_parts(parts, n), lo, hi),
    ensures
        parts_tile(source, parts, n, lo, hi),
    decreases parts, n,
{
    if n == 0 {
        lemma_chain_none(source, lo, hi);
    } else {
        let part = parts[n - 1];
        let before = flat_parts(parts, (n - 1) as nat);
        let own = flat_part(part);
        lemma_flat_part_first(part);
        lemma_chain_split(source, before, own, lo, hi);
        lemma_tiles_from_chain(source, parts, (n - 1) as nat, lo, span_start(part));
        match part {
            PartView::Text(token) => {
                lemma_chain_one(source, token, span_start(part), hi);
            },
            PartView::Element(node) => {
                lemma_chain_node(source, node, span_start(part), hi);
                lemma_tiles_from_chain(
                    source,
                    node.children,
                    node.children.len(),
                    node.start_token.byte_end,
                    node.end_token.byte_start,
                );
            },
        }
        assert(part_fits(source, part));
        assert(span_end(part) == hi);
        assert(parts_tile(source, parts, (n - 1) as nat, lo, span_start(part)));
    }
}

/// The tree parsed from tokens that cut up a text cuts up that text.
pub proof fn lemma_parsed_tiles(source: Seq<u8>, tokens: Seq<TokenView>, parts: Seq<PartView>)
    requires
        tokens_tile(source, tokens),
        flatten(parts) == tokens,
    ensures
        parts_tile(source, parts, parts.len(), 0, source.len() as int),
{
    lemma_tiles_from_chain(source, parts, parts.len(), 0, source.len() as int);
}

/// True when `node` is one of the first `n` of `parts` or stands inside one
/// of them.
pub open spec fn occurs(parts: Seq<PartView>, n: nat, node: NodeView) -> bool
    decreases parts, n,
{
    n > 0 && n <= parts.len() && (occurs_in(parts[n - 1], node) || occurs(parts, (n - 1) as nat, node))
}

/// True when `node` is the directive `part` or stands inside it.
pub open spec fn occurs_in(part: PartView, node: NodeView) -> bool
    decreases part,
{
    match part {
        PartView::Text(_) => false,
        PartView::Element(own) => own == node || occurs(own.children, own.children.len(), node),
    }
}

/// A directive of one of two runs of parts is a directive of the two runs
/// together, and the other way round.
pub proof fn lemma_occurs_concat(a: Seq<PartView>, b: Seq<PartView>, m: nat, node: NodeView)
    requires
        m <= b.len(),
    ensures
        occurs(a + b, a.len() + m, node) == (occurs(a, a.len(), node) || occurs(b, m, node)),
    decreases m,
{
    let all = a + b;
    if m == 0 {
        lemma_occurs_prefix(a, all, a.len(), node);
    } else {
        assert(all[a.len() + m - 1] == b[m - 1]);
        lemma_occurs_concat(a, b, (m - 1) as nat, node);
    }
}

/// Whether a directive occurs in a run of parts depends on no part behind the
/// run.
pub proof fn lemma_occurs_prefix(a: Seq<PartView>, b: Seq<PartView>, n: nat, node: NodeView)
    requires
        n <= a.len(),
        n <= b.len(),
        forall|i: int| 0 <= i < n ==> a[i] == b[i],
    ensures
        occurs(a, n, node) == occurs(b, n, node),
    decreases n,
{
    if n > 0 {
        lemma_occurs_prefix(a, b, (n - 1) as nat, node);
    }
}

/// True when a directive is a tag with the tag that closes it: its opening
/// tag spells its name and attributes, and its closing tag spells that name
/// behind a slash.
pub open spec fn well_closed(node: NodeView) -> bool {
    &&& spec_parse(node.start_token) == Some(node.start_element)
    &&& spec_parse(node.end_token) matches Some(closer) && closer.name.len() > 0 && closer.name[0] == SLASH
        && node.start_element.name == bare_name(closer.name)
}

/// Every directive that a reading gives is a tag with the tag that closes it.
pub proof fn lemma_tree_well_closed(tokens: Seq<TokenView>, cursor: int, parents: Seq<Seq<u8>>, node: NodeView)
    requires
        0 <= cursor <= tokens.len(),
        occurs(spec_tree(tokens, cursor, parents).parts, spec_tree(tokens, cursor, parents).parts.len(), node),
    ensures
        well_closed(node),
    decreases tokens.len() - cursor,
{
    let r = spec_tree(tokens, cursor, parents);
    if cursor < tokens.len() {
        let token = tokens[cursor];
        let text = seq![PartView::Text(token)];
        assert(!occurs(text, 1, node)) by {
            assert(!occurs(text, 0, node));
            assert(text[0] == PartView::Text(token));
            assert(!occurs_in(text[0], node));
        }
        match spec_parse(token) {
            None => {
                let rest = spec_tree(tokens, cursor + 1, parents);
                lemma_occurs_concat(text, rest.parts, rest.parts.len(), node);
                lemma_tree_well_closed(tokens, cursor + 1, parents, node);
            },
            Some(el) => {
                if !closes_one_of(el.name, parents) {
                    let open = parents.push(el.name);
                    let inner = spec_tree(tokens, cursor + 1, open);
                    lemma_tree_flat(tokens, cursor + 1, open);
                    let next = inner.cursor;
                    match inner.closer {
                        Some(end) => {
                            let end_el = spec_parse(tokens[end])->0;
                            if el.name == bare_name(end_el.name) {
                                let own = NodeView {
                                    start_element: el,
                                    start_token: token,
                                    end_token: tokens[end],
                                    children: inner.parts,
                                };
                                let head = seq![PartView::Element(own)];
                                let rest = spec_tree(tokens, next, parents);
                                lemma_occurs_concat(head, rest.parts, rest.parts.len(), node);
                                assert(occurs(head, 1, node) == occurs_in(head[0], node)) by {
                                    assert(!occurs(head, 0, node));
                                }
                                if occurs_in(head[0], node) {
                                    if own != node {
                                        lemma_tree_well_closed(tokens, cursor + 1, open, node);
                                    }
                                } else {
                                    lemma_tree_well_closed(tokens, next, parents, node);
                                }
                            } else {
                                lemma_occurs_concat(text, inner.parts, inner.parts.len(), node);
                                lemma_tree_well_closed(tokens, cursor + 1, open, node);
                            }
                        },
                        None => {
                            let rest = spec_tree(tokens, next, parents);
                            lemma_occurs_concat(text, inner.parts, inner.parts.len(), node);
                            lemma_occurs_concat(text + inner.parts, rest.parts, rest.parts.len(), node);
                            if occurs(inner.parts, inner.parts.len(), node) {
                                lemma_tree_well_closed(tokens, cursor + 1, open, node);
                            } else {
                                lemma_tree_well_closed(tokens, next, parents, node);
                            }
                        },
                    }
                }
            },
        }
    }
}

/// Every directive of a parsed tree, at whatever depth, is a tag with the tag
/// that closes it.
pub proof fn lemma_parse_well_closed(tokens: Seq<TokenView>, node: NodeView)
    requires
        occurs(spec_parse_tokens(tokens), spec_parse_tokens(tokens).len(), node),
    ensures
        well_closed(node),
{
    lemma_tree_well_closed(tokens, 0, Seq::empty(), node);
}

/// True when the two tags of `element` are pieces of `source`, the opening
/// one first.
pub open spec fn node_tokens_fit(source: Seq<u8>, element: NodeView) -> bool {
    &&& token_fits(source, element.start_token)
    &&& token_fits(source, element.end_token)
    &&& element.start_token.byte_end <= element.end_token.byte_start
}

/// Parts that cut up a stretch of text cut it up to the start of each part.
pub proof fn lemma_tile_prefix(source: Seq<u8>, parts: Seq<PartView>, m: nat, n: nat, lo: int, hi: int)
    requires
        n <= m <= parts.len(),
        parts_tile(source, parts, m, lo, hi),
    ensures
        parts_tile(
            source,
            parts,
            n,
            lo,
            if n < m {
                span_start(parts[n as int])
            } else {
                hi
            },
        ),
    decreases m - n,
{
    if n < m {
        lemma_tile_prefix(source, parts, (m - 1) as nat, n, lo, span_start(parts[m - 1]));
    }
}

/// A piece of the text starts no later than it ends.
pub proof fn lemma_part_span(source: Seq<u8>, part: PartView)
    requires
        part_fits(source, part),
    ensures
        span_start(part) < span_end(part),
        part matches PartView::Element(node) ==> node_tokens_fit(source, node),
    decreases part,
{
    if let PartView::Element(node) = part {
        lemma_tile_bounds(
            source,
            node.children,
            node.children.len(),
            node.start_token.byte_end,
            node.end_token.byte_start,
        );
    }
}

/// Parts that cut up a stretch of text cut up a stretch whose bounds are in
/// order.
pub proof fn lemma_tile_bounds(source: Seq<u8>, parts: Seq<PartView>, n: nat, lo: int, hi: int)
    requires
        parts_tile(source, parts, n, lo, hi),
    ensures
        lo <= hi,
    decreases parts, n,
{
    if n > 0 {
        let part = parts[n - 1];
        lemma_tile_bounds(source, parts, (n - 1) as nat, lo, span_start(part));
        lemma_part_span(source, part);
    }
}

/// The number of slashes that `bytes` starts with.
fn leading_slashes(bytes: &[u8]) -> (count: usize)
    ensures
        count == trimmed_from(bytes@, seq![SLASH], 0),
        count <= bytes@.len(),
{
    let mut k: usize = 0;
    while k < bytes.len() && bytes[k] == SLASH
        invariant
            k <= bytes.len(),
            trimmed_from(bytes@, seq![SLASH], k as int) == trimmed_from(bytes@, seq![SLASH], 0),
        decreases bytes.len() - k,
    {
        assert(bytes@.subrange(k as int, k + 1) =~= seq![SLASH]);
        k += 1;
    }
    proof {
        if k < bytes.len() {
            assert(bytes@.subrange(k as int, k + 1)[0] == bytes@[k as int]);
        }
    }
    k
}

/// Whether the bytes of `full` from `from` on are those of `other`.
fn tail_equals(full: &[u8], from: usize, other: &[u8]) -> (same: bool)
    requires
        from <= full@.len(),
    ensures
        same == (full@.subrange(from as int, full@.len() as int) == other@),
{
    if full.len() - from != other.len() {
        return false;
    }
    let mut k: usize = 0;
    while k < other.len()
        invariant
            from + other.len() == full.len(),
            k <= other.len(),
            forall|t: int| 0 <= t < k ==> full@[from + t] == other@[t],
        decreases other.len() - k,
    {
        if full[from + k] != other[k] {
            assert(full@.subrange(from as int, full@.len() as int)[k as int] != other@[k as int]);
            return false;
        }
        k += 1;
    }
    assert(full@.subrange(from as int, full@.len() as int) =~= other@);
    true
}

/// Whether a directive named `name` closes one of the open directives.
fn closes_open<'a>(name: &str, parents: &Vec<&'a str>) -> (closes: bool)
    ensures
        closes == closes_one_of(name.spec_bytes(), names(parents@)),
{
    let bytes = name.as_bytes();
    if bytes.len() == 0 || bytes[0] != SLASH {
        return false;
    }
    let from = leading_slashes(bytes);
    let ghost bare = bare_name(name.spec_bytes());
    let mut i: usize = 0;
    while i < parents.len()
        invariant
            i <= parents.len(),
            bytes@ == name.spec_bytes(),
            from == trimmed_from(bytes@, seq![SLASH], 0),
            from <= bytes@.len(),
            bare == bare_name(name.spec_bytes()),
            bytes@.len() > 0 && bytes@[0] == SLASH,
            forall|k: int| 0 <= k < i ==> names(parents@)[k] != bare,
        decreases parents.len() - i,
    {
        if tail_equals(bytes, from, parents[i].as_bytes()) {
            assert(names(parents@)[i as int] == bare);
            assert(names(parents@).contains(bare));
            return true;
        }
        i += 1;
    }
    false
}

/// Reads the tokens from `cursor` on while the directives named in `parents`
/// are open. Gives the parts, the position after the last token read, and the
/// closing tag that ended the reading with its position.
fn tree<'a, 'b, 'c, 'd>(
    tokens: &'d Vec<Token<'a, 'b, 'c>>,
    cursor: usize,
    parents: &mut Vec<&'a str>,
) -> (res: (
    Vec<ContentPart<'a, 'b, 'c, 'd>>,
    usize,
    Option<(usize, element_parser::Element<'a>)>,
))
    requires
        cursor <= tokens.len(),
    ensures
        final(parents)@ == old(parents)@,
        part_views(res.0@) == spec_tree(token_views(tokens@), cursor as int, names(old(parents)@)).parts,
        res.1 == spec_tree(token_views(tokens@), cursor as int, names(old(parents)@)).cursor,
        match res.2 {
            Some((end, end_el)) => {
                &&& spec_tree(token_views(tokens@), cursor as int, names(old(parents)@)).closer == Some(
                    end as int,
                )
                &&& end < tokens.len()
                &&& spec_parse(tokens[end as int]@) == Some(end_el@)
            },
            None => spec_tree(token_views(tokens@), cursor as int, names(old(parents)@)).closer is None,
        },
    decreases tokens.len() - cursor,
{
    let ghost views = token_views(tokens@);
    let ghost open = names(parents@);
    let ghost whole = spec_tree(views, cursor as int, open);
    let mut parts: Vec<ContentPart<'a, 'b, 'c, 'd>> = Vec::new();
    let mut at: usize = cursor;
    let mut closer: Option<(usize, element_parser::Element<'a>)> = None;
    let mut done = false;
    proof {
        assert(part_views(parts@) =~= Seq::<PartView>::empty());
        assert(part_views(parts@) + whole.parts =~= whole.parts);
    }
    while !done
        invariant
            cursor <= at <= tokens.len(),
            views == token_views(tokens@),
            parents@ == old(parents)@,
            open == names(parents@),
            whole == spec_tree(views, cursor as int, open),
            !done ==> closer is None && after_parts(part_views(parts@), spec_tree(views, at as int, open))
                == whole,
            done ==> {
                &&& part_views(parts@) == whole.parts
                &&& at == whole.cursor
                &&& match closer {
                    Some((end, end_el)) => {
                        &&& whole.closer == Some(end as int)
                        &&& end < tokens.len()
                        &&& spec_parse(tokens[end as int]@) == Some(end_el@)
                    },
                    None => whole.closer is None,
                }
            },
        decreases
            tokens.len() - at,
            (if done {
                0int
            } else {
                1int
            }),
    {
        let ghost before = part_views(parts@);
        let ghost here = spec_tree(views, at as int, open);
        if at >= tokens.len() {
            proof {
                assert(before + here.parts =~= before);
            }
            done = true;
        } else {
            let token = &tokens[at];
            assert(views[at as int] == token@);
            match element_parser::parse(token) {
                None => {
                    let part = ContentPart::Text(Text { token });
                    proof {
                        lemma_views_push(parts@, part);
                        let rest = spec_tree(views, at + 1, open);
                        assert(before.push(part@) + rest.parts =~= before + (seq![part@] + rest.parts));
                    }
                    parts.push(part);
                    at += 1;
                },
                Some(el) => {
                    if closes_open(el.name, parents) {
                        proof {
                            assert(before + here.parts =~= before);
                        }
                        closer = Some((at, el));
                        at += 1;
                        done = true;
                    } else {
                        let ghost inner = spec_tree(views, at + 1, open.push(el@.name));
                        proof {
                            lemma_tree_flat(views, at + 1, open.push(el@.name));
                            assert(names(parents@.push(el.name)) =~= open.push(el@.name));
                        }
                        parents.push(el.name);
                        let (mut children, next, end) = tree(tokens, at + 1, parents);
                        parents.pop();
                        assert(parents@ =~= old(parents)@);
                        let matched = match &end {
                            Some((_, end_el)) => is_bare_name_of(el.name, end_el.name),
                            None => false,
                        };
                        match end {
                            Some((end_at, end_el)) => {
                                if matched {
                                    let part = ContentPart::Element(
                                        Element {
                                            start_element: el,
                                            start_token: token,
                                            end_token: &tokens[end_at],
                                            children,
                                        },
                                    );
                                    proof {
                                        lemma_views_push(parts@, part);
                                        let rest = spec_tree(views, next as int, open);
                                        assert(before.push(part@) + rest.parts =~= before + (seq![part@]
                                            + rest.parts));
                                    }
                                    parts.push(part);
                                    at = next;
                                } else {
                                    let part = ContentPart::Text(Text { token });
                                    proof {
                                        lemma_views_push(parts@, part);
                                        lemma_views_concat(parts@.push(part), children@);
                                        assert(before.push(part@) + inner.parts =~= before + (seq![part@]
                                            + inner.parts));
                                    }
                                    parts.push(part);
                                    parts.append(&mut children);
                                    at = next;
                                    closer = Some((end_at, end_el));
                                    done = true;
                                }
                            },
                            None => {
                                let part = ContentPart::Text(Text { token });
                                proof {
                                    lemma_views_push(parts@, part);
                                    lemma_views_concat(parts@.push(part), children@);
                                    let rest = spec_tree(views, next as int, open);
                                    assert(before.push(part@) + inner.parts + rest.parts =~= before + ((
                                    seq![part@] + inner.parts) + rest.parts));
                                }
                                parts.push(part);
                                parts.append(&mut children);
                                at = next;
                            },
                        }
                    }
                },
            }
        }
    }
    (parts, at, closer)
}

/// Whether `name` is `full` without the slashes before it.
fn is_bare_name_of(name: &str, full: &str) -> (same: bool)
    ensures
        same == (name.spec_bytes() == bare_name(full.spec_bytes())),
{
    let bytes = full.as_bytes();
    let from = leading_slashes(bytes);
    tail_equals(bytes, from, name.as_bytes())
}

/// Builds the tree of directives that `tokens` spell. A directive is a tag
/// with the tag that closes it and the parts between the two; a tag that is
/// never closed, and a closing tag that closes nothing, stay text. The tree
/// holds every token once and in its place, and every directive in it, at
/// whatever depth, is a tag with the tag that closes it.
pub fn parse<'a, 'b, 'c, 'd>(tokens: &'d Vec<Token<'a, 'b, 'c>>) -> (parts: Vec<
    ContentPart<'a, 'b, 'c, 'd>,
>)
    ensures
        part_views(parts@) == spec_parse_tokens(token_views(tokens@)),
        flatten(part_views(parts@)) == token_views(tokens@),
        forall|node: NodeView|
            occurs(part_views(parts@), part_views(parts@).len(), node) ==> #[trigger] well_closed(node),
{
    let mut parents: Vec<&'a str> = Vec::new();
    proof {
        assert(names(parents@) =~= Seq::<Seq<u8>>::empty());
        lemma_parse_keeps_tokens(token_views(tokens@));
        assert forall|node: NodeView|
            occurs(
                spec_parse_tokens(token_views(tokens@)),
                spec_parse_tokens(token_views(tokens@)).len(),
                node,
            ) implies #[trigger] well_closed(node) by {
            lemma_parse_well_closed(token_views(tokens@), node);
        }
    }
    let (parts, _, _) = tree(tokens, 0, &mut parents);
    parts
}

} // verus!

//! The HTML parser: a single-pass recursive-descent parser over the
//! characters of the source, producing a document tree. Any mismatch —
//! an unexpected character, a truncated input, a bad attribute quote, a
//! closing tag that does not match — is a fatal parse error.

use vstd::prelude::*;
use crate::dom::{elem, text, AttrMap, ElementView, Node, NodeTypeView, NodeView, node_view,
    nodes_view, lemma_nodes_view};
use crate::strutil::{chars_to_string, str_chars};

verus! {

/// The error of the parsing stage.
#[derive(Clone, Copy, PartialEq, Eq, Structural, Debug)]
pub enum ParseError {
    /// The input does not continue with what the grammar demands here.
    UnexpectedInput,
    /// The input ends in the middle of a tag or attribute.
    UnexpectedEnd,
    /// An attribute value does not open with a quote.
    BadQuote,
    /// The closing tag names a different tag than the opening one.
    MismatchedCloseTag,
}

/// The whitespace the parser skips between nodes and attributes.
pub open spec fn is_space_char(c: char) -> bool {
    c == ' ' || c == '\t' || c == '\n' || c == '\r'
}

/// Tag and attribute names are ASCII alphanumerics.
pub open spec fn is_name_char(c: char) -> bool {
    ('a' <= c && c <= 'z') || ('A' <= c && c <= 'Z') || ('0' <= c && c <= '9')
}

/// The first position at or after `i` that holds no whitespace.
pub open spec fn ws_end(s: Seq<char>, i: int) -> int
    decreases s.len() - i when 0 <= i <= s.len()
{
    if i == s.len() {
        i
    } else if is_space_char(s[i]) {
        ws_end(s, i + 1)
    } else {
        i
    }
}

pub proof fn lemma_ws_end(s: Seq<char>, i: int)
    requires
        0 <= i <= s.len(),
    ensures
        i <= ws_end(s, i) <= s.len(),
        ws_end(s, i) < s.len() ==> !is_space_char(s[ws_end(s, i)]),
        forall|k: int| i <= k < ws_end(s, i) ==> is_space_char(s[k]),
    decreases s.len() - i,
{
    if i < s.len() && is_space_char(s[i]) {
        lemma_ws_end(s, i + 1);
    }
}

pub proof fn lemma_ws_end_is(s: Seq<char>, i: int, j: int)
    requires
        0 <= i <= j <= s.len(),
        forall|k: int| i <= k < j ==> is_space_char(s[k]),
        j < s.len() ==> !is_space_char(s[j]),
    ensures
        ws_end(s, i) == j,
    decreases j - i,
{
    if i < j {
        lemma_ws_end_is(s, i + 1, j);
    }
}

/// The first position at or after `i` that holds no name character.
pub open spec fn name_end(s: Seq<char>, i: int) -> int
    decreases s.len() - i when 0 <= i <= s.len()
{
    if i == s.len() {
        i
    } else if is_name_char(s[i]) {
        name_end(s, i + 1)
    } else {
        i
    }
}

pub proof fn lemma_name_end(s: Seq<char>, i: int)
    requires
        0 <= i <= s.len(),
    ensures
        i <= name_end(s, i) <= s.len(),
        name_end(s, i) < s.len() ==> !is_name_char(s[name_end(s, i)]),
        forall|k: int| i <= k < name_end(s, i) ==> is_name_char(s[k]),
    decreases s.len() - i,
{
    if i < s.len() && is_name_char(s[i]) {
        lemma_name_end(s, i + 1);
    }
}

pub proof fn lemma_name_end_is(s: Seq<char>, i: int, j: int)
    requires
        0 <= i <= j <= s.len(),
        forall|k: int| i <= k < j ==> is_name_char(s[k]),
        j < s.len() ==> !is_name_char(s[j]),
    ensures
        name_end(s, i) == j,
    decreases j - i,
{
    if i < j {
        lemma_name_end_is(s, i + 1, j);
    }
}

/// The first position at or after `i` that holds `stop`, or the length.
pub open spec fn until(s: Seq<char>, i: int, stop: char) -> int
    decreases s.len() - i when 0 <= i <= s.len()
{
    if i == s.len() {
        i
    } else if s[i] == stop {
        i
    } else {
        until(s, i + 1, stop)
    }
}

pub proof fn lemma_until(s: Seq<char>, i: int, stop: char)
    requires
        0 <= i <= s.len(),
    ensures
        i <= until(s, i, stop) <= s.len(),
        until(s, i, stop) < s.len() ==> s[until(s, i, stop)] == stop,
        forall|k: int| i <= k < until(s, i, stop) ==> s[k] != stop,
    decreases s.len() - i,
{
    if i < s.len() && s[i] != stop {
        lemma_until(s, i + 1, stop);
    }
}

pub proof fn lemma_until_is(s: Seq<char>, i: int, j: int, stop: char)
    requires
        0 <= i <= j <= s.len(),
        forall|k: int| i <= k < j ==> s[k] != stop,
        j < s.len() ==> s[j] == stop,
    ensures
        until(s, i, stop) == j,
    decreases j - i,
{
    if i < j {
        lemma_until_is(s, i + 1, j, stop);
    }
}

// ---------------------------------------------------------------------------
// What the parser accepts and produces, position by position.
// ---------------------------------------------------------------------------

/// A text node: everything up to the next `<` (or the end), verbatim.
pub open spec fn parse_text_at(s: Seq<char>, i: int) -> (NodeView, int)
    recommends
        0 <= i <= s.len(),
{
    let j = until(s, i, '<');
    (NodeView { children: Seq::empty(), node_type: NodeTypeView::Text(s.subrange(i, j)) }, j)
}

/// A quoted attribute value at `i`: an opening quote (`"` or `'`), the
/// characters up to the matching quote, and that closing quote.
pub open spec fn attr_value_at(s: Seq<char>, i: int) -> Result<(Seq<char>, int), ParseError>
    recommends
        0 <= i <= s.len(),
{
    if i >= s.len() {
        Result::Err(ParseError::UnexpectedEnd)
    } else {
        let quote = s[i];
        if quote != '"' && quote != '\'' {
            Result::Err(ParseError::BadQuote)
        } else {
            let e = until(s, i + 1, quote);
            if e >= s.len() {
                Result::Err(ParseError::UnexpectedEnd)
            } else {
                Result::Ok((s.subrange(i + 1, e), e + 1))
            }
        }
    }
}

/// One `name="value"` pair at `i`.
pub open spec fn attr_at(s: Seq<char>, i: int) -> Result<((Seq<char>, Seq<char>), int), ParseError>
    recommends
        0 <= i <= s.len(),
{
    let k = name_end(s, i);
    if !(k < s.len() && s[k] == '=') {
        Result::Err(ParseError::UnexpectedInput)
    } else {
        match attr_value_at(s, k + 1) {
            Result::Ok((v, p)) => Result::Ok(((s.subrange(i, k), v), p)),
            Result::Err(e) => Result::Err(e),
        }
    }
}

/// The attributes from `i` up to the closing `>` of the open tag, added to
/// `acc` in order (a repeated name overwrites). Stops just before the `>`.
pub open spec fn parse_attrs_at(
    s: Seq<char>,
    i: int,
    acc: Map<Seq<char>, Seq<char>>,
) -> Result<(Map<Seq<char>, Seq<char>>, int), ParseError>
    decreases s.len() - i, 0int when 0 <= i <= s.len() via parse_attrs_at_dec
{
    let j = ws_end(s, i);
    if j >= s.len() {
        Result::Err(ParseError::UnexpectedEnd)
    } else if s[j] == '>' {
        Result::Ok((acc, j))
    } else {
        match attr_at(s, j) {
            Result::Err(e) => Result::Err(e),
            Result::Ok(((nm, v), p)) => if j < p <= s.len() {
                parse_attrs_at(s, p, acc.insert(nm, v))
            } else {
                Result::Err(ParseError::UnexpectedInput)
            },
        }
    }
}

#[via_fn]
proof fn parse_attrs_at_dec(s: Seq<char>, i: int, acc: Map<Seq<char>, Seq<char>>) {
    lemma_ws_end(s, i);
}

/// An element at `i`: `<`, a tag name, attributes, `>`, child nodes, and a
/// closing `</`, the same tag name, `>`.
pub open spec fn parse_element_at(s: Seq<char>, i: int) -> Result<(NodeView, int), ParseError>
    decreases s.len() - i, 1int when 0 <= i <= s.len() via parse_element_at_dec
{
    if !(i < s.len() && s[i] == '<') {
        Result::Err(ParseError::UnexpectedInput)
    } else {
        let p2 = name_end(s, i + 1);
        let tag = s.subrange(i + 1, p2);
        match parse_attrs_at(s, p2, Map::empty()) {
            Result::Err(e) => Result::Err(e),
            Result::Ok((attrs, p3)) => if !(p2 <= p3 && p3 < s.len() && s[p3] == '>') {
                Result::Err(ParseError::UnexpectedInput)
            } else {
                match parse_nodes_at(s, p3 + 1, Seq::empty()) {
                    Result::Err(e) => Result::Err(e),
                    Result::Ok((children, p5)) => if !(p3 + 1 <= p5 <= s.len()) {
                        Result::Err(ParseError::UnexpectedInput)
                    } else if !(p5 + 2 <= s.len() && s[p5] == '<' && s[p5 + 1] == '/') {
                        Result::Err(ParseError::UnexpectedInput)
                    } else if !(p5 + 2 + tag.len() <= s.len() && s.subrange(
                        p5 + 2,
                        p5 + 2 + tag.len(),
                    ) == tag) {
                        Result::Err(ParseError::MismatchedCloseTag)
                    } else if !(p5 + 2 + tag.len() < s.len() && s[p5 + 2 + tag.len() as int]
                        == '>') {
                        Result::Err(ParseError::UnexpectedInput)
                    } else {
                        Result::Ok(
                            (
                                NodeView {
                                    children,
                                    node_type: NodeTypeView::Element(
                                        ElementView { tag_name: tag, attributes: attrs },
                                    ),
                                },
                                p5 + 3 + tag.len(),
                            ),
                        )
                    },
                }
            },
        }
    }
}

#[via_fn]
proof fn parse_element_at_dec(s: Seq<char>, i: int) {
    if i < s.len() && s[i] == '<' {
        lemma_name_end(s, i + 1);
    }
}

/// One node at `i`: an element if the input continues with `<`, a text
/// node otherwise.
pub open spec fn parse_node_at(s: Seq<char>, i: int) -> Result<(NodeView, int), ParseError>
    decreases s.len() - i, 2int when 0 <= i <= s.len()
{
    if i < s.len() && s[i] == '<' {
        parse_element_at(s, i)
    } else {
        Result::Ok(parse_text_at(s, i))
    }
}

/// Sibling nodes from `i`, added to `acc` in order: whitespace is skipped
/// before each node, and the sequence ends at the end of the input or at a
/// closing tag `</`.
pub open spec fn parse_nodes_at(s: Seq<char>, i: int, acc: Seq<NodeView>) -> Result<
    (Seq<NodeView>, int),
    ParseError,
>
    decreases s.len() - i, 3int when 0 <= i <= s.len() via parse_nodes_at_dec
{
    let j = ws_end(s, i);
    if j >= s.len() || (j + 2 <= s.len() && s[j] == '<' && s[j + 1] == '/') {
        Result::Ok((acc, j))
    } else {
        match parse_node_at(s, j) {
            Result::Err(e) => Result::Err(e),
            Result::Ok((nd, p)) => if j < p <= s.len() {
                parse_nodes_at(s, p, acc.push(nd))
            } else {
                Result::Err(ParseError::UnexpectedInput)
            },
        }
    }
}

#[via_fn]
proof fn parse_nodes_at_dec(s: Seq<char>, i: int, acc: Seq<NodeView>) {
    lemma_ws_end(s, i);
}

/// Law: a node sequence under construction round-trips through the walk of
/// the input. `parse_nodes_at` only ever appends: every node already
/// produced keeps its place as the walk moves right, so the children of an
/// element stand in document order — the order in which their text begins.
pub proof fn lemma_children_in_document_order(s: Seq<char>, i: int, acc: Seq<NodeView>)
    requires
        0 <= i <= s.len(),
    ensures
        match parse_nodes_at(s, i, acc) {
            Result::Ok((nodes, _)) => nodes.len() >= acc.len() && nodes.subrange(
                0,
                acc.len() as int,
            ) == acc,
            Result::Err(_) => true,
        },
    decreases s.len() - i,
{
    lemma_ws_end(s, i);
    let j = ws_end(s, i);
    if !(j >= s.len() || (j + 2 <= s.len() && s[j] == '<' && s[j + 1] == '/')) {
        match parse_node_at(s, j) {
            Result::Err(_) => {},
            Result::Ok((nd, p)) => {
                if j < p <= s.len() {
                    lemma_children_in_document_order(s, p, acc.push(nd));
                    match parse_nodes_at(s, p, acc.push(nd)) {
                        Result::Ok((nodes, _)) => {
                            assert(nodes.subrange(0, acc.len() as int) =~= nodes.subrange(
                                0,
                                acc.len() as int + 1,
                            ).subrange(0, acc.len() as int));
                            assert(acc.push(nd).subrange(0, acc.len() as int) =~= acc);
                        },
                        Result::Err(_) => {},
                    }
                }
            },
        }
    } else {
        assert(acc.subrange(0, acc.len() as int) =~= acc);
    }
}

/// What `parse` yields on a source text: the nodes at the top level; the
/// single node if there is exactly one, else a synthetic `html` element
/// wrapping them.
pub open spec fn parse_spec(s: Seq<char>) -> Result<NodeView, ParseError> {
    match parse_nodes_at(s, 0, Seq::empty()) {
        Result::Err(e) => Result::Err(e),
        Result::Ok((nodes, _)) => if nodes.len() == 1 {
            Result::Ok(nodes[0])
        } else {
            Result::Ok(
                NodeView {
                    children: nodes,
                    node_type: NodeTypeView::Element(
                        ElementView { tag_name: "html"@, attributes: Map::empty() },
                    ),
                },
            )
        },
    }
}

// ---------------------------------------------------------------------------
// The executable parser.
// ---------------------------------------------------------------------------

/// Whether `c` is whitespace the parser skips.
fn is_space(c: char) -> (r: bool)
    ensures
        r == is_space_char(c),
{
    c == ' ' || c == '\t' || c == '\n' || c == '\r'
}

/// Whether `c` may stand in a tag or attribute name.
fn is_name(c: char) -> (r: bool)
    ensures
        r == is_name_char(c),
{
    ('a' <= c && c <= 'z') || ('A' <= c && c <= 'Z') || ('0' <= c && c <= '9')
}

/// The parser: a cursor over the characters of the input.
struct Parser {
    pos: usize,
    input: Vec<char>,
}

impl Parser {
    #[verifier::type_invariant]
    spec fn wf(self) -> bool {
        self.pos <= self.input.len()
    }

    /// Read the current character without consuming it.
    fn next_char(&self) -> (c: char)
        requires
            self.pos < self.input@.len(),
        ensures
            c == self.input@[self.pos as int],
    {
        self.input[self.pos]
    }

    /// Do the next characters start with the given string?
    #[verifier::loop_isolation(false)]
    fn starts_with(&self, s: &str) -> (r: bool)
        ensures
            r == (self.pos + s@.len() <= self.input@.len() && self.input@.subrange(
                self.pos as int,
                self.pos + s@.len(),
            ) == s@),
    {
        proof {
            use_type_invariant(self);
        }
        let cs = str_chars(s);
        let n = cs.len();
        if n > self.input.len() - self.pos {
            proof {
                assert(self.pos + s@.len() > self.input@.len());
            }
            return false;
        }
        let mut k: usize = 0;
        while k < n
            invariant
                n == cs.len(),
                cs@ == s@,
                k <= n,
                self.pos + n <= self.input@.len(),
                forall|t: int|
                    0 <= t < k ==> self.input@[self.pos + t] == s@[t],
            decreases n - k,
        {
            if self.input[self.pos + k] != cs[k] {
                proof {
                    assert(self.input@.subrange(self.pos as int, self.pos + s@.len())[k as int]
                        != s@[k as int]);
                }
                return false;
            }
            k = k + 1;
        }
        proof {
            assert(self.input@.subrange(self.pos as int, self.pos + s@.len()) =~= s@);
        }
        true
    }

    /// If the exact string `s` is found at the current position, consume
    /// it and report success; otherwise leave the cursor alone.
    fn expect(&mut self, s: &str) -> (r: bool)
        ensures
            final(self).input == old(self).input,
            r == (old(self).pos + s@.len() <= old(self).input@.len() && old(
                self,
            ).input@.subrange(old(self).pos as int, old(self).pos + s@.len()) == s@),
            r ==> final(self).pos == old(self).pos + s@.len(),
            !r ==> final(self).pos == old(self).pos,
    {
        proof {
            use_type_invariant(&*self);
        }
        if self.starts_with(s) {
            let n = s.unicode_len();
            self.pos = self.pos + n;
            true
        } else {
            false
        }
    }

    /// Return true if all input is consumed.
    fn eof(&self) -> (r: bool)
        ensures
            r == (self.pos >= self.input@.len()),
    {
        self.pos >= self.input.len()
    }

    /// Return the current character, and advance past it.
    fn consume_char(&mut self) -> (c: char)
        requires
            old(self).pos < old(self).input@.len(),
        ensures
            final(self).input == old(self).input,
            final(self).pos == old(self).pos + 1,
            c == old(self).input@[old(self).pos as int],
    {
        proof {
            use_type_invariant(&*self);
        }
        let c = self.next_char();
        self.pos = self.pos + 1;
        c
    }

    /// Consume and discard zero or more whitespace characters.
    #[verifier::loop_isolation(false)]
    fn consume_whitespace(&mut self)
        ensures
            final(self).input == old(self).input,
            old(self).pos <= final(self).pos <= final(self).input@.len(),
            final(self).pos == ws_end(old(self).input@, old(self).pos as int),
    {
        proof {
            use_type_invariant(&*self);
        }
        let ghost start = self.pos as int;
        let ghost s = self.input@;
        loop
            invariant
                self.input == old(self).input,
                self.input@ == s,
                start <= self.pos <= s.len(),
                forall|k: int| start <= k < self.pos ==> is_space_char(s[k]),
            decreases s.len() - self.pos,
        {
            if self.eof() {
                break;
            }
            if !is_space(self.next_char()) {
                break;
            }
            self.pos = self.pos + 1;
        }
        proof {
            lemma_ws_end_is(s, start, self.pos as int);
        }
    }

    /// Parse a tag or attribute name: a run of ASCII alphanumerics.
    #[verifier::loop_isolation(false)]
    fn parse_name(&mut self) -> (r: String)
        ensures
            final(self).input == old(self).input,
            old(self).pos <= final(self).pos <= final(self).input@.len(),
            final(self).pos == name_end(old(self).input@, old(self).pos as int),
            r@ == old(self).input@.subrange(old(self).pos as int, final(self).pos as int),
    {
        proof {
            use_type_invariant(&*self);
        }
        let ghost start = self.pos as int;
        let ghost s = self.input@;
        let mut out: Vec<char> = Vec::new();
        loop
            invariant
                self.input == old(self).input,
                self.input@ == s,
                start <= self.pos <= s.len(),
                forall|k: int| start <= k < self.pos ==> is_name_char(s[k]),
                out@ == s.subrange(start, self.pos as int),
            decreases s.len() - self.pos,
        {
            if self.eof() {
                break;
            }
            let c = self.next_char();
            if !is_name(c) {
                break;
            }
            out.push(c);
            self.pos = self.pos + 1;
            proof {
                assert(out@ =~= s.subrange(start, self.pos as int));
            }
        }
        proof {
            lemma_name_end_is(s, start, self.pos as int);
        }
        chars_to_string(out)
    }

    /// Parse a text node: everything up to the next `<`.
    #[verifier::loop_isolation(false)]
    fn parse_text(&mut self) -> (r: Node)
        ensures
            final(self).input == old(self).input,
            old(self).pos <= final(self).pos <= final(self).input@.len(),
            parse_text_at(old(self).input@, old(self).pos as int) == (
                node_view(r),
                final(self).pos as int,
            ),
    {
        proof {
            use_type_invariant(&*self);
        }
        let ghost start = self.pos as int;
        let ghost s = self.input@;
        let mut out: Vec<char> = Vec::new();
        loop
            invariant
                self.input == old(self).input,
                self.input@ == s,
                start <= self.pos <= s.len(),
                forall|k: int| start <= k < self.pos ==> s[k] != '<',
                out@ == s.subrange(start, self.pos as int),
            decreases s.len() - self.pos,
        {
            if self.eof() {
                break;
            }
            let c = self.next_char();
            if c == '<' {
                break;
            }
            out.push(c);
            self.pos = self.pos + 1;
            proof {
                assert(out@ =~= s.subrange(start, self.pos as int));
            }
        }
        proof {
            lemma_until_is(s, start, self.pos as int, '<');
        }
        text(chars_to_string(out))
    }

    /// Parse a quoted value: an opening quote, the characters up to the
    /// matching quote, and that quote.
    #[verifier::loop_isolation(false)]
    fn parse_attr_value(&mut self) -> (r: Result<String, ParseError>)
        ensures
            final(self).input == old(self).input,
            old(self).pos <= final(self).pos <= final(self).input@.len(),
            match r {
                Result::Ok(v) => attr_value_at(old(self).input@, old(self).pos as int)
                    == Result::Ok::<(Seq<char>, int), ParseError>((v@, final(self).pos as int)),
                Result::Err(e) => attr_value_at(old(self).input@, old(self).pos as int)
                    == Result::Err::<(Seq<char>, int), ParseError>(e),
            },
    {
        proof {
            use_type_invariant(&*self);
        }
        if self.eof() {
            return Result::Err(ParseError::UnexpectedEnd);
        }
        let open_quote = self.consume_char();
        if !(open_quote == '"' || open_quote == '\'') {
            return Result::Err(ParseError::BadQuote);
        }
        let ghost s = self.input@;
        let ghost start = self.pos as int;
        let mut out: Vec<char> = Vec::new();
        loop
            invariant
                self.input == old(self).input,
                self.input@ == s,
                start <= self.pos <= s.len(),
                forall|k: int| start <= k < self.pos ==> s[k] != open_quote,
                out@ == s.subrange(start, self.pos as int),
            decreases s.len() - self.pos,
        {
            if self.eof() {
                break;
            }
            let c = self.next_char();
            if c == open_quote {
                break;
            }
            out.push(c);
            self.pos = self.pos + 1;
            proof {
                assert(out@ =~= s.subrange(start, self.pos as int));
            }
        }
        proof {
            lemma_until_is(s, start, self.pos as int, open_quote);
        }
        if self.eof() {
            return Result::Err(ParseError::UnexpectedEnd);
        }
        let close_quote = self.consume_char();
        proof {
            assert(close_quote == open_quote);
        }
        Result::Ok(chars_to_string(out))
    }

    /// Parse a single `name="value"` pair.
    fn parse_attr(&mut self) -> (r: Result<(String, String), ParseError>)
        ensures
            final(self).input == old(self).input,
            old(self).pos <= final(self).pos <= final(self).input@.len(),
            match r {
                Result::Ok(p) => attr_at(old(self).input@, old(self).pos as int)
                    == Result::Ok::<((Seq<char>, Seq<char>), int), ParseError>(
                    ((p.0@, p.1@), final(self).pos as int),
                ),
                Result::Err(e) => attr_at(old(self).input@, old(self).pos as int)
                    == Result::Err::<((Seq<char>, Seq<char>), int), ParseError>(e),
            },
    {
        proof {
            use_type_invariant(&*self);
        }
        let ghost s = old(self).input@;
        let name = self.parse_name();
        let ghost k = self.pos as int;
        proof {
            lemma_name_end(s, old(self).pos as int);
            assert("="@ =~= seq!['=']) by {
                reveal_strlit("=");
            }
            lemma_one_char(s, k, "="@, '=');
        }
        if !self.expect("=") {
            return Result::Err(ParseError::UnexpectedInput);
        }
        match self.parse_attr_value() {
            Result::Ok(value) => Result::Ok((name, value)),
            Result::Err(e) => Result::Err(e),
        }
    }

    /// Parse the attribute list of an open tag, stopping at the `>`.
    #[verifier::loop_isolation(false)]
    fn parse_attributes(&mut self) -> (r: Result<AttrMap, ParseError>)
        ensures
            final(self).input == old(self).input,
            old(self).pos <= final(self).pos <= final(self).input@.len(),
            match r {
                Result::Ok(attrs) => parse_attrs_at(
                    old(self).input@,
                    old(self).pos as int,
                    Map::empty(),
                ) == Result::Ok::<(Map<Seq<char>, Seq<char>>, int), ParseError>((attrs@, final(self).pos as int)),
                Result::Err(e) => parse_attrs_at(
                    old(self).input@,
                    old(self).pos as int,
                    Map::empty(),
                ) == Result::Err::<(Map<Seq<char>, Seq<char>>, int), ParseError>(e),
            },
    {
        proof {
            use_type_invariant(&*self);
        }
        let ghost s = old(self).input@;
        let mut attributes = AttrMap::new();
        loop
            invariant
                self.input == old(self).input,
                self.input@ == s,
                old(self).pos <= self.pos <= s.len(),
                parse_attrs_at(s, old(self).pos as int, Map::empty()) == parse_attrs_at(
                    s,
                    self.pos as int,
                    attributes@,
                ),
            decreases s.len() - self.pos,
        {
            let ghost before = self.pos as int;
            self.consume_whitespace();
            proof {
                lemma_ws_end(s, before);
            }
            if self.eof() {
                return Result::Err(ParseError::UnexpectedEnd);
            }
            if self.next_char() == '>' {
                return Result::Ok(attributes);
            }
            let ghost j = self.pos as int;
            proof {
                lemma_attr_pos(s, j);
            }
            match self.parse_attr() {
                Result::Ok((name, value)) => {
                    attributes.insert(name, value);
                },
                Result::Err(e) => {
                    return Result::Err(e);
                },
            }
        }
    }

    /// Parse a single node: an element after `<`, text otherwise.
    fn parse_node(&mut self) -> (r: Result<Node, ParseError>)
        ensures
            final(self).input == old(self).input,
            old(self).pos <= final(self).pos <= final(self).input@.len(),
            match r {
                Result::Ok(nd) => parse_node_at(old(self).input@, old(self).pos as int)
                    == Result::Ok::<(NodeView, int), ParseError>((node_view(nd), final(self).pos as int)),
                Result::Err(e) => parse_node_at(old(self).input@, old(self).pos as int)
                    == Result::Err::<(NodeView, int), ParseError>(e),
            },
            (r is Ok && old(self).pos < old(self).input@.len()) ==> final(self).pos > old(
                self,
            ).pos,
        decreases old(self).input@.len() - old(self).pos, 2int,
    {
        proof {
            use_type_invariant(&*self);
            reveal_strlit("<");
            lemma_until(self.input@, self.pos as int, '<');
        }
        if self.starts_with("<") {
            proof {
                assert(self.input@.subrange(self.pos as int, self.pos + 1)[0]
                    == self.input@[self.pos as int]);
                assert("<"@[0] == '<') by {
                    reveal_strlit("<");
                }
            }
            self.parse_element()
        } else {
            proof {
                if self.pos < self.input@.len() {
                    assert(self.input@.subrange(self.pos as int, self.pos + 1)
                        =~= seq![self.input@[self.pos as int]]);
                    assert("<"@ =~= seq!['<']) by {
                        reveal_strlit("<");
                    }
                }
            }
            Result::Ok(self.parse_text())
        }
    }

    /// Parse a single element: open tag, attributes, children, close tag.
    fn parse_element(&mut self) -> (r: Result<Node, ParseError>)
        requires
            old(self).pos < old(self).input@.len(),
            old(self).input@[old(self).pos as int] == '<',
        ensures
            final(self).input == old(self).input,
            old(self).pos <= final(self).pos <= final(self).input@.len(),
            r is Ok ==> old(self).pos < final(self).pos,
            match r {
                Result::Ok(nd) => parse_element_at(old(self).input@, old(self).pos as int)
                    == Result::Ok::<(NodeView, int), ParseError>((node_view(nd), final(self).pos as int)),
                Result::Err(e) => parse_element_at(old(self).input@, old(self).pos as int)
                    == Result::Err::<(NodeView, int), ParseError>(e),
            },
        decreases old(self).input@.len() - old(self).pos, 1int,
    {
        proof {
            use_type_invariant(&*self);
        }
        let ghost s = old(self).input@;
        let ghost i = old(self).pos as int;

        // Opening tag.
        self.consume_char();
        let tag_name = self.parse_name();
        let ghost p2 = self.pos as int;
        proof {
            lemma_name_end(s, i + 1);
        }
        let attrs = match self.parse_attributes() {
            Result::Ok(a) => a,
            Result::Err(e) => {
                return Result::Err(e);
            },
        };
        let ghost p3 = self.pos as int;
        proof {
            lemma_attrs_pos(s, p2, Map::empty());
        }
        if self.eof() || self.next_char() != '>' {
            return Result::Err(ParseError::UnexpectedInput);
        }
        self.consume_char();

        // Contents.
        let children = match self.parse_nodes() {
            Result::Ok(cs) => cs,
            Result::Err(e) => {
                return Result::Err(e);
            },
        };
        let ghost p5 = self.pos as int;
        let ghost tag = s.subrange(i + 1, p2);
        proof {
            assert(tag_name@ == tag);
            assert(parse_nodes_at(s, p3 + 1, Seq::empty())
                == Result::Ok::<(Seq<NodeView>, int), ParseError>((nodes_view(children@), p5)));
            lemma_close_tag(s, p5);
        }

        // Closing tag.
        proof {
            assert("</"@.len() == 2) by {
                reveal_strlit("</");
            }
        }
        if !self.expect("</") {
            return Result::Err(ParseError::UnexpectedInput);
        }
        proof {
            assert(self.pos == p5 + 2);
        }
        if !self.expect(tag_name.as_str()) {
            return Result::Err(ParseError::MismatchedCloseTag);
        }
        proof {
            assert(self.pos == p5 + 2 + tag.len());
            assert(s.subrange(p5 + 2, p5 + 2 + tag.len() as int) == tag);
        }
        if self.eof() || self.next_char() != '>' {
            return Result::Err(ParseError::UnexpectedInput);
        }
        self.consume_char();
        proof {
            assert(self.pos == p5 + 3 + tag.len());
        }

        let nd = elem(tag_name, attrs, children);
        proof {
            assert(node_view(nd) == (NodeView {
                children: nodes_view(children@),
                node_type: NodeTypeView::Element(
                    ElementView { tag_name: tag, attributes: attrs@ },
                ),
            }));
            assert(parse_element_at(s, i) == Result::Ok::<(NodeView, int), ParseError>(
                (node_view(nd), p5 + 3 + tag.len()),
            ));
        }
        Result::Ok(nd)
    }

    /// Parse a sequence of sibling nodes, up to the end of the input or a
    /// closing tag.
    #[verifier::loop_isolation(false)]
    fn parse_nodes(&mut self) -> (r: Result<Vec<Node>, ParseError>)
        ensures
            final(self).input == old(self).input,
            old(self).pos <= final(self).pos <= final(self).input@.len(),
            match r {
                Result::Ok(nodes) => parse_nodes_at(
                    old(self).input@,
                    old(self).pos as int,
                    Seq::empty(),
                ) == Result::Ok::<(Seq<NodeView>, int), ParseError>((nodes_view(nodes@), final(self).pos as int)),
                Result::Err(e) => parse_nodes_at(
                    old(self).input@,
                    old(self).pos as int,
                    Seq::empty(),
                ) == Result::Err::<(Seq<NodeView>, int), ParseError>(e),
            },
        decreases old(self).input@.len() - old(self).pos, 3int,
    {
        proof {
            use_type_invariant(&*self);
        }
        let ghost s = old(self).input@;
        let mut nodes: Vec<Node> = Vec::new();
        loop
            invariant
                self.input == old(self).input,
                self.input@ == s,
                old(self).pos <= self.pos <= s.len(),
                parse_nodes_at(s, old(self).pos as int, Seq::empty()) == parse_nodes_at(
                    s,
                    self.pos as int,
                    nodes_view(nodes@),
                ),
            decreases s.len() - self.pos,
        {
            let ghost before = self.pos as int;
            self.consume_whitespace();
            proof {
                lemma_ws_end(s, before);
                reveal_strlit("</");
            }
            if self.eof() || self.starts_with("</") {
                proof {
                    if !(self.pos >= s.len()) {
                        assert(s.subrange(self.pos as int, self.pos + 2)[0]
                            == s[self.pos as int]);
                        assert(s.subrange(self.pos as int, self.pos + 2)[1]
                            == s[self.pos as int + 1]);
                        assert("</"@[0] == '<' && "</"@[1] == '/') by {
                            reveal_strlit("</");
                        }
                    }
                }
                return Result::Ok(nodes);
            }
            proof {
                lemma_close_tag(s, self.pos as int);
            }
            match self.parse_node() {
                Result::Ok(nd) => {
                    proof {
                        assert(nodes@.push(nd).drop_last() =~= nodes@);
                    }
                    nodes.push(nd);
                },
                Result::Err(e) => {
                    return Result::Err(e);
                },
            }
        }
    }
}

/// The one-character prefix test agrees with its subrange form.
proof fn lemma_one_char(s: Seq<char>, j: int, t: Seq<char>, c: char)
    requires
        0 <= j <= s.len(),
        t =~= seq![c],
    ensures
        (j + 1 <= s.len() && s.subrange(j, j + 1) == t) == (j < s.len() && s[j] == c),
{
    if j < s.len() {
        assert(s.subrange(j, j + 1)[0] == s[j]);
        if s[j] == c {
            assert(s.subrange(j, j + 1) =~= t);
        }
    }
}

/// A successful attribute parse lands strictly later, within the input.
proof fn lemma_attr_pos(s: Seq<char>, i: int)
    requires
        0 <= i <= s.len(),
    ensures
        match attr_at(s, i) {
            Result::Ok((a, p)) => i < p <= s.len(),
            Result::Err(_) => true,
        },
{
    lemma_name_end(s, i);
    let k = name_end(s, i);
    if k < s.len() && s[k] == '=' {
        if k + 1 < s.len() {
            let quote = s[k + 1];
            lemma_until(s, k + 2, quote);
        }
    }
}

/// At a position that is not the end and does not open a closing tag, the
/// two-character test of `</` agrees with its subrange form.
proof fn lemma_close_tag(s: Seq<char>, j: int)
    requires
        0 <= j <= s.len(),
    ensures
        (j + 2 <= s.len() && s.subrange(j, j + 2) == "</"@) == (j + 2 <= s.len() && s[j] == '<'
            && s[j + 1] == '/'),
{
    reveal_strlit("</");
    if j + 2 <= s.len() {
        assert(s.subrange(j, j + 2)[0] == s[j]);
        assert(s.subrange(j, j + 2)[1] == s[j + 1]);
        if s[j] == '<' && s[j + 1] == '/' {
            assert(s.subrange(j, j + 2) =~= "</"@);
        }
    }
}

/// The position where a successful attribute scan stops is no earlier than
/// where it began.
proof fn lemma_attrs_pos(s: Seq<char>, i: int, acc: Map<Seq<char>, Seq<char>>)
    requires
        0 <= i <= s.len(),
    ensures
        match parse_attrs_at(s, i, acc) {
            Result::Ok((a, p)) => i <= p < s.len() && s[p] == '>',
            Result::Err(_) => true,
        },
    decreases s.len() - i,
{
    lemma_ws_end(s, i);
    let j = ws_end(s, i);
    if j < s.len() && s[j] != '>' {
        match attr_at(s, j) {
            Result::Ok(((nm, v), p)) => {
                if j < p <= s.len() {
                    lemma_attrs_pos(s, p, acc.insert(nm, v));
                }
            },
            Result::Err(_) => {},
        }
    }
}

/// Parse an HTML document and return the root element: the single
/// top-level node if there is exactly one, else a synthetic `html` element
/// wrapping the top-level nodes.
pub fn parse(source: String) -> (r: Result<Node, ParseError>)
    ensures
        match r {
            Result::Ok(nd) => parse_spec(source@) == Result::Ok::<NodeView, ParseError>(node_view(nd)),
            Result::Err(e) => parse_spec(source@) == Result::Err::<NodeView, ParseError>(e),
        },
{
    let input = str_chars(source.as_str());
    let mut parser = Parser { pos: 0, input };
    let mut nodes = match parser.parse_nodes() {
        Result::Ok(ns) => ns,
        Result::Err(e) => {
            return Result::Err(e);
        },
    };
    proof {
        lemma_nodes_view(nodes@);
    }
    if nodes.len() == 1 {
        let nd = nodes.remove(0);
        Result::Ok(nd)
    } else {
        Result::Ok(elem("html".to_owned(), AttrMap::new(), nodes))
    }
}

} // verus!

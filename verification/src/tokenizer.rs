//! Splitting source text into located tokens.

use crate::text::{decimal, decimal_text, same_text, slice_text, span_text};
use regex::Regex;
use vstd::prelude::*;
use vstd::string::StringExecFns;
use vstd::utf8::{decode_utf8, encode_utf8, encode_utf8_decode_utf8, is_char_boundary};

verus! {

/// What a token is.
#[derive(Debug)]
pub enum TokenType<'a> {
    LeftParen,
    RightParen,
    LambdaStart,
    Identifier(&'a str),
    WhiteSpace,
    EndOfFile,
}

/// A place in the source text; lines and columns count from one, columns in
/// bytes.
#[derive(Debug, Clone, Copy)]
pub struct Location {
    pub line_no: usize,
    pub column_no: usize,
}

/// A piece of the source text with its kind and the place where it starts.
#[derive(Debug)]
pub struct Token<'a> {
    pub token_type: TokenType<'a>,
    pub location: Location,
    pub token_raw: &'a str,
}

/// The kind of a token, without its text.
pub enum TokenKind {
    LeftParen,
    RightParen,
    LambdaStart,
    Identifier,
    WhiteSpace,
    EndOfFile,
}

/// A token as a plain value: its kind, its place and its text.
pub ghost struct TokenView {
    pub kind: TokenKind,
    pub line: nat,
    pub column: nat,
    pub raw: Seq<char>,
}

impl<'a> TokenType<'a> {
    /// What the token is, without its text.
    pub open spec fn kind(self) -> TokenKind {
        match self {
            TokenType::LeftParen => TokenKind::LeftParen,
            TokenType::RightParen => TokenKind::RightParen,
            TokenType::LambdaStart => TokenKind::LambdaStart,
            TokenType::Identifier(_) => TokenKind::Identifier,
            TokenType::WhiteSpace => TokenKind::WhiteSpace,
            TokenType::EndOfFile => TokenKind::EndOfFile,
        }
    }
}

impl<'a> View for Token<'a> {
    type V = TokenView;

    open spec fn view(&self) -> TokenView {
        TokenView {
            kind: self.token_type.kind(),
            line: self.location.line_no as nat,
            column: self.location.column_no as nat,
            raw: self.token_raw@,
        }
    }
}

/// The tokens as plain values.
pub open spec fn views_of<'a>(tokens: Seq<&'a Token<'a>>) -> Seq<TokenView> {
    Seq::new(tokens.len(), |i: int| tokens[i]@)
}

/// The tokens as plain values.
pub open spec fn token_views<'a>(tokens: Seq<Token<'a>>) -> Seq<TokenView> {
    Seq::new(tokens.len(), |i: int| tokens[i]@)
}

impl<'a> Token<'a> {
    /// Whether an identifier's name is the token's text.
    pub open spec fn wf(self) -> bool {
        self.token_type matches TokenType::Identifier(name) ==> name@ == self.token_raw@
    }
}

/// The pattern that one piece of source text matches: a parenthesis or a
/// backslash, a line feed, a run of other white space, or a run of anything
/// else.
pub const TOKEN_PATTERN: &'static str = r"[()\\]|\n|[[:space:]&&[^\n]]+|[[:^space:]&&[^()\\]]+";

/// What the pattern matcher finds: the successive matches of `pattern` in
/// `text` that do not overlap, each as the byte offsets of its start and its
/// end, or `None` where it refuses `pattern`.
pub uninterp spec fn pattern_matches(pattern: Seq<char>, text: Seq<char>) -> Option<
    Seq<(usize, usize)>,
>;

/// Whether `c` has the Unicode property White_Space: the controls from tab
/// to carriage return, the space, the next-line control, the no-break space
/// and the spaces and separators of the general punctuation block and
/// beyond.
pub open spec fn white_space(c: char) -> bool {
    let code: u32 = c as u32;
    ||| 0x09 <= code <= 0x0D
    ||| code == 0x20
    ||| code == 0x85
    ||| code == 0xA0
    ||| code == 0x1680
    ||| 0x2000 <= code <= 0x200A
    ||| code == 0x2028
    ||| code == 0x2029
    ||| code == 0x202F
    ||| code == 0x205F
    ||| code == 0x3000
}

/// Compiles `pattern` with `regex::Regex::new`, walks over `text` with
/// `Regex::find_iter` and hands back the byte offsets of each match
/// (`Match::start`, `Match::end`), or `None` where the pattern is refused.
/// Believed without proof: that what comes back depends on the two texts
/// alone. `pattern_matches` is the name of that result; nothing else is
/// claimed of it.
#[verifier::external_body]
fn find_matches(pattern: &str, text: &str) -> (spans: Option<Vec<(usize, usize)>>)
    ensures
        match spans {
            Some(found) => pattern_matches(pattern@, text@) == Some(found@),
            None => pattern_matches(pattern@, text@) is None,
        },
{
    match Regex::new(pattern) {
        Ok(compiled) => Some(compiled.find_iter(text).map(|m| (m.start(), m.end())).collect()),
        Err(_) => None,
    }
}

/// Asks `char::is_whitespace`, which tells whether a character has the
/// Unicode property White_Space. Believed without proof: that its answer is
/// `white_space`, the list of the code points with that property.
#[verifier::external_body]
pub(crate) fn char_is_whitespace(c: char) -> (white: bool)
    ensures
        white == white_space(c),
{
    c.is_whitespace()
}

/// Whether `text` is white space throughout.
pub open spec fn all_white_space(text: Seq<char>) -> bool {
    forall|i: int| 0 <= i < text.len() ==> white_space(#[trigger] text[i])
}

/// The kind of the token with the given text.
pub open spec fn classify(raw: Seq<char>) -> TokenKind {
    if raw.len() == 0 {
        TokenKind::EndOfFile
    } else if all_white_space(raw) {
        TokenKind::WhiteSpace
    } else if raw == "("@ {
        TokenKind::LeftParen
    } else if raw == ")"@ {
        TokenKind::RightParen
    } else if raw == "\\"@ {
        TokenKind::LambdaStart
    } else {
        TokenKind::Identifier
    }
}

/// The place behind a piece of text that starts at `place`: the start of the
/// next line behind a line feed, else as many columns on as the piece has
/// bytes.
pub open spec fn advance(place: (nat, nat), raw: Seq<char>) -> (nat, nat) {
    if raw == "\n"@ {
        (place.0 + 1, 1)
    } else {
        (place.0, place.1 + encode_utf8(raw).len())
    }
}

/// The place behind `pieces`, where the first starts at line 1, column 1.
pub open spec fn place_after(pieces: Seq<Seq<char>>) -> (nat, nat)
    decreases pieces.len(),
{
    if pieces.len() == 0 {
        (1, 1)
    } else {
        advance(place_after(pieces.drop_last()), pieces.last())
    }
}

/// The tokens of `pieces`: each piece with its kind and the place where it
/// starts.
pub open spec fn tokens_of(pieces: Seq<Seq<char>>) -> Seq<TokenView> {
    Seq::new(
        pieces.len(),
        |i: int|
            TokenView {
                kind: classify(pieces[i]),
                line: place_after(pieces.take(i)).0,
                column: place_after(pieces.take(i)).1,
                raw: pieces[i],
            },
    )
}

/// The pieces of `code` that `spans` cut out.
pub open spec fn pieces(code: Seq<char>, spans: Seq<(usize, usize)>) -> Seq<Seq<char>> {
    Seq::new(spans.len(), |i: int| span_text(code, spans[i].0 as int, spans[i].1 as int))
}

/// Whether `spans` lie in `code` one behind the other, none of them empty,
/// each from one character boundary to another.
pub open spec fn fits(code: Seq<char>, spans: Seq<(usize, usize)>) -> bool {
    forall|i: int|
        0 <= i < spans.len() ==> {
            &&& (#[trigger] spans[i]).0 < spans[i].1 <= encode_utf8(code).len()
            &&& is_char_boundary(encode_utf8(code), spans[i].0 as int)
            &&& is_char_boundary(encode_utf8(code), spans[i].1 as int)
            &&& i > 0 ==> spans[i - 1].1 <= spans[i].0
        }
}

/// Whether `text` is white space throughout.
fn is_whitespace(text: &str) -> (white: bool)
    ensures
        white == all_white_space(text@),
{
    let mut white = true;
    for c in it: text.chars()
        invariant
            it.seq() == text@,
            white == all_white_space(text@.take(it.index())),
    {
        proof {
            let shorter = text@.take(it.index());
            let longer = text@.take(it.index() + 1);
            assert(longer[it.index()] == c);
            if all_white_space(longer) {
                assert forall|i: int| 0 <= i < shorter.len() implies white_space(
                    #[trigger] shorter[i],
                ) by {
                    assert(longer[i] == shorter[i]);
                }
            }
            if all_white_space(shorter) && white_space(c) {
                assert forall|i: int| 0 <= i < longer.len() implies white_space(
                    #[trigger] longer[i],
                ) by {
                    if i < shorter.len() {
                        assert(longer[i] == shorter[i]);
                    }
                }
            }
        }
        if !char_is_whitespace(c) {
            white = false;
        }
    }
    proof {
        assert(text@.take(text@.len() as int) =~= text@);
    }
    white
}

fn token_type_of<'a>(raw: &'a str) -> (token_type: TokenType<'a>)
    ensures
        token_type.kind() == classify(raw@),
        token_type matches TokenType::Identifier(name) ==> name@ == raw@,
{
    if raw.is_empty() {
        TokenType::EndOfFile
    } else if is_whitespace(raw) {
        TokenType::WhiteSpace
    } else if same_text(raw, "(") {
        TokenType::LeftParen
    } else if same_text(raw, ")") {
        TokenType::RightParen
    } else if same_text(raw, "\\") {
        TokenType::LambdaStart
    } else {
        TokenType::Identifier(raw)
    }
}

/// Whether `spans` lie in `code` one behind the other, none of them empty,
/// each from one character boundary to another.
pub fn spans_fit(code: &str, spans: &Vec<(usize, usize)>) -> (fit: bool)
    ensures
        fit == fits(code@, spans@),
{
    let mut previous: usize = 0;
    let mut i: usize = 0;
    while i < spans.len()
        invariant
            i <= spans.len(),
            i > 0 ==> previous == spans[i - 1].1,
            fits(code@, spans@.take(i as int)),
        decreases spans.len() - i,
    {
        let (start, end) = spans[i];
        let here = start < end && end <= code.as_bytes().len() && code.is_char_boundary(start)
            && code.is_char_boundary(end) && (i == 0 || previous <= start);
        if !here {
            proof {
                if fits(code@, spans@) {
                    assert(spans@[i as int].0 < spans@[i as int].1);
                }
            }
            return false;
        }
        previous = end;
        proof {
            assert forall|k: int| 0 <= k < i + 1 implies {
                &&& (#[trigger] spans@.take(i + 1)[k]).0 < spans@.take(i + 1)[k].1 <= encode_utf8(
                    code@,
                ).len()
                &&& is_char_boundary(encode_utf8(code@), spans@.take(i + 1)[k].0 as int)
                &&& is_char_boundary(encode_utf8(code@), spans@.take(i + 1)[k].1 as int)
                &&& k > 0 ==> spans@.take(i + 1)[k - 1].1 <= spans@.take(i + 1)[k].0
            } by {
                if k < i {
                    assert(spans@.take(i as int)[k] == spans@.take(i + 1)[k]);
                    if k > 0 {
                        assert(spans@.take(i as int)[k - 1] == spans@.take(i + 1)[k - 1]);
                    }
                }
            }
        }
        i += 1;
    }
    proof {
        assert(spans@.take(spans@.len() as int) =~= spans@);
    }
    true
}

proof fn lemma_line_feed_is_not_empty(piece: Seq<char>)
    requires
        piece == "\n"@,
    ensures
        encode_utf8(piece).len() > 0,
{
    reveal_strlit("\n");
    if encode_utf8(piece).len() == 0 {
        encode_utf8_decode_utf8(piece);
        assert(encode_utf8(piece) =~= Seq::<u8>::empty());
        assert(decode_utf8(Seq::<u8>::empty()) =~= Seq::<char>::empty());
    }
}

/// The tokens that `spans` cut out of `code`, and behind them the token that
/// ends the text.
pub fn tokens_from_spans<'a>(code: &'a str, spans: &Vec<(usize, usize)>) -> (tokens: Vec<Token<'a>>)
    requires
        fits(code@, spans@),
        encode_utf8(code@).len() < usize::MAX,
    ensures
        token_views(tokens@) == tokens_of(pieces(code@, spans@).push(Seq::empty())),
        forall|i: int| 0 <= i < tokens@.len() ==> (#[trigger] tokens@[i]).wf(),
{
    let ghost all = pieces(code@, spans@);
    let ghost with_end = all.push(Seq::<char>::empty());
    let ghost wanted = tokens_of(with_end);
    let mut tokens: Vec<Token<'a>> = Vec::new();
    let mut location = Location { line_no: 1, column_no: 1 };
    let mut i: usize = 0;
    proof {
        assert(all.take(0) =~= Seq::<Seq<char>>::empty());
    }
    while i < spans.len()
        invariant
            i <= spans.len(),
            fits(code@, spans@),
            encode_utf8(code@).len() < usize::MAX,
            all == pieces(code@, spans@),
            with_end == all.push(Seq::<char>::empty()),
            wanted == tokens_of(with_end),
            tokens@.len() == i,
            forall|k: int| 0 <= k < i ==> (#[trigger] tokens@[k])@ == wanted[k],
            forall|k: int| 0 <= k < i ==> (#[trigger] tokens@[k]).wf(),
            (location.line_no as nat, location.column_no as nat) == place_after(all.take(i as int)),
            1 <= location.line_no,
            1 <= location.column_no,
            i == 0 ==> location.line_no == 1 && location.column_no == 1,
            i > 0 ==> location.line_no - 1 <= spans@[i - 1].1 && location.column_no - 1
                <= spans@[i - 1].1,
        decreases spans.len() - i,
    {
        let (start, end) = spans[i];
        assert(spans@[i as int].0 <= spans@[i as int].1);
        let piece = slice_text(code, start, end);
        let token_type = token_type_of(piece);
        proof {
            assert(with_end[i as int] == all[i as int]);
            assert(with_end.take(i as int) =~= all.take(i as int));
            assert(all.take(i + 1).drop_last() =~= all.take(i as int));
            assert(all.take(i + 1).last() == all[i as int]);
        }
        tokens.push(Token { token_type, location, token_raw: piece });
        if same_text(piece, "\n") {
            proof {
                lemma_line_feed_is_not_empty(piece@);
            }
            location = Location { line_no: location.line_no + 1, column_no: 1 };
        } else {
            location =
            Location {
                line_no: location.line_no,
                column_no: location.column_no + piece.as_bytes().len(),
            };
        }
        i += 1;
    }
    let end = "";
    proof {
        reveal_strlit("");
        assert(end@ =~= Seq::<char>::empty());
        assert(all.take(all.len() as int) =~= all);
        assert(with_end.take(all.len() as int) =~= all);
        assert(with_end[all.len() as int] == Seq::<char>::empty());
    }
    let token_type = token_type_of(end);
    tokens.push(Token { token_type, location, token_raw: end });
    proof {
        assert(token_views(tokens@) =~= wanted);
    }
    tokens
}

/// The spans that the token pattern cuts out of `code`, where the pattern
/// matcher takes the pattern, the spans lie in the text one behind the
/// other on character boundaries, none of them empty, and the text is short
/// enough for its columns to be counted.
pub open spec fn token_spans(code: Seq<char>) -> Option<Seq<(usize, usize)>> {
    match pattern_matches(TOKEN_PATTERN@, code) {
        Some(spans) => if fits(code, spans) && encode_utf8(code).len() < usize::MAX {
            Some(spans)
        } else {
            None
        },
        None => None,
    }
}

/// The tokens of `code`: the pieces that the token pattern matches, each
/// with its kind and place, and behind them the token that ends the text.
pub fn tokenize<'a>(code: &'a str) -> (tokens: Option<Vec<Token<'a>>>)
    ensures
        match tokens {
            Some(found) => {
                &&& token_spans(code@) is Some
                &&& token_views(found@) == tokens_of(
                    pieces(code@, token_spans(code@)->0).push(Seq::empty()),
                )
                &&& forall|i: int| 0 <= i < found@.len() ==> (#[trigger] found@[i]).wf()
            },
            None => token_spans(code@) is None,
        },
{
    match find_matches(TOKEN_PATTERN, code) {
        Some(spans) => {
            if spans_fit(code, &spans) && code.as_bytes().len() < usize::MAX {
                Some(tokens_from_spans(code, &spans))
            } else {
                None
            }
        },
        None => None,
    }
}

/// A place in words.
pub open spec fn location_text(line: nat, column: nat) -> Seq<char> {
    "line "@ + decimal(line) + ", column "@ + decimal(column)
}

/// A token in words: its place and, unless it is empty, its text.
pub open spec fn token_text(token: TokenView) -> Seq<char> {
    if token.raw.len() > 0 {
        location_text(token.line, token.column) + " (near token '"@ + token.raw + "')"@
    } else {
        location_text(token.line, token.column)
    }
}

impl Location {
    /// The place in words.
    pub fn to_string(&self) -> (text: String)
        ensures
            text@ == location_text(self.line_no as nat, self.column_no as nat),
    {
        let mut text = String::from_str("line ");
        text.append(decimal_text(self.line_no).as_str());
        text.append(", column ");
        text.append(decimal_text(self.column_no).as_str());
        text
    }
}

impl<'a> Token<'a> {
    /// The token in words.
    pub fn to_string(&self) -> (text: String)
        ensures
            text@ == token_text(self@),
    {
        let mut text = self.location.to_string();
        if !self.token_raw.is_empty() {
            text.append(" (near token '");
            text.append(self.token_raw);
            text.append("')");
        }
        text
    }
}

} // verus!

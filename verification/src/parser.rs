//! Building a syntax tree from tokens.

use crate::tokenizer::{
    location_text, token_views, views_of, Location, Token, TokenKind, TokenType, TokenView,
};
use vstd::prelude::*;
use vstd::string::StringExecFns;

verus! {

/// A syntax tree whose leaves are the tokens that name variables.
#[derive(Debug)]
pub enum Node<'a> {
    Identifier(&'a Token<'a>),
    Lambda(&'a Token<'a>, Box<Node<'a>>),
    Apply(Box<Node<'a>>, Box<Node<'a>>),
}

/// A syntax tree as a plain value.
pub ghost enum Syntax {
    Identifier(TokenView),
    Lambda(TokenView, Box<Syntax>),
    Apply(Box<Syntax>, Box<Syntax>),
}

impl<'a> Node<'a> {
    /// The tree as a plain value.
    pub open spec fn syntax(self) -> Syntax
        decreases self,
    {
        match self {
            Node::Identifier(token) => Syntax::Identifier(token@),
            Node::Lambda(token, body) => Syntax::Lambda(token@, Box::new(body.syntax())),
            Node::Apply(function, argument) => Syntax::Apply(
                Box::new(function.syntax()),
                Box::new(argument.syntax()),
            ),
        }
    }
}

impl<'a> View for Node<'a> {
    type V = Syntax;

    open spec fn view(&self) -> Syntax {
        self.syntax()
    }
}

/// What is wrong with a text that is no expression.
#[derive(Debug, Clone, Copy, PartialEq, Eq)]
pub enum ErrorType {
    EOFReached,
    ExtraRightParen,
    MissingRightParen,
    MissingLambdaArg,
}

/// A syntax error and the place of the token at which it was found.
#[derive(Debug)]
pub struct Error {
    error_type: ErrorType,
    location: Location,
}

/// A syntax error as a plain value.
pub ghost struct Failure {
    pub kind: ErrorType,
    pub line: nat,
    pub column: nat,
}

/// The error of the given kind at `token`.
pub open spec fn failure_at(kind: ErrorType, token: TokenView) -> Failure {
    Failure { kind, line: token.line, column: token.column }
}

/// A syntax error as a sentence with its place.
pub open spec fn failure_text(failure: Failure) -> Seq<char> {
    "At "@ + location_text(failure.line, failure.column) + ": "@ + match failure.kind {
        ErrorType::EOFReached => "Unexpected EOF found when parsing expression."@,
        ErrorType::ExtraRightParen => "Extra ) in expression."@,
        ErrorType::MissingRightParen => "Missing ) in expression."@,
        ErrorType::MissingLambdaArg => "Missing argument for lambda in expression."@,
    }
}

impl View for Error {
    type V = Failure;

    closed spec fn view(&self) -> Failure {
        Failure {
            kind: self.error_type,
            line: self.location.line_no as nat,
            column: self.location.column_no as nat,
        }
    }
}

impl Error {
    fn new(error_type: ErrorType, token: &Token) -> (error: Error)
        ensures
            error@ == failure_at(error_type, token@),
    {
        Error { error_type, location: token.location }
    }

    /// What is wrong.
    pub fn error_type(&self) -> (kind: ErrorType)
        ensures
            kind == self@.kind,
    {
        self.error_type
    }

    /// Where it was found.
    pub fn location(&self) -> (place: Location)
        ensures
            place.line_no == self@.line,
            place.column_no == self@.column,
    {
        self.location
    }

    /// The error as a sentence with its place.
    pub fn to_string(&self) -> (text: String)
        ensures
            text@ == failure_text(self@),
    {
        let mut text = String::from_str("At ");
        text.append(self.location.to_string().as_str());
        text.append(": ");
        match self.error_type {
            ErrorType::EOFReached => text.append("Unexpected EOF found when parsing expression."),
            ErrorType::ExtraRightParen => text.append("Extra ) in expression."),
            ErrorType::MissingRightParen => text.append("Missing ) in expression."),
            ErrorType::MissingLambdaArg => text.append(
                "Missing argument for lambda in expression.",
            ),
        }
        text
    }

    /// The error in a few words.
    pub fn description(&self) -> (words: &'static str)
        ensures
            words@ == match self@.kind {
                ErrorType::EOFReached => "unexpected EOF reached"@,
                ErrorType::ExtraRightParen => "extra )"@,
                ErrorType::MissingRightParen => "missing )"@,
                ErrorType::MissingLambdaArg => "missing argument for lambda"@,
            },
    {
        match self.error_type {
            ErrorType::EOFReached => "unexpected EOF reached",
            ErrorType::ExtraRightParen => "extra )",
            ErrorType::MissingRightParen => "missing )",
            ErrorType::MissingLambdaArg => "missing argument for lambda",
        }
    }
}

/// The expression that starts at token `at`, and the place of the token
/// behind it: a name, an expression in parentheses, or a function, whose body
/// reaches as far as it can.
pub open spec fn parse_single_at(tokens: Seq<TokenView>, at: nat) -> Result<(Syntax, nat), Failure>
    decreases tokens.len() - at, 0nat,
{
    if at >= tokens.len() {
        Err(Failure { kind: ErrorType::EOFReached, line: 0, column: 0 })
    } else {
        let token = tokens[at as int];
        match token.kind {
            TokenKind::Identifier => Ok((Syntax::Identifier(token), at + 1)),
            TokenKind::LeftParen => match parse_multi_at(tokens, at + 1) {
                Err(failure) => Err(failure),
                Ok((tree, next)) => if next < tokens.len() && tokens[next as int].kind
                    is RightParen {
                    Ok((tree, next + 1))
                } else {
                    Err(failure_at(ErrorType::MissingRightParen, token))
                },
            },
            TokenKind::RightParen => Err(failure_at(ErrorType::ExtraRightParen, token)),
            TokenKind::LambdaStart => if at + 1 < tokens.len() && tokens[at as int + 1].kind
                is Identifier {
                match parse_multi_at(tokens, at + 2) {
                    Err(failure) => Err(failure),
                    Ok((body, next)) => Ok((Syntax::Lambda(tokens[at as int + 1], Box::new(body)), next)),
                }
            } else {
                Err(failure_at(ErrorType::MissingLambdaArg, token))
            },
            TokenKind::EndOfFile => Err(failure_at(ErrorType::EOFReached, token)),
            TokenKind::WhiteSpace => Err(failure_at(ErrorType::EOFReached, token)),
        }
    }
}

/// The expressions from token `at` up to the next closing parenthesis or the
/// end of the text, applied one after the other from the left.
pub open spec fn parse_multi_at(tokens: Seq<TokenView>, at: nat) -> Result<(Syntax, nat), Failure>
    decreases tokens.len() - at, 2nat,
{
    match parse_single_at(tokens, at) {
        Err(failure) => Err(failure),
        Ok((first, next)) => if at < next <= tokens.len() {
            parse_rest_at(tokens, first, next)
        } else {
            Err(Failure { kind: ErrorType::EOFReached, line: 0, column: 0 })
        },
    }
}

/// `tree` applied to the expressions from token `at` on, as far as they go.
pub open spec fn parse_rest_at(tokens: Seq<TokenView>, tree: Syntax, at: nat) -> Result<
    (Syntax, nat),
    Failure,
>
    decreases tokens.len() - at, 1nat,
{
    if at >= tokens.len() || tokens[at as int].kind is RightParen || tokens[at as int].kind
        is EndOfFile {
        Ok((tree, at))
    } else {
        match parse_single_at(tokens, at) {
            Err(failure) => Err(failure),
            Ok((parameter, next)) => if at < next <= tokens.len() {
                parse_rest_at(tokens, Syntax::Apply(Box::new(tree), Box::new(parameter)), next)
            } else {
                Err(Failure { kind: ErrorType::EOFReached, line: 0, column: 0 })
            },
        }
    }
}

/// The tokens that are no white space.
pub open spec fn significant(tokens: Seq<TokenView>) -> Seq<TokenView> {
    tokens.filter(|token: TokenView| !(token.kind is WhiteSpace))
}

/// The expression that the tokens spell, white space left aside, or what is
/// wrong with them.
pub open spec fn parse_tokens(tokens: Seq<TokenView>) -> Result<Syntax, Failure> {
    let rest = significant(tokens);
    match parse_multi_at(rest, 0) {
        Err(failure) => Err(failure),
        Ok((tree, next)) => if next < rest.len() && rest[next as int].kind is EndOfFile {
            Ok(tree)
        } else if next < rest.len() {
            Err(failure_at(ErrorType::ExtraRightParen, rest[next as int]))
        } else {
            Err(Failure { kind: ErrorType::EOFReached, line: 0, column: 0 })
        },
    }
}

/// Whether the tokens hold no white space and end with the token that ends
/// the text.
pub open spec fn ready(tokens: Seq<TokenView>) -> bool {
    &&& tokens.len() > 0
    &&& tokens.last().kind is EndOfFile
    &&& forall|i: int| 0 <= i < tokens.len() ==> !((#[trigger] tokens[i]).kind is WhiteSpace)
}

/// What a parsing step gave, as a plain value.
pub open spec fn step_view<'a>(step: Result<(Node<'a>, usize), Error>) -> Result<
    (Syntax, nat),
    Failure,
> {
    match step {
        Ok((node, next)) => Ok((node@, next as nat)),
        Err(error) => Err(error@),
    }
}

fn kind_of(token: &Token) -> (kind: TokenKind)
    ensures
        kind == token@.kind,
{
    match token.token_type {
        TokenType::LeftParen => TokenKind::LeftParen,
        TokenType::RightParen => TokenKind::RightParen,
        TokenType::LambdaStart => TokenKind::LambdaStart,
        TokenType::Identifier(_) => TokenKind::Identifier,
        TokenType::WhiteSpace => TokenKind::WhiteSpace,
        TokenType::EndOfFile => TokenKind::EndOfFile,
    }
}

fn parse_single<'a>(tokens: &Vec<&'a Token<'a>>, at: usize) -> (step: Result<
    (Node<'a>, usize),
    Error,
>)
    requires
        ready(views_of(tokens@)),
        at < tokens@.len(),
    ensures
        step_view(step) == parse_single_at(views_of(tokens@), at as nat),
        step matches Ok((_, next)) ==> at < next < tokens@.len(),
    decreases tokens@.len() - at, 0nat,
{
    let ghost views = views_of(tokens@);
    let count = tokens.len();
    let token = tokens[at];
    assert(views[at as int] == token@);
    assert(views.last() == tokens@[tokens@.len() - 1]@);
    match kind_of(token) {
        TokenKind::Identifier => Ok((Node::Identifier(token), at + 1)),
        TokenKind::LeftParen => {
            let (expression, next) = match parse_multi(tokens, at + 1) {
                Ok(found) => found,
                Err(error) => {
                    return Err(error);
                },
            };
            assert(views[next as int] == tokens@[next as int]@);
            match kind_of(tokens[next]) {
                TokenKind::RightParen => Ok((expression, next + 1)),
                _ => Err(Error::new(ErrorType::MissingRightParen, token)),
            }
        },
        TokenKind::RightParen => Err(Error::new(ErrorType::ExtraRightParen, token)),
        TokenKind::LambdaStart => {
            let argument = tokens[at + 1];
            assert(views[at + 1] == argument@);
            match kind_of(argument) {
                TokenKind::Identifier => {
                    let (expression, next) = match parse_multi(tokens, at + 2) {
                        Ok(found) => found,
                        Err(error) => {
                            return Err(error);
                        },
                    };
                    Ok((Node::Lambda(argument, Box::new(expression)), next))
                },
                _ => Err(Error::new(ErrorType::MissingLambdaArg, token)),
            }
        },
        TokenKind::EndOfFile => Err(Error::new(ErrorType::EOFReached, token)),
        TokenKind::WhiteSpace => Err(Error::new(ErrorType::EOFReached, token)),
    }
}

fn parse_multi<'a>(tokens: &Vec<&'a Token<'a>>, at: usize) -> (step: Result<
    (Node<'a>, usize),
    Error,
>)
    requires
        ready(views_of(tokens@)),
        at < tokens@.len(),
    ensures
        step_view(step) == parse_multi_at(views_of(tokens@), at as nat),
        step matches Ok((_, next)) ==> at < next < tokens@.len() && !(views_of(
            tokens@,
        )[next as int].kind is Identifier) && !(views_of(tokens@)[next as int].kind is LeftParen)
            && !(views_of(tokens@)[next as int].kind is LambdaStart),
    decreases tokens@.len() - at, 2nat,
{
    let ghost views = views_of(tokens@);
    let (first, after) = match parse_single(tokens, at) {
        Ok(found) => found,
        Err(error) => {
            return Err(error);
        },
    };
    let mut expression = first;
    let mut next = after;
    loop
        invariant
            ready(views),
            views == views_of(tokens@),
            at < next < tokens@.len(),
            parse_multi_at(views, at as nat) == parse_rest_at(views, expression@, next as nat),
        decreases tokens@.len() - next,
    {
        assert(views[next as int] == tokens@[next as int]@);
        match kind_of(tokens[next]) {
            TokenKind::RightParen | TokenKind::EndOfFile => {
                return Ok((expression, next));
            },
            _ => {},
        }
        let (parameter, after) = match parse_single(tokens, next) {
            Ok(found) => found,
            Err(error) => {
                return Err(error);
            },
        };
        expression = Node::Apply(Box::new(expression), Box::new(parameter));
        next = after;
    }
}

/// The syntax tree of `tokens`, white space left aside, or the first thing
/// that is wrong with them.
pub fn parse<'a>(tokens: &'a [Token<'a>]) -> (tree: Result<Node<'a>, Error>)
    requires
        tokens@.len() > 0,
        tokens@.last()@.kind is EndOfFile,
    ensures
        match tree {
            Ok(node) => parse_tokens(token_views(tokens@)) == Ok::<Syntax, Failure>(node@),
            Err(error) => parse_tokens(token_views(tokens@)) == Err::<Syntax, Failure>(error@),
        },
{
    let ghost views = token_views(tokens@);
    let ghost keep = |token: TokenView| !(token.kind is WhiteSpace);
    let mut rest: Vec<&'a Token<'a>> = Vec::new();
    let mut i: usize = 0;
    proof {
        assert(views.take(0) =~= Seq::<TokenView>::empty());
        assert(views_of(rest@) =~= Seq::<TokenView>::empty());
        reveal(Seq::filter);
    }
    while i < tokens.len()
        invariant
            i <= tokens@.len(),
            views == token_views(tokens@),
            keep == (|token: TokenView| !(token.kind is WhiteSpace)),
            views_of(rest@) == views.take(i as int).filter(keep),
            forall|k: int| 0 <= k < rest@.len() ==> !((#[trigger] rest@[k])@.kind is WhiteSpace),
            i > 0 && !(views[i - 1].kind is WhiteSpace) ==> rest@.len() > 0 && rest@.last()@
                == views[i - 1],
        decreases tokens@.len() - i,
    {
        let token = &tokens[i];
        let ghost before = views_of(rest@);
        proof {
            assert(views[i as int] == token@);
            assert(views.take(i + 1) =~= views.take(i as int).push(views[i as int]));
            views.take(i as int).lemma_filter_push(views[i as int], keep);
        }
        match kind_of(token) {
            TokenKind::WhiteSpace => {},
            _ => {
                rest.push(token);
                proof {
                    assert(views_of(rest@) =~= before.push(views[i as int]));
                }
            },
        }
        i += 1;
    }
    proof {
        assert(views.take(tokens@.len() as int) =~= views);
        assert(views_of(rest@) == significant(views));
        assert(views.last() == tokens@.last()@);
        assert(views_of(rest@).last() == rest@.last()@);
        assert forall|k: int| 0 <= k < rest@.len() implies !((#[trigger] views_of(rest@)[k]).kind
            is WhiteSpace) by {
            assert(views_of(rest@)[k] == rest@[k]@);
        }
    }
    let (expression, next) = match parse_multi(&rest, 0) {
        Ok(found) => found,
        Err(error) => {
            return Err(error);
        },
    };
    let extra_token = rest[next];
    assert(views_of(rest@)[next as int] == extra_token@);
    match kind_of(extra_token) {
        TokenKind::EndOfFile => Ok(expression),
        _ => Err(Error::new(ErrorType::ExtraRightParen, extra_token)),
    }
}

} // verus!

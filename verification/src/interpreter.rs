//! From source text to the bits that a program writes.

use crate::parser::{parse, parse_tokens, Error, Failure, Syntax};
use crate::runner::{ran, run, undefined, RunResult};
use crate::text::same_text;
use crate::tokenizer::{
    char_is_whitespace, location_text, pieces, token_spans, token_views, tokenize, tokens_of,
    views_of, white_space, Location, TokenKind, TokenView,
};
use crate::transformer::{built, interned, resolve, term_of, transform, Term};
use vstd::prelude::*;
use vstd::string::StringExecFns;

verus! {

/// Calls `String::push`. Believed without proof: that the text afterwards is
/// the text before with `c` behind it.
#[verifier::external_body]
fn push_char(text: &mut String, c: char)
    ensures
        final(text)@ == old(text)@.push(c),
{
    text.push(c)
}

/// `line` without the carriage return at its end, if it has one.
pub open spec fn without_carriage_return(line: Seq<char>) -> Seq<char> {
    if line.len() > 0 && line.last() == '\r' {
        line.drop_last()
    } else {
        line
    }
}

/// The lines of `code` that a line feed has ended, each without its line
/// ending, and what follows the last line feed.
pub open spec fn split(code: Seq<char>) -> (Seq<Seq<char>>, Seq<char>)
    decreases code.len(),
{
    if code.len() == 0 {
        (Seq::empty(), Seq::empty())
    } else {
        let (ended, open) = split(code.drop_last());
        if code.last() == '\n' {
            (ended.push(without_carriage_return(open)), Seq::empty())
        } else {
            (ended, open.push(code.last()))
        }
    }
}

/// The lines of `code`. The last line needs no line ending.
pub open spec fn lines_of(code: Seq<char>) -> Seq<Seq<char>> {
    let (ended, open) = split(code);
    if open.len() > 0 {
        ended.push(open)
    } else {
        ended
    }
}

/// Whether the first character of `line` that is no white space is `#`.
pub open spec fn is_comment(line: Seq<char>) -> bool {
    exists|i: int|
        0 <= i < line.len() && !white_space(#[trigger] line[i]) && line[i] == '#' && forall|k: int|
            0 <= k < i ==> white_space(#[trigger] line[k])
}

/// The lines one behind the other, each ended by a line feed, with nothing
/// in the place of a comment.
pub open spec fn joined(lines: Seq<Seq<char>>) -> Seq<char>
    decreases lines.len(),
{
    if lines.len() == 0 {
        Seq::empty()
    } else if is_comment(lines.last()) {
        joined(lines.drop_last()) + seq!['\n']
    } else {
        joined(lines.drop_last()) + lines.last() + seq!['\n']
    }
}

/// `code` with every comment line emptied, so that what is left keeps its
/// line.
pub open spec fn without_comments(code: Seq<char>) -> Seq<char> {
    joined(lines_of(code))
}

fn starts_comment(line: &Vec<char>) -> (comment: bool)
    ensures
        comment == is_comment(line@),
{
    let mut i: usize = 0;
    while i < line.len()
        invariant
            i <= line@.len(),
            forall|k: int| 0 <= k < i ==> white_space(#[trigger] line@[k]),
        decreases line@.len() - i,
    {
        if !char_is_whitespace(line[i]) {
            return line[i] == '#';
        }
        i += 1;
    }
    false
}

fn append_line(text: &mut String, line: &Vec<char>, Ghost(lines): Ghost<Seq<Seq<char>>>)
    requires
        old(text)@ == joined(lines),
    ensures
        final(text)@ == joined(lines.push(line@)),
{
    let ghost grown = lines.push(line@);
    proof {
        assert(grown.drop_last() =~= lines);
        assert(grown.last() == line@);
    }
    if !starts_comment(line) {
        let mut i: usize = 0;
        while i < line.len()
            invariant
                i <= line@.len(),
                text@ == joined(lines) + line@.take(i as int),
            decreases line@.len() - i,
        {
            proof {
                assert(line@.take(i + 1) =~= line@.take(i as int).push(line@[i as int]));
            }
            push_char(text, line[i]);
            i += 1;
        }
        proof {
            assert(line@.take(line@.len() as int) =~= line@);
        }
    }
    push_char(text, '\n');
}

/// `code` with every line emptied whose first character that is no white
/// space is `#`. Every line of the result ends with a line feed.
pub fn strip_comments(code: &str) -> (text: String)
    ensures
        text@ == without_comments(code@),
{
    let mut text = String::new();
    let mut line: Vec<char> = Vec::new();
    let ghost mut ended: Seq<Seq<char>> = Seq::empty();
    proof {
        assert(code@.take(0) =~= Seq::<char>::empty());
    }
    for c in it: code.chars()
        invariant
            it.seq() == code@,
            (ended, line@) == split(code@.take(it.index())),
            text@ == joined(ended),
    {
        proof {
            assert(code@.take(it.index() + 1).drop_last() =~= code@.take(it.index()));
            assert(code@.take(it.index() + 1).last() == c);
        }
        if c == '\n' {
            if line.len() > 0 && line[line.len() - 1] == '\r' {
                line.pop();
            }
            append_line(&mut text, &line, Ghost(ended));
            proof {
                ended = ended.push(line@);
            }
            line = Vec::new();
        } else {
            line.push(c);
        }
    }
    proof {
        assert(code@.take(code@.len() as int) =~= code@);
    }
    if line.len() > 0 {
        append_line(&mut text, &line, Ghost(ended));
    }
    text
}

/// A free variable that is no builtin.
#[derive(Debug)]
pub struct UndefinedVariable {
    pub name: String,
    pub location: Location,
}

/// What became of a source text.
#[derive(Debug)]
pub enum Report {
    /// The text could not be cut into tokens.
    Unreadable,
    /// The tokens spell no expression.
    Syntax(Error),
    /// The expression has free variables that are no builtins: all of them,
    /// in the order in which they first occur. Nothing was evaluated.
    Undefined(Vec<UndefinedVariable>),
    /// The expression was evaluated.
    Ran(RunResult),
}

/// What a source text stands for.
pub ghost enum Meaning {
    Unreadable,
    Syntax(Failure),
    Undefined(Seq<TokenView>),
    Program { tree: Syntax, term: Term, free: Seq<TokenView> },
}

/// What `code` stands for: the expression that its tokens spell, with its
/// free variables, or the first reason why it stands for none.
pub open spec fn meaning(code: Seq<char>) -> Meaning {
    match token_spans(code) {
        None => Meaning::Unreadable,
        Some(spans) => match parse_tokens(tokens_of(pieces(code, spans).push(Seq::empty()))) {
            Err(failure) => Meaning::Syntax(failure),
            Ok(tree) => {
                let (term, free) = resolve(tree, Seq::empty());
                if undefined(free).len() > 0 {
                    Meaning::Undefined(undefined(free))
                } else {
                    Meaning::Program { tree, term, free }
                }
            },
        },
    }
}

/// Whether `variables` are `tokens` with their names and places.
pub open spec fn names(variables: Seq<UndefinedVariable>, tokens: Seq<TokenView>) -> bool {
    &&& variables.len() == tokens.len()
    &&& forall|i: int|
        0 <= i < variables.len() ==> {
            &&& (#[trigger] variables[i]).name@ == tokens[i].raw
            &&& variables[i].location.line_no == tokens[i].line
            &&& variables[i].location.column_no == tokens[i].column
        }
}

/// Cuts `code` into tokens, parses them, resolves the names and evaluates
/// the expression, with `input` as the bytes to read. Nothing is evaluated
/// where the text is no expression or has a free variable that is no
/// builtin.
pub fn interpret(code: &str, input: Vec<u8>, depth: usize) -> (report: Report)
    ensures
        match meaning(code@) {
            Meaning::Unreadable => report is Unreadable,
            Meaning::Syntax(failure) => report matches Report::Syntax(error) && error@ == failure,
            Meaning::Undefined(tokens) => report matches Report::Undefined(variables) && names(
                variables@,
                tokens,
            ),
            Meaning::Program { tree, term, free } => report matches Report::Ran(result) && ran(
                built(Seq::empty(), tree, Seq::empty()).0,
                built(Seq::empty(), tree, Seq::empty()).1,
                free,
                input@,
                depth as nat,
                result,
            ),
        },
{
    let tokens = match tokenize(code) {
        Some(tokens) => tokens,
        None => {
            return Report::Unreadable;
        },
    };
    proof {
        let all = pieces(code@, token_spans(code@)->0).push(Seq::<char>::empty());
        assert(all.last() == Seq::<char>::empty());
        assert(tokens_of(all).last().kind == TokenKind::EndOfFile);
        assert(token_views(tokens@).last() == tokens@.last()@);
    }
    let node = match parse(tokens.as_slice()) {
        Ok(node) => node,
        Err(error) => {
            return Report::Syntax(error);
        },
    };
    let (graph, expression, free_vars) = transform(&node);
    proof {
        graph.lemma_interned();
    }
    match run(&graph, expression, &free_vars, input, depth) {
        Ok(result) => {
            proof {
                let keys = graph.keys();
                assert(interned(keys));
                assert(expression < keys.len());
                assert(term_of(keys, expression as int) == resolve(node@, Seq::empty()).0);
                assert(ran(keys, expression, views_of(free_vars@), input@, depth as nat, result));
            }
            Report::Ran(result)
        },
        Err(crate::runner::Error::UndefinedVariable(vars)) => {
            let ghost views = views_of(vars@);
            let mut variables: Vec<UndefinedVariable> = Vec::new();
            let mut i: usize = 0;
            while i < vars.len()
                invariant
                    i <= vars@.len(),
                    views == views_of(vars@),
                    variables@.len() == i,
                    forall|k: int|
                        0 <= k < i ==> {
                            &&& (#[trigger] variables@[k]).name@ == views[k].raw
                            &&& variables@[k].location.line_no == views[k].line
                            &&& variables@[k].location.column_no == views[k].column
                        },
                decreases vars@.len() - i,
            {
                let token = vars[i];
                assert(views[i as int] == token@);
                variables.push(
                    UndefinedVariable {
                        name: String::from_str(token.token_raw),
                        location: token.location,
                    },
                );
                i += 1;
            }
            Report::Undefined(variables)
        },
    }
}

/// One line that names an undefined variable and its place.
pub open spec fn undefined_line(name: Seq<char>, line: nat, column: nat) -> Seq<char> {
    "Undefined variable \""@ + name + "\" ("@ + location_text(line, column) + ")\n"@
}

impl UndefinedVariable {
    /// The variable in words, as one line.
    pub fn to_string(&self) -> (text: String)
        ensures
            text@ == undefined_line(
                self.name@,
                self.location.line_no as nat,
                self.location.column_no as nat,
            ),
    {
        let mut text = String::from_str("Undefined variable \"");
        text.append(self.name.as_str());
        text.append("\" (");
        text.append(self.location.to_string().as_str());
        text.append(")\n");
        text
    }
}

/// Whether one of `tokens` is the builtin that reads.
pub open spec fn names_input(tokens: Seq<TokenView>) -> bool {
    exists|i: int| 0 <= i < tokens.len() && (#[trigger] tokens[i]).raw == "__builtin_g"@
}

/// Whether `code` is a program that can read: an expression whose free
/// variables are builtins, the reading one among them. Any other text is
/// evaluated without a look at the input, if it is evaluated at all.
pub fn reads_input(code: &str) -> (reads: bool)
    ensures
        reads == (meaning(code@) matches Meaning::Program { tree, term, free } && names_input(
            free,
        )),
{
    let tokens = match tokenize(code) {
        Some(tokens) => tokens,
        None => {
            return false;
        },
    };
    proof {
        let all = pieces(code@, token_spans(code@)->0).push(Seq::<char>::empty());
        assert(all.last() == Seq::<char>::empty());
        assert(tokens_of(all).last().kind == TokenKind::EndOfFile);
        assert(token_views(tokens@).last() == tokens@.last()@);
    }
    let node = match parse(tokens.as_slice()) {
        Ok(node) => node,
        Err(_) => {
            return false;
        },
    };
    let (_, _, free_vars) = transform(&node);
    let ghost free = views_of(free_vars@);
    let mut reads = false;
    let mut some_undefined = false;
    let mut i: usize = 0;
    proof {
        assert(free.take(0) =~= Seq::<TokenView>::empty());
        reveal(Seq::filter);
    }
    while i < free_vars.len()
        invariant
            i <= free_vars@.len(),
            free == views_of(free_vars@),
            reads == names_input(free.take(i as int)),
            some_undefined == (undefined(free.take(i as int)).len() > 0),
        decreases free_vars@.len() - i,
    {
        let name = free_vars[i].token_raw;
        let ghost before = free.take(i as int);
        let ghost pred = |token: TokenView| crate::runner::builtin(token.raw) is None;
        proof {
            assert(free[i as int] == free_vars@[i as int]@);
            assert(free.take(i + 1) =~= before.push(free[i as int]));
            before.lemma_filter_push(free[i as int], pred);
            if names_input(before) {
                let k = choose|k: int| 0 <= k < before.len() && (#[trigger] before[k]).raw
                    == "__builtin_g"@;
                assert(free.take(i + 1)[k] == before[k]);
            }
            if names_input(free.take(i + 1)) && !(free[i as int].raw == "__builtin_g"@) {
                let k = choose|k: int| 0 <= k < i + 1 && (#[trigger] free.take(i + 1)[k]).raw
                    == "__builtin_g"@;
                assert(before[k] == free.take(i + 1)[k]);
            }
        }
        if same_text(name, "__builtin_g") {
            reads = true;
            proof {
                assert(free.take(i + 1)[i as int].raw == "__builtin_g"@);
            }
        } else if !same_text(name, "__builtin_p0") && !same_text(name, "__builtin_p1")
            && !same_text(name, "__builtin_debug") {
            some_undefined = true;
        }
        i += 1;
    }
    proof {
        assert(free.take(free_vars@.len() as int) =~= free);
    }
    reads && !some_undefined
}

} // verus!

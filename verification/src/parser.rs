//! The parser: turns a stream of lexed items into a program, with nested
//! lists and a quote that applies to the next identifier.

use crate::ast::{all_well_formed, exprs_view, well_formed, Expr, ExprView, TopLevel};
use crate::ast::{lemma_exprs_view_push, lemma_list_view, lemma_well_formed_list};
use crate::integer::{decimal_value, is_decimal, Integer};
use crate::lexer::{digit, item_view, items_view, run_len, scan, scan_all, trim_start};
use crate::lexer::{lemma_run_len, ItemView, Lexer};
use crate::lexer::Error as LError;
use crate::token::{Token, TokenView};
use std::collections::HashSet;
use vstd::prelude::*;
use vstd::std_specs::convert::FromSpecImpl;

verus! {

// -------------------------------------------------------------------------- //
// Error type                                                                 //
// -------------------------------------------------------------------------- //

/// Why a stream of lexed items is not a program.
#[derive(Clone, Copy, Debug, PartialEq)]
pub enum Error {
    /// The lexer failed before the parser did.
    LexerError(LError),
    /// A list is closed that was never opened, or is still open at the end.
    UnbalancedParens,
    /// Something other than an identifier is quoted.
    QuotingNotSupported,
}

impl From<LError> for Error {
    fn from(err: LError) -> (error: Self) {
        Error::LexerError(err)
    }
}

impl FromSpecImpl<LError> for Error {
    open spec fn obeys_from_spec() -> bool {
        true
    }

    open spec fn from_spec(err: LError) -> Self {
        Error::LexerError(err)
    }
}

// -------------------------------------------------------------------------- //
// What the parser computes                                                   //
// -------------------------------------------------------------------------- //

/// The parser's working state.
///
/// `stack` holds the lists that are being filled, the innermost last;
/// `level` counts the lists that are open; `armed` holds the levels at which a
/// quote waits for the next expression.
pub struct Machine {
    pub stack: Seq<Seq<ExprView>>,
    pub level: nat,
    pub armed: Set<nat>,
}

impl Machine {
    /// The state of a parser that has seen nothing.
    pub open spec fn fresh() -> Machine {
        Machine { stack: Seq::empty(), level: 0, armed: Set::empty() }
    }

    /// Whether there is a list to append to.
    pub open spec fn active(self) -> bool {
        self.level < self.stack.len()
    }

    /// Whether every expression on the stack quotes nothing but identifiers.
    pub open spec fn sound(self) -> bool {
        forall|i: int| 0 <= i < self.stack.len() ==> all_well_formed(#[trigger] self.stack[i])
    }

    /// Starts the list of top-level expressions.
    pub open spec fn begin(self) -> Machine {
        Machine { stack: self.stack.push(Seq::empty()), ..self }
    }

    /// Appends `expr` to the innermost list.
    pub open spec fn push_last(self, expr: ExprView) -> Machine {
        Machine {
            stack: self.stack.update(self.stack.len() - 1, self.stack.last().push(expr)),
            ..self
        }
    }

    /// Whether a quote waits at the current level; it is used up by the
    /// question.
    pub open spec fn take_quote(self) -> (Machine, bool) {
        if self.armed.contains(self.level) {
            (Machine { armed: self.armed.remove(self.level), ..self }, true)
        } else {
            (self, false)
        }
    }

    /// `expr`, quoted where a quote waits at the current level.
    pub open spec fn quote_if_needed(self, expr: ExprView) -> (Machine, ExprView) {
        let (next, quoted) = self.take_quote();
        (
            next,
            if quoted {
                ExprView::Quoted(Box::new(expr))
            } else {
                expr
            },
        )
    }

    /// `(`: a new list is opened.
    pub open spec fn lparen(self) -> (Machine, Option<Error>) {
        (Machine { stack: self.stack.push(Seq::empty()), level: self.level + 1, ..self }, None)
    }

    /// `)`: the innermost list is closed and appended to the list around it.
    /// With no list open this is `UnbalancedParens`; with a quote waiting for
    /// the list it is `QuotingNotSupported`.
    pub open spec fn rparen(self) -> (Machine, Option<Error>) {
        if self.level > 0 {
            let (next, quoted) = Machine { level: (self.level - 1) as nat, ..self }.take_quote();
            if quoted {
                (next, Some(Error::QuotingNotSupported))
            } else {
                (
                    Machine { stack: next.stack.drop_last(), ..next }.push_last(
                        ExprView::List(next.stack.last()),
                    ),
                    None,
                )
            }
        } else {
            (self, Some(Error::UnbalancedParens))
        }
    }

    /// `'`: a quote waits at the current level from now on.
    pub open spec fn quote(self) -> (Machine, Option<Error>) {
        (Machine { armed: self.armed.insert(self.level), ..self }, None)
    }

    /// An identifier: it is appended, quoted where a quote waits for it.
    pub open spec fn ident(self, name: Seq<char>) -> (Machine, Option<Error>) {
        let (next, expr) = self.quote_if_needed(ExprView::Ident(name));
        (next.push_last(expr), None)
    }

    /// A literal: it is appended; with a quote waiting for it this is
    /// `QuotingNotSupported`.
    pub open spec fn literal(self, expr: ExprView) -> (Machine, Option<Error>) {
        let (next, quoted) = self.take_quote();
        if quoted {
            (next, Some(Error::QuotingNotSupported))
        } else {
            (next.push_last(expr), None)
        }
    }

    /// What one token does to the state, and the error it raises if any.
    pub open spec fn step(self, token: TokenView) -> (Machine, Option<Error>) {
        match token {
            TokenView::LParen => self.lparen(),
            TokenView::RParen => self.rparen(),
            TokenView::Quote => self.quote(),
            TokenView::Identifier(name) => self.ident(name),
            TokenView::Integer(digits) => self.literal(
                ExprView::Int(decimal_value(digits) as int),
            ),
            TokenView::String(text) => self.literal(ExprView::Str(text)),
            TokenView::Boolean(value) => self.literal(ExprView::Bool(value)),
        }
    }
}

/// Feeds `items` to the machine one by one, up to and including the first
/// that fails: the state reached, the items that were not looked at, and the
/// failure if there was one. A lexer error among the items fails as
/// `LexerError`.
pub open spec fn run(machine: Machine, items: Seq<ItemView>) -> (
    Machine,
    Seq<ItemView>,
    Option<Error>,
)
    decreases items.len(),
{
    if items.len() == 0 {
        (machine, items, None)
    } else {
        match items[0] {
            Err(error) => (machine, items.drop_first(), Some(Error::LexerError(error))),
            Ok(token) => {
                let (next, failure) = machine.step(token);
                if failure is Some {
                    (next, items.drop_first(), failure)
                } else {
                    run(next, items.drop_first())
                }
            },
        }
    }
}

/// The mathematical value of a [`Parser`]: the items it has not looked at
/// yet, and its working state.
pub struct ParserView {
    pub tokens: Seq<ItemView>,
    pub machine: Machine,
}

/// What `parse` does to a parser and what it returns: the items are fed to
/// the machine; where none fails and no list is left open, the top-level list
/// is the program.
pub open spec fn parse_outcome(parser: ParserView) -> (
    ParserView,
    Result<Seq<ExprView>, Error>,
) {
    let (machine, rest, failure) = run(parser.machine.begin(), parser.tokens);
    match failure {
        Some(error) => (ParserView { tokens: rest, machine }, Err(error)),
        None => if machine.level != 0 {
            (ParserView { tokens: rest, machine }, Err(Error::UnbalancedParens))
        } else {
            (
                ParserView {
                    tokens: rest,
                    machine: Machine { stack: machine.stack.drop_last(), ..machine },
                },
                Ok(machine.stack.last()),
            )
        },
    }
}

/// The program that `items` spell, or the first error in them.
pub open spec fn parse_tokens(items: Seq<ItemView>) -> Result<Seq<ExprView>, Error> {
    parse_outcome(ParserView { tokens: items, machine: Machine::fresh() }).1
}

/// Whether every integer literal among `items` is a decimal literal.
pub open spec fn literals_valid(items: Seq<ItemView>) -> bool {
    forall|i: int|
        0 <= i < items.len() ==> (#[trigger] items[i] matches Ok(TokenView::Integer(digits))
            ==> is_decimal(digits))
}

/// The items that `parse` looks at: all of them up to and including the
/// first that fails. What comes after it is not read.
pub open spec fn items_read(parser: ParserView) -> Seq<ItemView> {
    parser.tokens.take(
        parser.tokens.len() - run(parser.machine.begin(), parser.tokens).1.len(),
    )
}

/// The items that a run leaves are the end of the items it was given, and
/// it reads at least one item where there is one.
pub proof fn lemma_run_rest(machine: Machine, items: Seq<ItemView>)
    ensures
        run(machine, items).1.len() <= items.len(),
        items.len() > 0 ==> run(machine, items).1.len() < items.len(),
        run(machine, items).1 == items.skip(items.len() - run(machine, items).1.len()),
    decreases items.len(),
{
    if items.len() > 0 {
        let tail = items.drop_first();
        let rest = run(machine, items).1;
        match items[0] {
            Err(_) => {},
            Ok(token) => {
                let (next, failure) = machine.step(token);
                if failure is None {
                    lemma_run_rest(next, tail);
                }
            },
        }
        assert(rest =~= items.skip(items.len() - rest.len()));
    } else {
        assert(items =~= items.skip(0));
    }
}

/// The mathematical value of what `parse` returns.
pub open spec fn program_view(result: Result<TopLevel, Error>) -> Result<Seq<ExprView>, Error> {
    match result {
        Ok(program) => Ok(program@),
        Err(error) => Err(error),
    }
}

/// The mathematical value of the lists that a parser is filling.
pub open spec fn stack_view(frames: Seq<Vec<Expr>>) -> Seq<Seq<ExprView>> {
    Seq::new(frames.len(), |i: int| exprs_view(frames[i]@))
}

/// The levels in `levels`, as natural numbers.
pub open spec fn armed_view(levels: Set<u64>) -> Set<nat> {
    Set::new(|n: nat| n <= u64::MAX && levels.contains(n as u64))
}

/// A step that does not fail leaves a list to append to.
pub proof fn lemma_step_keeps_active(machine: Machine, token: TokenView)
    requires
        machine.active(),
    ensures
        machine.step(token).1 is None ==> machine.step(token).0.active(),
{
}

// -------------------------------------------------------------------------- //
// Parser struct                                                              //
// -------------------------------------------------------------------------- //

/// A parser over a run of lexed items.
///
/// `list_stack` is a stack of the lists encountered so far. At a `(` the
/// level goes up and a new list is pushed; at a `)` the level goes down and
/// the current list is popped and appended to the list below it.
pub struct Parser {
    tokens: Vec<Result<Token, LError>>,
    next: usize,
    list_stack: Vec<Vec<Expr>>,
    level: u64,
    quote_levels: HashSet<u64>,
}

impl View for Parser {
    type V = ParserView;

    closed spec fn view(&self) -> ParserView {
        ParserView {
            tokens: items_view(self.tokens@.skip(self.next as int)),
            machine: Machine {
                stack: stack_view(self.list_stack@),
                level: self.level as nat,
                armed: armed_view(self.quote_levels@),
            },
        }
    }
}

impl Parser {
    /// Whether the parser is in a state that `new` and `parse` can leave it
    /// in: it holds no more open lists than lists, and nothing but
    /// identifiers is quoted in them.
    pub closed spec fn wf(&self) -> bool {
        &&& self.next <= self.tokens.len()
        &&& self.level <= self.list_stack.len()
        &&& self@.machine.sound()
    }

    /// A parser that has seen nothing of `tokens`.
    pub fn new(tokens: Vec<Result<Token, LError>>) -> (parser: Self)
        ensures
            parser.wf(),
            parser@.tokens == items_view(tokens@),
            parser@.machine == Machine::fresh(),
    {
        let parser = Parser {
            tokens,
            next: 0,
            list_stack: Vec::new(),
            level: 0,
            quote_levels: HashSet::new(),
        };
        assert(parser@.tokens =~= items_view(tokens@));
        assert(parser@.machine.stack =~= Seq::empty());
        assert(parser@.machine.armed =~= Set::empty());
        parser
    }

    // ---------------------------------------------------------------------- //
    // Main parse method                                                      //
    // ---------------------------------------------------------------------- //

    /// Parses the items that are left: the program they spell, or the first
    /// error. The items up to and including one that fails are used up, and
    /// the integer literals among them must be decimal literals; what comes
    /// after a failing item is not read. Empty programs are allowed; in a
    /// program that is returned nothing but identifiers is quoted.
    pub fn parse(&mut self) -> (result: Result<TopLevel, Error>)
        requires
            old(self).wf(),
            literals_valid(items_read(old(self)@)),
        ensures
            final(self).wf(),
            (final(self)@, program_view(result)) == parse_outcome(old(self)@),
            result matches Ok(program) ==> all_well_formed(program@),
    {
        // This list will contain all top-level expressions.
        self.list_stack.push(Vec::new());
        assert(self@.machine.stack =~~= old(self)@.machine.begin().stack);
        let ghost goal = run(old(self)@.machine.begin(), old(self)@.tokens);
        proof {
            lemma_run_rest(old(self)@.machine.begin(), old(self)@.tokens);
        }
        while self.next < self.tokens.len()
            invariant
                self.wf(),
                self@.machine.active(),
                goal.1.len() <= self@.tokens.len(),
                literals_valid(self@.tokens.take(self@.tokens.len() - goal.1.len())),
                run(self@.machine, self@.tokens) == goal,
                goal == run(old(self)@.machine.begin(), old(self)@.tokens),
            decreases self.tokens.len() - self.next,
        {
            let ghost before = self@;
            let item: Result<Token, LError> = match &self.tokens[self.next] {
                Ok(token) => Ok(token.clone()),
                Err(error) => Err(*error),
            };
            self.next = self.next + 1;
            let ghost read = before.tokens.take(before.tokens.len() - goal.1.len());
            proof {
                lemma_run_rest(before.machine, before.tokens);
                assert(before.tokens[0] == item_view(item));
                assert(read[0] == before.tokens[0]);
                assert(self@.tokens =~= before.tokens.drop_first());
                assert(self@.machine == before.machine);
            }
            let token = match item {
                Ok(token) => token,
                Err(error) => {
                    return Err(Error::from(error));
                },
            };
            let failure = match token {
                Token::LParen => self.lparen(),
                Token::RParen => self.rparen(),
                Token::Quote => self.quote(),
                Token::Identifier(name) => self.ident(name),
                Token::Integer(digits) => self.integer(digits),
                Token::String(text) => self.string(text),
                Token::Boolean(val) => self.boolean(val),
            };
            if let Some(err) = failure {
                return Err(err);
            }
            proof {
                lemma_step_keeps_active(before.machine, token@);
                lemma_run_rest(self@.machine, self@.tokens);
                let left = self@.tokens.take(self@.tokens.len() - goal.1.len());
                assert forall|i: int| 0 <= i < left.len() implies (#[trigger] left[i] matches Ok(
                    TokenView::Integer(digits),
                ) ==> is_decimal(digits)) by {
                    assert(left[i] == read[i + 1]);
                }
            }
        }
        assert(self@.tokens =~= Seq::empty());
        if self.level != 0 {
            return Err(Error::UnbalancedParens);
        }
        let ghost finished = self@.machine;
        let program = self.list_stack.pop().unwrap();
        assert(self@.machine.stack =~= finished.stack.drop_last());
        assert(all_well_formed(finished.stack[finished.stack.len() - 1]));
        Ok(TopLevel(program))
    }

    // ---------------------------------------------------------------------- //
    // Token specific methods                                                 //
    // ---------------------------------------------------------------------- //

    // Grouping token methods: (, ), ' -------------------------------------- //
    /// `(`: opens a list.
    fn lparen(&mut self) -> (failure: Option<Error>)
        requires
            old(self).wf(),
            old(self)@.machine.active(),
        ensures
            final(self).wf(),
            (final(self)@.machine, failure) == old(self)@.machine.lparen(),
            final(self)@.tokens == old(self)@.tokens,
    {
        self.level = self.level + 1;
        self.list_stack.push(Vec::new());
        assert(self@.machine.stack =~~= old(self)@.machine.stack.push(Seq::empty()));
        None
    }

    /// `)`: closes the innermost list and appends it to the one around it.
    fn rparen(&mut self) -> (failure: Option<Error>)
        requires
            old(self).wf(),
            old(self)@.machine.active(),
        ensures
            final(self).wf(),
            (final(self)@.machine, failure) == old(self)@.machine.rparen(),
            final(self)@.tokens == old(self)@.tokens,
    {
        if self.level > 0 {
            self.level = self.level - 1;
            // A quoted list is an error.
            if self.should_quote() {
                return Some(Error::QuotingNotSupported);
            }
            let ghost lowered = self@.machine;
            let current = self.list_stack.pop().unwrap();
            proof {
                lemma_list_view(current);
                lemma_well_formed_list(exprs_view(current@));
                assert(lowered.stack.last() == exprs_view(current@));
                assert(all_well_formed(lowered.stack[lowered.stack.len() - 1]));
                assert(self@.machine.stack =~= lowered.stack.drop_last());
            }
            self.push_last(Expr::List(current));
            None
        } else {
            Some(Error::UnbalancedParens)
        }
    }

    /// `'`: lets a quote wait at the current level.
    fn quote(&mut self) -> (failure: Option<Error>)
        requires
            old(self).wf(),
        ensures
            final(self).wf(),
            (final(self)@.machine, failure) == old(self)@.machine.quote(),
            final(self)@.tokens == old(self)@.tokens,
    {
        self.quote_levels.insert(self.level);
        assert(self@.machine.armed =~= old(self)@.machine.armed.insert(self.level as nat));
        assert(self@.machine.stack == old(self)@.machine.stack);
        None
    }

    // Other token methods -------------------------------------------------- //
    /// Appends an identifier, quoted where a quote waits for it.
    fn ident(&mut self, name: String) -> (failure: Option<Error>)
        requires
            old(self).wf(),
            old(self)@.machine.active(),
        ensures
            final(self).wf(),
            (final(self)@.machine, failure) == old(self)@.machine.ident(name@),
            final(self)@.tokens == old(self)@.tokens,
    {
        let value = self.quote_if_needed(Expr::Ident(name));
        self.push_last(value);
        None
    }

    /// Appends an integer literal; a quote must not wait for it.
    fn integer(&mut self, digits: String) -> (failure: Option<Error>)
        requires
            old(self).wf(),
            old(self)@.machine.active(),
            is_decimal(digits@),
        ensures
            final(self).wf(),
            (final(self)@.machine, failure) == old(self)@.machine.literal(
                ExprView::Int(decimal_value(digits@) as int),
            ),
            final(self)@.tokens == old(self)@.tokens,
    {
        if self.should_quote() {
            return Some(Error::QuotingNotSupported);
        }
        // Only valid ints end up here.
        let value = Integer::from_decimal(digits.as_str()).unwrap();
        self.push_last(Expr::Int(value));
        None
    }

    /// Appends a string literal; a quote must not wait for it.
    fn string(&mut self, text: String) -> (failure: Option<Error>)
        requires
            old(self).wf(),
            old(self)@.machine.active(),
        ensures
            final(self).wf(),
            (final(self)@.machine, failure) == old(self)@.machine.literal(ExprView::Str(text@)),
            final(self)@.tokens == old(self)@.tokens,
    {
        if self.should_quote() {
            return Some(Error::QuotingNotSupported);
        }
        self.push_last(Expr::Str(text));
        None
    }

    /// Appends a truth value; a quote must not wait for it.
    fn boolean(&mut self, val: bool) -> (failure: Option<Error>)
        requires
            old(self).wf(),
            old(self)@.machine.active(),
        ensures
            final(self).wf(),
            (final(self)@.machine, failure) == old(self)@.machine.literal(ExprView::Bool(val)),
            final(self)@.tokens == old(self)@.tokens,
    {
        if self.should_quote() {
            return Some(Error::QuotingNotSupported);
        }
        self.push_last(Expr::Bool(val));
        None
    }

    // ---------------------------------------------------------------------- //
    // Helper methods                                                         //
    // ---------------------------------------------------------------------- //

    // List stack access ---------------------------------------------------- //
    /// Appends `expr` to the innermost list.
    fn push_last(&mut self, expr: Expr)
        requires
            old(self).wf(),
            old(self)@.machine.active(),
            well_formed(expr@),
        ensures
            final(self).wf(),
            final(self)@.machine == old(self)@.machine.push_last(expr@),
            final(self)@.tokens == old(self)@.tokens,
    {
        let ghost before = self@.machine;
        let mut last = self.list_stack.pop().unwrap();
        proof {
            lemma_exprs_view_push(last@, expr);
            assert(all_well_formed(before.stack[before.stack.len() - 1]));
        }
        last.push(expr);
        self.list_stack.push(last);
        assert(self@.machine.stack =~= before.stack.update(
            before.stack.len() - 1,
            before.stack.last().push(expr@),
        ));
    }

    // Quote related methods ------------------------------------------------ //
    /// Whether a quote waits at the current level; it is used up.
    fn should_quote(&mut self) -> (quoted: bool)
        requires
            old(self).wf(),
        ensures
            final(self).wf(),
            (final(self)@.machine, quoted) == old(self)@.machine.take_quote(),
            final(self)@.tokens == old(self)@.tokens,
    {
        let level = self.level;
        if self.quote_levels.contains(&level) {
            self.quote_levels.remove(&level);
            assert(self@.machine.armed =~= old(self)@.machine.armed.remove(level as nat));
            true
        } else {
            false
        }
    }

    /// `expr`, quoted where a quote waits at the current level.
    fn quote_if_needed(&mut self, expr: Expr) -> (quoted: Expr)
        requires
            old(self).wf(),
            expr is Ident,
        ensures
            final(self).wf(),
            (final(self)@.machine, quoted@) == old(self)@.machine.quote_if_needed(expr@),
            final(self)@.tokens == old(self)@.tokens,
            well_formed(quoted@),
    {
        if self.should_quote() {
            proof {
                reveal_with_fuel(Expr::model, 2);
            }
            Expr::Quoted(Box::new(expr))
        } else {
            expr
        }
    }
}

// -------------------------------------------------------------------------- //
// From source text to program                                                //
// -------------------------------------------------------------------------- //

/// The program that the source text `source` spells, or the first error in
/// it.
pub open spec fn parse_text(source: Seq<char>) -> Result<Seq<ExprView>, Error> {
    parse_tokens(scan_all(source))
}

/// Lexes and parses `source`.
pub fn parse_source(source: &str) -> (result: Result<TopLevel, Error>)
    ensures
        program_view(result) == parse_text(source@),
        result matches Ok(program) ==> all_well_formed(program@),
{
    let tokens = Lexer::from(source).tokens();
    let mut parser = Parser::new(tokens);
    proof {
        lemma_scan_literals(source@);
        let read = items_read(parser@);
        lemma_run_rest(parser@.machine.begin(), parser@.tokens);
        assert forall|i: int| 0 <= i < read.len() implies (#[trigger] read[i] matches Ok(
            TokenView::Integer(digits),
        ) ==> is_decimal(digits)) by {
            assert(read[i] == parser@.tokens[i]);
        }
    }
    parser.parse()
}

/// Every integer literal that the lexer yields is a decimal literal.
pub proof fn lemma_scan_literals(source: Seq<char>)
    ensures
        literals_valid(scan_all(source)),
    decreases source.len(),
{
    let t = trim_start(source);
    match scan(source) {
        Some((Ok(token), rest)) => {
            if token is Integer {
                let p = |c: char| digit(c);
                lemma_run_len(t, p);
                assert(p(t[0]));
                assert(is_decimal(t.take(run_len(t, p) as int)));
            }
            if rest.len() < source.len() {
                lemma_scan_literals(rest);
                let all = scan_all(source);
                assert forall|i: int| 0 <= i < all.len() implies (#[trigger] all[i] matches Ok(
                    TokenView::Integer(digits),
                ) ==> is_decimal(digits)) by {
                    if i > 0 {
                        assert(all[i] == scan_all(rest)[i - 1]);
                    }
                }
            }
        },
        _ => {},
    }
}

/// Parsing the same source text twice gives the same program or the same
/// error: what `parse_source` returns depends on the text alone.
pub proof fn lemma_parse_source_repeatable(
    source: Seq<char>,
    first: Result<TopLevel, Error>,
    second: Result<TopLevel, Error>,
)
    requires
        program_view(first) == parse_text(source),
        program_view(second) == parse_text(source),
    ensures
        program_view(first) == program_view(second),
{
}

// -------------------------------------------------------------------------- //
// Balance of parentheses                                                     //
// -------------------------------------------------------------------------- //

/// What `item` adds to the number of open lists.
pub open spec fn paren_delta(item: ItemView) -> int {
    match item {
        Ok(TokenView::LParen) => 1,
        Ok(TokenView::RParen) => -1,
        _ => 0,
    }
}

/// The number of `(` among `items` less the number of `)`.
pub open spec fn depth(items: Seq<ItemView>) -> int
    decreases items.len(),
{
    if items.len() == 0 {
        0
    } else {
        paren_delta(items[0]) + depth(items.drop_first())
    }
}

/// Whether the parentheses among `items` match: there are as many `(` as `)`,
/// and no `)` comes before the `(` that it closes.
pub open spec fn balanced(items: Seq<ItemView>) -> bool {
    &&& depth(items) == 0
    &&& forall|n: int| 0 <= n <= items.len() ==> depth(#[trigger] items.take(n)) >= 0
}

/// While no item fails, the machine's level is the level it started at plus
/// the depth of what it has seen, and no prefix takes it below zero; it fails
/// with `UnbalancedParens` only where a prefix does.
pub proof fn lemma_run_depth(machine: Machine, items: Seq<ItemView>)
    ensures
        run(machine, items).2 is None ==> {
            &&& run(machine, items).0.level == machine.level + depth(items)
            &&& forall|n: int|
                0 <= n <= items.len() ==> machine.level + depth(#[trigger] items.take(n)) >= 0
        },
        run(machine, items).2 == Some(Error::UnbalancedParens) ==> exists|n: int|
            0 <= n <= items.len() && machine.level + depth(#[trigger] items.take(n)) < 0,
    decreases items.len(),
{
    assert(items.take(0) =~= Seq::empty());
    if items.len() > 0 {
        let tail = items.drop_first();
        assert forall|n: int| 0 < n <= items.len() implies #[trigger] depth(items.take(n))
            == paren_delta(items[0]) + depth(tail.take(n - 1)) by {
            assert(items.take(n).drop_first() =~= tail.take(n - 1));
        }
        match items[0] {
            Err(_) => {},
            Ok(token) => {
                let (next, failure) = machine.step(token);
                if failure is Some {
                    if failure == Some(Error::UnbalancedParens) {
                        assert(token is RParen && machine.level == 0);
                        assert(machine.level + depth(items.take(1)) < 0) by {
                            assert(tail.take(0) =~= Seq::empty());
                        }
                    }
                } else {
                    lemma_run_depth(next, tail);
                    assert(next.level == machine.level + paren_delta(items[0]));
                    if run(machine, items).2 == Some(Error::UnbalancedParens) {
                        let n = choose|n: int|
                            0 <= n <= tail.len() && next.level + depth(#[trigger] tail.take(n)) < 0;
                        assert(machine.level + depth(items.take(n + 1)) < 0);
                    }
                }
            },
        }
    }
}

/// A program comes out only of balanced parentheses, and `UnbalancedParens`
/// only of unbalanced ones.
pub proof fn lemma_balance(items: Seq<ItemView>)
    ensures
        parse_tokens(items) is Ok ==> balanced(items),
        parse_tokens(items) == Err::<Seq<ExprView>, Error>(Error::UnbalancedParens) ==> !balanced(
            items,
        ),
{
    lemma_run_depth(Machine::fresh().begin(), items);
    assert(items.take(items.len() as int) =~= items);
}

/// Unless another error comes first, parsing fails with `UnbalancedParens`
/// exactly where the parentheses do not match.
pub proof fn lemma_unbalanced_iff(items: Seq<ItemView>)
    requires
        balanced(items) || parse_tokens(items) is Ok || parse_tokens(items) == Err::<
            Seq<ExprView>,
            Error,
        >(Error::UnbalancedParens),
    ensures
        parse_tokens(items) == Err::<Seq<ExprView>, Error>(Error::UnbalancedParens) <==> !balanced(
            items,
        ),
{
    lemma_balance(items);
}

} // verus!

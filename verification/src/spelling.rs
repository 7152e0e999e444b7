//! How a program is spelled in tokens, and that the parser reads every such
//! spelling back as the program.

use crate::ast::ExprView;
use crate::integer::{decimal_value, is_decimal};
use crate::lexer::{digit, identifier_char, identifier_start, run_len, scan, scan_all};
use crate::lexer::{string_char, trim_start, whitespace, ItemView};
use crate::lexer::{lemma_run_len, lemma_run_len_unique, lemma_scan_consumes};
use crate::parser::{parse_text, parse_tokens, run, Error, Machine};
use crate::token::TokenView;
use vstd::prelude::*;

verus! {

// -------------------------------------------------------------------------- //
// Decimal digits                                                             //
// -------------------------------------------------------------------------- //

/// The character of the digit `d`.
pub open spec fn digit_char(d: nat) -> char
    recommends
        d < 10,
{
    ('0' as nat + d) as char
}

/// The decimal literal of `n`, without leading zeros.
pub open spec fn digits_of(n: nat) -> Seq<char>
    decreases n,
{
    if n < 10 {
        seq![digit_char(n)]
    } else {
        digits_of(n / 10).push(digit_char(n % 10))
    }
}

/// The decimal literal of a number is a decimal literal, and it spells the
/// number.
pub proof fn lemma_digits_of(n: nat)
    ensures
        is_decimal(digits_of(n)),
        decimal_value(digits_of(n)) == n,
    decreases n,
{
    let text = digits_of(n);
    if n < 10 {
        assert(digit(text[0]));
        assert(text.drop_last() =~= Seq::<char>::empty());
        assert(decimal_value(text.drop_last()) == 0);
    } else {
        lemma_digits_of(n / 10);
        let front = digits_of(n / 10);
        assert(text.drop_last() =~= front);
        assert(digit(text.last()));
        assert forall|i: int| 0 <= i < text.len() implies digit(#[trigger] text[i]) by {
            if i < front.len() {
                assert(text[i] == front[i]);
            }
        }
    }
}

// -------------------------------------------------------------------------- //
// Spelling                                                                   //
// -------------------------------------------------------------------------- //

/// Whether `expr` can be written down: its integers are not negative, and
/// nothing but identifiers is quoted in it.
pub open spec fn writable(expr: ExprView) -> bool
    decreases expr, 0nat,
{
    match expr {
        ExprView::Int(value) => value >= 0,
        ExprView::Quoted(inner) => *inner is Ident,
        ExprView::List(items) => writable_each(items, items.len()),
        _ => true,
    }
}

/// Whether the first `n` of `items` can be written down.
pub open spec fn writable_each(items: Seq<ExprView>, n: nat) -> bool
    decreases items, n,
{
    if n == 0 || n > items.len() {
        true
    } else {
        writable_each(items, (n - 1) as nat) && writable(items[n - 1])
    }
}

/// The tokens that spell `expr`.
pub open spec fn tokens_of(expr: ExprView) -> Seq<TokenView>
    decreases expr, 0nat,
{
    match expr {
        ExprView::Ident(name) => seq![TokenView::Identifier(name)],
        ExprView::Int(value) => seq![TokenView::Integer(digits_of(value as nat))],
        ExprView::Str(text) => seq![TokenView::String(text)],
        ExprView::Bool(value) => seq![TokenView::Boolean(value)],
        ExprView::Quoted(inner) => seq![TokenView::Quote] + tokens_of(*inner),
        ExprView::List(items) => seq![TokenView::LParen] + tokens_of_each(items, items.len())
            + seq![TokenView::RParen],
    }
}

/// The tokens that spell the first `n` of `items`, one after the other.
pub open spec fn tokens_of_each(items: Seq<ExprView>, n: nat) -> Seq<TokenView>
    decreases items, n,
{
    if n == 0 || n > items.len() {
        Seq::empty()
    } else {
        tokens_of_each(items, (n - 1) as nat) + tokens_of(items[n - 1])
    }
}

/// The tokens that spell `program`.
pub open spec fn tokens_of_program(program: Seq<ExprView>) -> Seq<TokenView> {
    tokens_of_each(program, program.len())
}

/// `tokens` as the lexer yields them: each as a success.
pub open spec fn lexed(tokens: Seq<TokenView>) -> Seq<ItemView> {
    Seq::new(tokens.len(), |i: int| Ok(tokens[i]))
}

// -------------------------------------------------------------------------- //
// Reading a spelling back                                                    //
// -------------------------------------------------------------------------- //

/// Whether the machine has a list to append to and no quote waits at its
/// level or at one above.
pub open spec fn ready(machine: Machine) -> bool {
    &&& machine.active()
    &&& forall|level: nat| level >= machine.level ==> !machine.armed.contains(level)
}

/// `machine` with `exprs` appended to its innermost list.
pub open spec fn push_all(machine: Machine, exprs: Seq<ExprView>) -> Machine {
    Machine {
        stack: machine.stack.update(machine.stack.len() - 1, machine.stack.last() + exprs),
        ..machine
    }
}

/// Given the tokens that spell an expression, the machine appends that
/// expression and goes on with what follows.
pub proof fn lemma_run_tokens_of(machine: Machine, expr: ExprView, rest: Seq<ItemView>)
    requires
        ready(machine),
        writable(expr),
    ensures
        run(machine, lexed(tokens_of(expr)) + rest) == run(machine.push_last(expr), rest),
    decreases expr, 0nat,
{
    let all = lexed(tokens_of(expr)) + rest;
    match expr {
        ExprView::Quoted(inner) => {
            let name = inner->Ident_0;
            let armed = machine.quote().0;
            let tail = seq![Ok::<TokenView, crate::lexer::Error>(TokenView::Identifier(name))]
                + rest;
            assert(tokens_of(*inner) == seq![TokenView::Identifier(name)]);
            assert(all.drop_first() =~= tail);
            assert(tail.drop_first() =~= rest);
            assert(armed.armed.remove(machine.level) =~= machine.armed);
            assert(run(armed, tail) == run(machine.push_last(expr), rest));
        },
        ExprView::List(items) => {
            let opened = machine.lparen().0;
            let inside = lexed(tokens_of_each(items, items.len()));
            let close = seq![Ok::<TokenView, crate::lexer::Error>(TokenView::RParen)];
            assert(all.drop_first() =~= inside + (close + rest));
            assert(items.take(items.len() as int) =~= items);
            lemma_run_tokens_of_each(opened, items, items.len(), close + rest);
            let filled = push_all(opened, items);
            assert((close + rest).drop_first() =~= rest);
            assert(filled.stack.last() =~= items);
            assert(filled.rparen().0.stack =~= machine.push_last(expr).stack);
            assert(filled.rparen().0 == machine.push_last(expr));
            assert(run(filled, close + rest) == run(machine.push_last(expr), rest));
        },
        ExprView::Int(value) => {
            lemma_digits_of(value as nat);
            assert(all.drop_first() =~= rest);
        },
        _ => {
            assert(all.drop_first() =~= rest);
        },
    }
}

/// Given the tokens that spell a run of expressions, the machine appends
/// them in order and goes on with what follows.
pub proof fn lemma_run_tokens_of_each(
    machine: Machine,
    items: Seq<ExprView>,
    n: nat,
    rest: Seq<ItemView>,
)
    requires
        ready(machine),
        n <= items.len(),
        writable_each(items, n),
    ensures
        run(machine, lexed(tokens_of_each(items, n)) + rest) == run(
            push_all(machine, items.take(n as int)),
            rest,
        ),
    decreases items, n,
{
    if n == 0 {
        assert(lexed(tokens_of_each(items, n)) + rest =~= rest);
        assert(push_all(machine, items.take(0)).stack =~= machine.stack);
    } else {
        let before = lexed(tokens_of_each(items, (n - 1) as nat));
        let last = lexed(tokens_of(items[n - 1]));
        assert(lexed(tokens_of_each(items, n)) + rest =~= before + (last + rest));
        lemma_run_tokens_of_each(machine, items, (n - 1) as nat, last + rest);
        let filled = push_all(machine, items.take(n - 1));
        lemma_run_tokens_of(filled, items[n - 1], rest);
        assert(filled.push_last(items[n - 1]).stack =~= push_all(
            machine,
            items.take(n as int),
        ).stack) by {
            assert(items.take(n as int) =~= items.take(n - 1).push(items[n - 1]));
            assert((machine.stack.last() + items.take(n - 1)).push(items[n - 1])
                =~= machine.stack.last() + items.take(n as int));
        }
    }
}

/// Whatever can be written down is read back as it was: the parser turns
/// the tokens that spell a program into that program.
pub proof fn lemma_parse_spelling(program: Seq<ExprView>)
    requires
        writable_each(program, program.len()),
    ensures
        parse_tokens(lexed(tokens_of_program(program))) == Ok::<Seq<ExprView>, Error>(program),
{
    let start = Machine::fresh().begin();
    let tokens = lexed(tokens_of_program(program));
    assert(tokens + Seq::<ItemView>::empty() =~= tokens);
    assert(program.take(program.len() as int) =~= program);
    lemma_run_tokens_of_each(start, program, program.len(), Seq::empty());
    let end = push_all(start, program);
    assert(end.stack.last() =~= program);
}

// -------------------------------------------------------------------------- //
// From tokens to text and back                                               //
// -------------------------------------------------------------------------- //

/// Whether the lexer can yield `token`: an identifier starts and goes on as
/// identifiers do, an integer is a decimal literal, and a string holds no
/// double quote. There is no text for a truth value.
pub open spec fn lexable(token: TokenView) -> bool {
    match token {
        TokenView::Identifier(name) => {
            &&& name.len() > 0
            &&& identifier_start(name[0])
            &&& forall|i: int| 0 <= i < name.len() ==> identifier_char(#[trigger] name[i])
        },
        TokenView::Integer(digits) => is_decimal(digits),
        TokenView::String(text) => forall|i: int|
            0 <= i < text.len() ==> string_char(#[trigger] text[i]),
        TokenView::Boolean(_) => false,
        _ => true,
    }
}

/// Whether the lexer can yield each of `tokens`.
pub open spec fn all_lexable(tokens: Seq<TokenView>) -> bool {
    forall|i: int| 0 <= i < tokens.len() ==> lexable(#[trigger] tokens[i])
}

/// The text of `token`.
pub open spec fn text_of(token: TokenView) -> Seq<char> {
    match token {
        TokenView::LParen => seq!['('],
        TokenView::RParen => seq![')'],
        TokenView::Quote => seq!['\''],
        TokenView::Identifier(name) => name,
        TokenView::Integer(digits) => digits,
        TokenView::String(text) => seq!['"'] + text + seq!['"'],
        TokenView::Boolean(_) => Seq::empty(),
    }
}

/// The text of `tokens`: each followed by a space.
pub open spec fn source_of(tokens: Seq<TokenView>) -> Seq<char>
    decreases tokens.len(),
{
    if tokens.len() == 0 {
        Seq::empty()
    } else {
        text_of(tokens[0]) + seq![' '] + source_of(tokens.drop_first())
    }
}

/// The lexer reads the text of one token, and leaves what follows it.
pub proof fn lemma_scan_text_of(token: TokenView, rest: Seq<char>)
    requires
        lexable(token),
    ensures
        scan(text_of(token) + seq![' '] + rest) == Some(
            (Ok::<TokenView, crate::lexer::Error>(token), seq![' '] + rest),
        ),
{
    let text = text_of(token);
    let after = seq![' '] + rest;
    let s = text + seq![' '] + rest;
    assert(s =~= text + after);
    assert(text.len() > 0 && !whitespace(text[0]) && s[0] == text[0]);
    assert(run_len(s, |c: char| whitespace(c)) == 0);
    assert(trim_start(s) =~= s);
    match token {
        TokenView::Identifier(name) => {
            let p = |c: char| identifier_char(c);
            assert forall|i: int| 0 <= i < name.len() implies p(#[trigger] s[i]) by {
                assert(s[i] == name[i]);
            }
            assert(s[name.len() as int] == ' ');
            lemma_run_len_unique(s, p, name.len());
            assert(s.take(name.len() as int) =~= name);
            assert(s.skip(name.len() as int) =~= after);
        },
        TokenView::Integer(digits) => {
            let p = |c: char| digit(c);
            assert forall|i: int| 0 <= i < digits.len() implies p(#[trigger] s[i]) by {
                assert(s[i] == digits[i]);
            }
            assert(s[digits.len() as int] == ' ');
            lemma_run_len_unique(s, p, digits.len());
            assert(s.take(digits.len() as int) =~= digits);
            assert(s.skip(digits.len() as int) =~= after);
        },
        TokenView::String(inner) => {
            let p = |c: char| string_char(c);
            let body = s.drop_first();
            assert forall|i: int| 0 <= i < inner.len() implies p(#[trigger] body[i]) by {
                assert(body[i] == inner[i]);
            }
            assert(body[inner.len() as int] == '"');
            lemma_run_len_unique(body, p, inner.len());
            assert(body.take(inner.len() as int) =~= inner);
            assert(body.skip(inner.len() + 1 as int) =~= after);
        },
        _ => {
            assert(s.drop_first() =~= after);
        },
    }
}

/// A space in front changes nothing of what the lexer yields.
pub proof fn lemma_scan_all_space(s: Seq<char>)
    ensures
        scan_all(seq![' '] + s) == scan_all(s),
{
    let spaced = seq![' '] + s;
    let p = |c: char| whitespace(c);
    assert(spaced.drop_first() =~= s);
    assert(p(spaced[0]));
    assert(run_len(spaced, p) == 1 + run_len(s, p));
    lemma_run_len(s, p);
    assert(trim_start(spaced) =~= trim_start(s));
    lemma_scan_consumes(s);
    lemma_scan_consumes(spaced);
}

/// The lexer reads the text of tokens back as those tokens.
pub proof fn lemma_scan_source_of(tokens: Seq<TokenView>)
    requires
        all_lexable(tokens),
    ensures
        scan_all(source_of(tokens)) == lexed(tokens),
    decreases tokens.len(),
{
    if tokens.len() == 0 {
        assert(run_len(source_of(tokens), |c: char| whitespace(c)) == 0);
        assert(scan_all(source_of(tokens)) =~= lexed(tokens));
    } else {
        let tail = tokens.drop_first();
        assert forall|i: int| 0 <= i < tail.len() implies lexable(#[trigger] tail[i]) by {
            assert(tail[i] == tokens[i + 1]);
        }
        lemma_scan_source_of(tail);
        lemma_scan_text_of(tokens[0], source_of(tail));
        lemma_scan_all_space(source_of(tail));
        lemma_scan_consumes(source_of(tokens));
        assert(scan_all(source_of(tokens)) =~= lexed(tokens));
    }
}

/// A program that is written down as text is read back as it was.
pub proof fn lemma_parse_written(program: Seq<ExprView>)
    requires
        writable_each(program, program.len()),
        all_lexable(tokens_of_program(program)),
    ensures
        parse_text(source_of(tokens_of_program(program))) == Ok::<Seq<ExprView>, Error>(program),
{
    lemma_scan_source_of(tokens_of_program(program));
    lemma_parse_spelling(program);
}

} // verus!

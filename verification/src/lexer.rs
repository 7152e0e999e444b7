//! The lexer: turns source characters into tokens, one lexical unit at a time.

use crate::token::{Token, TokenView};
use vstd::prelude::*;
use vstd::std_specs::convert::FromSpecImpl;

verus! {

/// Why a piece of source text is not a token.
#[derive(Clone, Copy, Debug, PartialEq)]
pub enum Error {
    UnexpectedSymbol(char),
    UnclosedString,
}

/// What the lexer yields for one lexical unit, as a mathematical value.
pub type ItemView = Result<TokenView, Error>;

/// The mathematical value of a lexed item: the token's text as a sequence of
/// characters, or the error as it is.
pub open spec fn item_view(item: Result<Token, Error>) -> ItemView {
    match item {
        Ok(token) => Ok(token@),
        Err(error) => Err(error),
    }
}

/// The mathematical value of a run of lexed items.
pub open spec fn items_view(items: Seq<Result<Token, Error>>) -> Seq<ItemView> {
    items.map_values(|item: Result<Token, Error>| item_view(item))
}

// -------------------------------------------------------------------------- //
// Character classes                                                          //
// -------------------------------------------------------------------------- //

/// ASCII whitespace: space, tab, line feed, form feed, carriage return.
pub open spec fn whitespace(c: char) -> bool {
    c == ' ' || c == '\t' || c == '\n' || c == '\x0C' || c == '\r'
}

/// An ASCII decimal digit.
pub open spec fn digit(c: char) -> bool {
    '0' <= c <= '9'
}

/// A visible ASCII character: `!` up to `~`.
pub open spec fn graphic(c: char) -> bool {
    '!' <= c <= '~'
}

/// A character that may continue an identifier.
pub open spec fn identifier_char(c: char) -> bool {
    graphic(c) && c != '(' && c != ')' && c != '"'
}

/// A character at which an identifier begins: one that may continue an
/// identifier and is neither a digit, which begins an integer, nor the quote,
/// which is a token of its own.
pub open spec fn identifier_start(c: char) -> bool {
    identifier_char(c) && !digit(c) && c != '\''
}

/// A character that belongs to the inside of a string literal.
pub open spec fn string_char(c: char) -> bool {
    c != '"'
}

// -------------------------------------------------------------------------- //
// What the lexer computes                                                    //
// -------------------------------------------------------------------------- //

/// The length of the longest prefix of `s` whose characters all satisfy `p`.
pub open spec fn run_len(s: Seq<char>, p: spec_fn(char) -> bool) -> nat
    decreases s.len(),
{
    if s.len() > 0 && p(s[0]) {
        1 + run_len(s.drop_first(), p)
    } else {
        0
    }
}

/// `s` without its leading whitespace.
pub open spec fn trim_start(s: Seq<char>) -> Seq<char> {
    s.skip(run_len(s, |c: char| whitespace(c)) as int)
}

/// The string literal that starts with the first character of `s`: its text
/// and what follows the closing quote, or `UnclosedString` and nothing where
/// the input ends first.
pub open spec fn scan_string(s: Seq<char>) -> (ItemView, Seq<char>) {
    let body = if s.len() > 0 {
        s.drop_first()
    } else {
        s
    };
    let n = run_len(body, |c: char| string_char(c));
    if n == body.len() {
        (Err(Error::UnclosedString), Seq::empty())
    } else {
        (Ok(TokenView::String(body.take(n as int))), body.skip(n + 1 as int))
    }
}

/// The integer literal at the start of `s` and what follows it.
pub open spec fn scan_integer(s: Seq<char>) -> (ItemView, Seq<char>) {
    let n = run_len(s, |c: char| digit(c));
    (Ok(TokenView::Integer(s.take(n as int))), s.skip(n as int))
}

/// The identifier at the start of `s` and what follows it.
pub open spec fn scan_identifier(s: Seq<char>) -> (ItemView, Seq<char>) {
    let n = run_len(s, |c: char| identifier_char(c));
    (Ok(TokenView::Identifier(s.take(n as int))), s.skip(n as int))
}

/// The first lexical unit of `s` and the input that is left after it, or
/// `None` where `s` holds nothing but whitespace.
///
/// Parentheses and the quote are always single tokens; a digit starts an
/// integer; `"` starts a string; any other visible character starts an
/// identifier. Anything else is an unexpected symbol; like a token, it is
/// used up.
pub open spec fn scan(s: Seq<char>) -> Option<(ItemView, Seq<char>)> {
    let t = trim_start(s);
    if t.len() == 0 {
        None
    } else if t[0] == '(' {
        Some((Ok(TokenView::LParen), t.drop_first()))
    } else if t[0] == ')' {
        Some((Ok(TokenView::RParen), t.drop_first()))
    } else if t[0] == '\'' {
        Some((Ok(TokenView::Quote), t.drop_first()))
    } else if digit(t[0]) {
        Some(scan_integer(t))
    } else if t[0] == '"' {
        Some(scan_string(t))
    } else if identifier_start(t[0]) {
        Some(scan_identifier(t))
    } else {
        Some((Err(Error::UnexpectedSymbol(t[0])), t.drop_first()))
    }
}

/// Every item that lexing `s` yields, in order, up to and including the
/// first error.
pub open spec fn scan_all(s: Seq<char>) -> Seq<ItemView>
    decreases s.len(),
{
    match scan(s) {
        None => Seq::empty(),
        Some((Err(error), _)) => seq![Err(error)],
        Some((Ok(token), rest)) => if rest.len() < s.len() {
            seq![Ok(token)] + scan_all(rest)
        } else {
            seq![Ok(token)]
        },
    }
}

// -------------------------------------------------------------------------- //
// Facts about runs                                                           //
// -------------------------------------------------------------------------- //

/// A run is never longer than the sequence, consists of characters that
/// satisfy `p`, and ends at a character that does not.
pub proof fn lemma_run_len(s: Seq<char>, p: spec_fn(char) -> bool)
    ensures
        run_len(s, p) <= s.len(),
        forall|i: int| 0 <= i < run_len(s, p) ==> p(#[trigger] s[i]),
        run_len(s, p) < s.len() ==> !p(s[run_len(s, p) as int]),
    decreases s.len(),
{
    if s.len() > 0 && p(s[0]) {
        let tail = s.drop_first();
        lemma_run_len(tail, p);
        assert forall|i: int| 0 <= i < run_len(s, p) implies p(#[trigger] s[i]) by {
            if i > 0 {
                assert(s[i] == tail[i - 1]);
            }
        }
        if run_len(s, p) < s.len() {
            assert(s[run_len(s, p) as int] == tail[run_len(tail, p) as int]);
        }
    }
}

/// The run is the only prefix whose characters all satisfy `p` and that is
/// followed by none that does.
pub proof fn lemma_run_len_unique(s: Seq<char>, p: spec_fn(char) -> bool, n: nat)
    requires
        n <= s.len(),
        forall|i: int| 0 <= i < n ==> p(#[trigger] s[i]),
        n < s.len() ==> !p(s[n as int]),
    ensures
        run_len(s, p) == n,
    decreases s.len(),
{
    if n > 0 {
        let tail = s.drop_first();
        assert(p(s[0]));
        assert forall|i: int| 0 <= i < n - 1 implies p(#[trigger] tail[i]) by {
            assert(tail[i] == s[i + 1]);
        }
        if n - 1 < tail.len() {
            assert(tail[n - 1] == s[n as int]);
        }
        lemma_run_len_unique(tail, p, (n - 1) as nat);
    }
}

/// Neither a token nor an error is empty: whatever a scan yields, less input
/// is left after it.
pub proof fn lemma_scan_consumes(s: Seq<char>)
    ensures
        scan(s) matches Some((_, rest)) ==> rest.len() < s.len(),
{
    let t = trim_start(s);
    lemma_run_len(s, |c: char| whitespace(c));
    if t.len() > 0 {
        if t[0] == '(' || t[0] == ')' || t[0] == '\'' {
        } else if digit(t[0]) {
            let p = |c: char| digit(c);
            lemma_run_len(t, p);
            assert(p(t[0]));
            assert(run_len(t, p) >= 1);
        } else if t[0] == '"' {
            lemma_run_len(t.drop_first(), |c: char| string_char(c));
        } else if identifier_start(t[0]) {
            let p = |c: char| identifier_char(c);
            lemma_run_len(t, p);
            assert(p(t[0]));
            assert(run_len(t, p) >= 1);
        }
    }
}

// -------------------------------------------------------------------------- //
// Main struct                                                                //
// -------------------------------------------------------------------------- //

/// A cursor over the characters of a source text.
pub struct Lexer {
    source: Vec<char>,
    pos: usize,
}

impl View for Lexer {
    type V = Seq<char>;

    /// The characters that have not been consumed yet.
    closed spec fn view(&self) -> Seq<char> {
        self.source@.skip(self.pos as int)
    }
}

/// `String::push`: the string afterwards is the string before with `c`
/// appended as its last character.
#[verifier::external_body]
fn push_char(text: &mut String, c: char)
    ensures
        final(text)@ == old(text)@.push(c),
{
    text.push(c);
}

impl Lexer {
    #[verifier::type_invariant]
    spec fn in_bounds(self) -> bool {
        self.pos <= self.source.len()
    }

    /// A lexer at the start of `source`.
    pub fn new(source: Vec<char>) -> (lexer: Self)
        ensures
            lexer@ == source@,
    {
        Lexer { source, pos: 0 }
    }

    // ---------------------------------------------------------------------- //
    // Primary lexing method                                                  //
    // ---------------------------------------------------------------------- //

    /// Skips whitespace and lexes one token: `None` at the end of the input,
    /// else the token or the error that `scan` gives, with the cursor behind
    /// it. Every item uses up input, an unexpected symbol too, so the items
    /// of a source come to an end.
    pub fn next_token(&mut self) -> (item: Option<Result<Token, Error>>)
        ensures
            match scan(old(self)@) {
                None => item is None && final(self)@.len() == 0,
                Some((expected, rest)) => item matches Some(found) && item_view(found) == expected
                    && final(self)@ == rest,
            },
            item is Some ==> final(self)@.len() < old(self)@.len(),
    {
        proof {
            lemma_scan_consumes(old(self)@);
        }
        self.skip_whitespace();
        let next_char = match self.peek() {
            None => {
                return None;
            },
            Some(c) => c,
        };
        let next_token = if next_char == '(' {
            self.accept(Token::LParen)
        } else if next_char == ')' {
            self.accept(Token::RParen)
        } else if next_char == '\'' {
            self.accept(Token::Quote)
        } else if Self::starts_integer(&next_char) {
            self.parse_integer()
        } else if Self::starts_string(&next_char) {
            self.parse_string()
        } else if Self::starts_identifier(&next_char) {
            self.parse_identifier()
        } else {
            self.consume();
            Err(Error::UnexpectedSymbol(next_char))
        };
        Some(next_token)
    }

    /// Lexes the rest of the input: every item in order, up to and including
    /// the first error.
    pub fn tokens(self) -> (items: Vec<Result<Token, Error>>)
        ensures
            items_view(items@) == scan_all(self@),
    {
        let mut lexer = self;
        let mut items: Vec<Result<Token, Error>> = Vec::new();
        loop
            invariant_except_break
                items_view(items@) + scan_all(lexer@) == scan_all(self@),
            ensures
                items_view(items@) == scan_all(self@),
            decreases lexer@.len(),
        {
            let ghost before = lexer@;
            let ghost done = items_view(items@);
            proof {
                lemma_scan_consumes(before);
            }
            match lexer.next_token() {
                None => {
                    assert(done + Seq::<ItemView>::empty() == done);
                    break;
                },
                Some(item) => {
                    let failed = item.is_err();
                    items.push(item);
                    assert(items_view(items@) == done.push(item_view(item)));
                    if failed {
                        assert(done + seq![item_view(item)] == done.push(item_view(item)));
                        break;
                    }
                    assert(done + (seq![item_view(item)] + scan_all(lexer@)) == done.push(
                        item_view(item),
                    ) + scan_all(lexer@));
                },
            }
        }
        items
    }

    // ---------------------------------------------------------------------- //
    // Whitespace handling                                                    //
    // ---------------------------------------------------------------------- //

    /// Whether `c` is ASCII whitespace.
    pub fn is_whitespace(c: &char) -> (b: bool)
        ensures
            b == whitespace(*c),
    {
        *c == ' ' || *c == '\t' || *c == '\n' || *c == '\x0C' || *c == '\r'
    }

    /// Moves the cursor to the first character that is not whitespace.
    pub fn skip_whitespace(&mut self)
        ensures
            final(self)@ == trim_start(old(self)@),
    {
        self.skip_while(|c: &char| -> (b: bool)
            ensures b == whitespace(*c),
            { Self::is_whitespace(c) });
        proof {
            let n = (old(self)@.len() - self@.len()) as nat;
            lemma_run_len_unique(old(self)@, |c: char| whitespace(c), n);
        }
    }

    // ---------------------------------------------------------------------- //
    // Token specific lexing methods                                          //
    // ---------------------------------------------------------------------- //

    // Identifier ----------------------------------------------------------- //
    /// Whether an identifier begins with `c`: a visible ASCII character that
    /// is no digit, parenthesis or quote of either kind.
    pub fn starts_identifier(c: &char) -> (b: bool)
        ensures
            b == identifier_start(*c),
    {
        Self::continues_identifier(c) && !Self::starts_integer(c) && *c != '\''
    }

    /// Whether `c` may continue an identifier.
    fn continues_identifier(c: &char) -> (b: bool)
        ensures
            b == identifier_char(*c),
    {
        *c >= '!' && *c <= '~' && *c != '(' && *c != ')' && *c != '"'
    }

    /// Consumes the longest run of identifier characters and yields it as an
    /// identifier.
    pub fn parse_identifier(&mut self) -> (item: Result<Token, Error>)
        ensures
            (item_view(item), final(self)@) == scan_identifier(old(self)@),
    {
        let text = self.collect_while(|c: &char| -> (b: bool)
            ensures b == identifier_char(*c),
            { Self::continues_identifier(c) });
        proof {
            lemma_run_len_unique(old(self)@, |c: char| identifier_char(c), text@.len());
        }
        Ok(Token::Identifier(text))
    }

    // Integer -------------------------------------------------------------- //
    /// Whether `c` is an ASCII digit, with which an integer begins.
    pub fn starts_integer(c: &char) -> (b: bool)
        ensures
            b == digit(*c),
    {
        *c >= '0' && *c <= '9'
    }

    /// Consumes the longest run of digits and yields it as an integer
    /// literal.
    pub fn parse_integer(&mut self) -> (item: Result<Token, Error>)
        ensures
            (item_view(item), final(self)@) == scan_integer(old(self)@),
    {
        let digits = self.collect_while(|c: &char| -> (b: bool)
            ensures b == digit(*c),
            { Self::starts_integer(c) });
        proof {
            lemma_run_len_unique(old(self)@, |c: char| digit(c), digits@.len());
        }
        Ok(Token::Integer(digits))
    }

    // String --------------------------------------------------------------- //
    /// Whether `c` is the double quote, with which a string begins.
    pub fn starts_string(c: &char) -> (b: bool)
        ensures
            b == (*c == '"'),
    {
        *c == '"'
    }

    /// Consumes the opening quote, the text up to the next double quote and
    /// that quote, and yields the text; where the input ends before a closing
    /// quote, consumes all of it and fails with `UnclosedString`.
    pub fn parse_string(&mut self) -> (item: Result<Token, Error>)
        ensures
            (item_view(item), final(self)@) == scan_string(old(self)@),
    {
        self.consume();
        let ghost body = self@;
        let contents = self.collect_while(|c: &char| -> (b: bool)
            ensures b == string_char(*c),
            { *c != '"' });
        proof {
            lemma_run_len_unique(body, |c: char| string_char(c), contents@.len());
        }
        if self.peek().is_none() {
            assert(self@ =~= Seq::<char>::empty());
            Err(Error::UnclosedString)
        } else {
            self.consume();
            assert(self@ =~= body.skip(contents@.len() + 1 as int));
            Ok(Token::String(contents))
        }
    }

    // ---------------------------------------------------------------------- //
    // Helper methods                                                         //
    // ---------------------------------------------------------------------- //

    // Single element ------------------------------------------------------- //
    /// The next character, which stays in the input.
    pub fn peek(&self) -> (next: Option<char>)
        ensures
            next == if self@.len() > 0 {
                Some(self@[0])
            } else {
                None
            },
    {
        proof {
            use_type_invariant(self);
        }
        if self.pos < self.source.len() {
            Some(self.source[self.pos])
        } else {
            None
        }
    }

    /// Drops the next character; at the end of the input nothing changes.
    pub fn consume(&mut self)
        ensures
            final(self)@ == if old(self)@.len() > 0 {
                old(self)@.drop_first()
            } else {
                old(self)@
            },
    {
        proof {
            use_type_invariant(&*self);
        }
        if self.pos < self.source.len() {
            self.pos = self.pos + 1;
            assert(self@ =~= old(self)@.drop_first());
        }
    }

    /// Drops the next character and yields `t` for it.
    pub fn accept(&mut self, t: Token) -> (item: Result<Token, Error>)
        ensures
            item == Ok::<Token, Error>(t),
            final(self)@ == if old(self)@.len() > 0 {
                old(self)@.drop_first()
            } else {
                old(self)@
            },
    {
        self.consume();
        Ok(t)
    }

    // Multi element -------------------------------------------------------- //
    /// Consumes characters for as long as `matcher` accepts them and yields
    /// them; the first character that it refuses stays in the input.
    pub fn collect_while<F: Fn(&char) -> bool>(&mut self, matcher: F) -> (taken: String)
        requires
            forall|c: char| matcher.requires((&c,)),
        ensures
            taken@.len() <= old(self)@.len(),
            taken@ == old(self)@.take(taken@.len() as int),
            final(self)@ == old(self)@.skip(taken@.len() as int),
            forall|i: int| 0 <= i < taken@.len() ==> matcher.ensures((&old(self)@[i],), true),
            taken@.len() < old(self)@.len() ==> matcher.ensures(
                (&old(self)@[taken@.len() as int],),
                false,
            ),
    {
        let mut taken = String::new();
        loop
            invariant
                forall|c: char| matcher.requires((&c,)),
                taken@.len() <= old(self)@.len(),
                taken@ == old(self)@.take(taken@.len() as int),
                self@ == old(self)@.skip(taken@.len() as int),
                forall|i: int| 0 <= i < taken@.len() ==> matcher.ensures((&old(self)@[i],), true),
            ensures
                taken@.len() < old(self)@.len() ==> matcher.ensures(
                    (&old(self)@[taken@.len() as int],),
                    false,
                ),
            decreases self@.len(),
        {
            let c = match self.peek() {
                None => {
                    break;
                },
                Some(c) => c,
            };
            if !matcher(&c) {
                break;
            }
            let ghost before = taken@;
            push_char(&mut taken, c);
            self.consume();
            assert(taken@ =~= old(self)@.take(taken@.len() as int));
            assert(self@ =~= old(self)@.skip(taken@.len() as int));
        }
        taken
    }

    /// Consumes characters for as long as `matcher` accepts them; the first
    /// character that it refuses stays in the input.
    pub fn skip_while<F: Fn(&char) -> bool>(&mut self, matcher: F)
        requires
            forall|c: char| matcher.requires((&c,)),
        ensures
            final(self)@.len() <= old(self)@.len(),
            final(self)@ == old(self)@.skip(old(self)@.len() - final(self)@.len()),
            forall|i: int|
                0 <= i < old(self)@.len() - final(self)@.len() ==> matcher.ensures(
                    (&old(self)@[i],),
                    true,
                ),
            final(self)@.len() > 0 ==> matcher.ensures((&final(self)@[0],), false),
    {
        let ghost mut skipped: int = 0;
        loop
            invariant
                forall|c: char| matcher.requires((&c,)),
                0 <= skipped <= old(self)@.len(),
                self@.len() == old(self)@.len() - skipped,
                self@ == old(self)@.skip(skipped),
                forall|i: int| 0 <= i < skipped ==> matcher.ensures((&old(self)@[i],), true),
            ensures
                self@.len() > 0 ==> matcher.ensures((&self@[0],), false),
            decreases self@.len(),
        {
            let c = match self.peek() {
                None => {
                    break;
                },
                Some(c) => c,
            };
            if !matcher(&c) {
                break;
            }
            self.consume();
            proof {
                skipped = skipped + 1;
            }
            assert(self@ =~= old(self)@.skip(skipped));
        }
    }
}

// -------------------------------------------------------------------------- //
// Trait implementations                                                      //
// -------------------------------------------------------------------------- //

impl<'a> From<&'a str> for Lexer {
    /// A lexer at the start of the characters of `source`.
    fn from(source: &'a str) -> (lexer: Self)
        ensures
            lexer@ == source@,
    {
        let mut chars: Vec<char> = Vec::new();
        for c in it: source.chars()
            invariant
                chars@ == it.seq().take(it.index()),
        {
            chars.push(c);
        }
        Lexer::new(chars)
    }
}

/// What `from` returns is stated by its own contract: a lexer cannot be
/// written down as a mathematical value.
impl<'a> FromSpecImpl<&'a str> for Lexer {
    open spec fn obeys_from_spec() -> bool {
        false
    }

    open spec fn from_spec(source: &'a str) -> Self {
        arbitrary()
    }
}

} // verus!

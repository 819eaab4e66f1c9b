//! The query compiler: a positioned tokenizer, a precedence-climbing parser
//! producing an [`Expression`] tree, and the tree's evaluation semantics.
//!
//! Every public operation is specified against a spec-level model of the same
//! grammar, so compiling a query is a deterministic function of the input text
//! and the list-name map.

use vstd::prelude::*;

use crate::text::contains_seq;
use crate::text::contains_str;
use crate::{Card, CardModel, Id};

verus! {

// ---------------------------------------------------------------------------
// Errors
// ---------------------------------------------------------------------------

/// A compilation error: a human-readable message and, when the error concerns
/// a specific place in the input, the character offset of that place.
#[derive(Debug)]
pub struct Error {
    pub pos: Option<usize>,
    pub what: String,
}

/// Mathematical model of an [`Error`].
pub struct ErrModel {
    pub pos: Option<int>,
    pub what: Seq<char>,
}

impl View for Error {
    type V = ErrModel;

    open spec fn view(&self) -> ErrModel {
        ErrModel {
            pos: match self.pos {
                Some(p) => Some(p as int),
                None => None,
            },
            what: self.what@,
        }
    }
}

/// The error as one line of text: `pos <offset>: <message>` when it carries
/// a position, the bare message otherwise.
pub open spec fn err_render(e: ErrModel) -> Seq<char> {
    match e.pos {
        Some(p) => "pos "@ + crate::text::dec_digits(p as nat) + ": "@ + e.what,
        None => e.what,
    }
}

impl Error {
    /// Render the error as one line of text, as [`err_render`] states.
    pub fn render(&self) -> (r: String)
        ensures
            r@ == err_render(self@),
    {
        match self.pos {
            Some(p) => {
                let mut s = "pos ".to_owned();
                let digits = crate::text::decimal(p);
                s.append(digits.as_str());
                s.append(": ");
                s.append(self.what.as_str());
                s
            },
            None => self.what.clone(),
        }
    }
}

pub open spec fn msg_empty_input() -> Seq<char> {
    "Empty input"@
}

pub open spec fn msg_unterminated_quote() -> Seq<char> {
    "Unterminated quoted word"@
}

pub open spec fn msg_word_char() -> Seq<char> {
    "Unexpected character in word"@
}

pub open spec fn msg_unmatched_paren() -> Seq<char> {
    "Unmatched parenthesis"@
}

pub open spec fn msg_missing_argument() -> Seq<char> {
    "Missing argument after operation"@
}

pub open spec fn msg_unknown_list(name: Seq<char>) -> Seq<char> {
    "Unknown list "@ + name
}

pub open spec fn msg_unknown_operator(name: Seq<char>) -> Seq<char> {
    "Unknown operator "@ + name
}

pub open spec fn msg_unexpected_token(descr: Seq<char>) -> Seq<char> {
    "Unexpected token "@ + descr
}

pub open spec fn msg_word_at_end() -> Seq<char> {
    "Internal error: reading word at end of string"@
}

pub open spec fn msg_pred_at_end() -> Seq<char> {
    "Internal error: reading predicate at end of input"@
}

pub open spec fn msg_pred_not_word() -> Seq<char> {
    "Internal error: predicate token is not a word"@
}

// ---------------------------------------------------------------------------
// Tokens
// ---------------------------------------------------------------------------

/// One lexical token of the query language.
///
/// The bare words `AND` and `OR` are reserved and lex as operators; any other
/// bare or quoted word lexes as `Word`.
#[derive(Debug, PartialEq, Eq)]
pub enum Token {
    OpenParen,
    CloseParen,
    Colon,
    And,
    Or,
    Word(String),
}

/// Mathematical model of a [`Token`].
pub enum TokModel {
    OpenParen,
    CloseParen,
    Colon,
    And,
    Or,
    Word(Seq<char>),
}

impl View for Token {
    type V = TokModel;

    open spec fn view(&self) -> TokModel {
        match self {
            Token::OpenParen => TokModel::OpenParen,
            Token::CloseParen => TokModel::CloseParen,
            Token::Colon => TokModel::Colon,
            Token::And => TokModel::And,
            Token::Or => TokModel::Or,
            Token::Word(w) => TokModel::Word(w@),
        }
    }
}

/// How a token is rendered inside an "Unexpected token" message.
pub open spec fn token_descr(t: TokModel) -> Seq<char> {
    match t {
        TokModel::OpenParen => "("@,
        TokModel::CloseParen => ")"@,
        TokModel::Colon => ":"@,
        TokModel::And => "AND"@,
        TokModel::Or => "OR"@,
        TokModel::Word(w) => w,
    }
}

impl Token {
    /// The token's rendering for error messages.
    pub fn describe(&self) -> (r: String)
        ensures
            r@ == token_descr(self@),
    {
        match self {
            Token::OpenParen => "(".to_owned(),
            Token::CloseParen => ")".to_owned(),
            Token::Colon => ":".to_owned(),
            Token::And => "AND".to_owned(),
            Token::Or => "OR".to_owned(),
            Token::Word(w) => w.clone(),
        }
    }
}

/// A token together with the character offset where it starts in the input.
#[derive(Debug, PartialEq, Eq)]
pub struct TokenItem {
    pub pos: usize,
    pub token: Token,
}

// ---------------------------------------------------------------------------
// Character classes and scanning, at the spec level
// ---------------------------------------------------------------------------

/// Whitespace separates tokens and is otherwise insignificant.
pub open spec fn is_ws_char(c: char) -> bool {
    c == ' ' || c == '\t' || c == '\r' || c == '\n'
}

/// A character that may appear inside a bare word.
pub open spec fn is_word_char(c: char) -> bool {
    !(is_ws_char(c) || c == '(' || c == ')' || c == ':' || c == '"')
}

/// First offset at or after `i` holding a non-whitespace character.
pub open spec fn skip_ws(s: Seq<char>, i: int) -> int
    decreases s.len() - i
        when 0 <= i <= s.len()
{
    if i < s.len() && is_ws_char(s[i]) {
        skip_ws(s, i + 1)
    } else {
        i
    }
}

/// First offset at or after `i` holding a non-word character.
pub open spec fn word_end(s: Seq<char>, i: int) -> int
    decreases s.len() - i
        when 0 <= i <= s.len()
{
    if i < s.len() && is_word_char(s[i]) {
        word_end(s, i + 1)
    } else {
        i
    }
}

/// First offset at or after `i` holding a double quote.
pub open spec fn quote_end(s: Seq<char>, i: int) -> int
    decreases s.len() - i
        when 0 <= i <= s.len()
{
    if i < s.len() && s[i] != '"' {
        quote_end(s, i + 1)
    } else {
        i
    }
}

/// A bare word may stop at end of input, whitespace, `:` or `)`; stopping at
/// any other delimiter (`"` or `(`) is a lexical error.
pub open spec fn word_stop_ok(s: Seq<char>, e: int) -> bool {
    e == s.len() || is_ws_char(s[e]) || s[e] == ':' || s[e] == ')'
}

pub proof fn lemma_skip_ws(s: Seq<char>, i: int)
    requires
        0 <= i <= s.len(),
    ensures
        i <= skip_ws(s, i) <= s.len(),
        skip_ws(s, i) < s.len() ==> !is_ws_char(s[skip_ws(s, i)]),
        forall|k: int| i <= k < skip_ws(s, i) ==> is_ws_char(s[k]),
    decreases s.len() - i,
{
    if i < s.len() && is_ws_char(s[i]) {
        lemma_skip_ws(s, i + 1);
    }
}

pub proof fn lemma_word_end(s: Seq<char>, i: int)
    requires
        0 <= i <= s.len(),
    ensures
        i <= word_end(s, i) <= s.len(),
        word_end(s, i) < s.len() ==> !is_word_char(s[word_end(s, i)]),
        forall|k: int| i <= k < word_end(s, i) ==> is_word_char(s[k]),
    decreases s.len() - i,
{
    if i < s.len() && is_word_char(s[i]) {
        lemma_word_end(s, i + 1);
    }
}

pub proof fn lemma_quote_end(s: Seq<char>, i: int)
    requires
        0 <= i <= s.len(),
    ensures
        i <= quote_end(s, i) <= s.len(),
        quote_end(s, i) < s.len() ==> s[quote_end(s, i)] == '"',
        forall|k: int| i <= k < quote_end(s, i) ==> s[k] != '"',
    decreases s.len() - i,
{
    if i < s.len() && s[i] != '"' {
        lemma_quote_end(s, i + 1);
    }
}

/// Outcome of scanning one token starting at offset `i`: end of input, a
/// token (with its start offset and the offset just past it), or a lexical
/// error (with the scanner's resting offset).
pub enum Scan {
    End,
    Tok { t: TokModel, tpos: int, next: int },
    Lex { err: ErrModel, next: int },
}

/// The scanner's step function: the token produced at offset `i` of `s`,
/// after skipping whitespace.
///
/// A lexical error leaves the scanner at end of input, so the token sequence
/// terminates at the first lexical error: no further tokens are produced.
pub open spec fn scan(s: Seq<char>, i: int) -> Scan {
    let j = skip_ws(s, i);
    if j == s.len() {
        Scan::End
    } else if s[j] == '"' {
        let k = quote_end(s, j + 1);
        if k < s.len() {
            Scan::Tok { t: TokModel::Word(s.subrange(j + 1, k)), tpos: j, next: k + 1 }
        } else {
            Scan::Lex {
                err: ErrModel { pos: Some(j), what: msg_unterminated_quote() },
                next: s.len() as int,
            }
        }
    } else if s[j] == '(' {
        Scan::Tok { t: TokModel::OpenParen, tpos: j, next: j + 1 }
    } else if s[j] == ')' {
        Scan::Tok { t: TokModel::CloseParen, tpos: j, next: j + 1 }
    } else if s[j] == ':' {
        Scan::Tok { t: TokModel::Colon, tpos: j, next: j + 1 }
    } else {
        let e = word_end(s, j);
        if word_stop_ok(s, e) {
            let w = s.subrange(j, e);
            Scan::Tok {
                t: if w == "AND"@ {
                    TokModel::And
                } else if w == "OR"@ {
                    TokModel::Or
                } else {
                    TokModel::Word(w)
                },
                tpos: j,
                next: e,
            }
        } else {
            Scan::Lex {
                err: ErrModel { pos: Some(e), what: msg_word_char() },
                next: s.len() as int,
            }
        }
    }
}

/// Scanning a token makes strict progress and stays inside the input.
pub proof fn lemma_scan(s: Seq<char>, i: int)
    requires
        0 <= i <= s.len(),
    ensures
        match scan(s, i) {
            Scan::End => true,
            Scan::Tok { t, tpos, next } => i <= tpos < next <= s.len(),
            Scan::Lex { err, next } => i <= next <= s.len(),
        },
{
    lemma_skip_ws(s, i);
    let j = skip_ws(s, i);
    if j < s.len() {
        if s[j] == '"' {
            lemma_quote_end(s, j + 1);
        } else if s[j] == '(' || s[j] == ')' || s[j] == ':' {
        } else {
            assert(is_word_char(s[j]));
            lemma_word_end(s, j);
            assert(word_end(s, j) == word_end(s, j + 1));
            lemma_word_end(s, j + 1);
        }
    }
}

// ---------------------------------------------------------------------------
// The executable tokenizer
// ---------------------------------------------------------------------------

/// The lexical scanner: walks the input text by character offset and hands
/// out one positioned token per call to [`Tokenizer::next`].
///
/// The scanner is a pure function of `(text, pos)`, so copying it gives
/// cost-free lookahead.
#[derive(Clone, Copy)]
pub struct Tokenizer<'a> {
    pub text: &'a str,
    pub pos: usize,
}

impl<'a> Tokenizer<'a> {
    pub open spec fn wf(self) -> bool {
        self.pos <= self.text@.len()
    }

    pub fn new(text: &'a str) -> (r: Tokenizer<'a>)
        ensures
            r.text@ == text@,
            r.pos == 0,
            r.wf(),
    {
        Tokenizer { text, pos: 0 }
    }

    pub fn is_whitespace(c: char) -> (r: bool)
        ensures
            r == is_ws_char(c),
    {
        c == ' ' || c == '\t' || c == '\r' || c == '\n'
    }

    pub fn is_word(c: char) -> (r: bool)
        ensures
            r == is_word_char(c),
    {
        !(Self::is_whitespace(c) || c == '(' || c == ')' || c == ':' || c == '"')
    }

    /// Read one bare word starting at the current offset: advance over word
    /// characters and return the span, or fail on a delimiter that may not
    /// end a word.  On that failure the scanner rests at end of input, so it
    /// produces no further tokens.
    pub fn read_word(&mut self) -> (r: Result<String, Error>)
        requires
            old(self).wf(),
        ensures
            final(self).text@ == old(self).text@,
            final(self).wf(),
            old(self).pos == old(self).text@.len() ==> {
                &&& final(self).pos == old(self).pos
                &&& r matches Err(e)
                &&& e@.pos is None
                &&& e@.what == msg_word_at_end()
            },
            old(self).pos < old(self).text@.len() ==> {
                let s = old(self).text@;
                let e0 = word_end(s, old(self).pos as int);
                &&& word_stop_ok(s, e0) ==> (r matches Ok(w) && w@ == s.subrange(
                    old(self).pos as int,
                    e0,
                ) && final(self).pos == e0)
                &&& !word_stop_ok(s, e0) ==> (r matches Err(e) && e@.pos == Some(e0)
                    && e@.what == msg_word_char() && final(self).pos == s.len())
            },
    {
        let ghost s = self.text@;
        let len = self.text.unicode_len();
        if self.pos >= len {
            return Err(
                Error {
                    pos: None,
                    what: "Internal error: reading word at end of string".to_owned(),
                },
            );
        }
        let start = self.pos;
        loop
            invariant
                self.text@ == s,
                s == old(self).text@,
                start == old(self).pos,
                start <= self.pos,
                self.pos <= s.len(),
                len == s.len(),
                word_end(s, start as int) == word_end(s, self.pos as int),
            ensures
                self.text@ == s,
                start <= self.pos,
                self.pos == word_end(s, start as int),
                word_stop_ok(s, self.pos as int),
            decreases s.len() - self.pos,
        {
            if self.pos >= len {
                break;
            }
            let c = self.text.get_char(self.pos);
            if Self::is_whitespace(c) || c == ':' || c == ')' {
                proof {
                    assert(!is_word_char(c));
                    assert(word_end(s, self.pos as int) == self.pos as int);
                }
                break;
            } else if Self::is_word(c) {
                self.pos = self.pos + 1;
            } else {
                proof {
                    assert(!is_word_char(c));
                    assert(word_end(s, self.pos as int) == self.pos as int);
                    assert(!word_stop_ok(s, self.pos as int));
                }
                let bad = self.pos;
                self.pos = len;
                return Err(
                    Error { pos: Some(bad), what: "Unexpected character in word".to_owned() },
                );
            }
        }
        let w = self.text.substring_char(start, self.pos);
        Ok(w.to_owned())
    }

    /// Scan the next token, advancing past it; `None` at end of input.  A
    /// lexical error ends the sequence: every later call returns `None`.
    pub fn next(&mut self) -> (r: Option<Result<TokenItem, Error>>)
        requires
            old(self).wf(),
        ensures
            final(self).text@ == old(self).text@,
            final(self).wf(),
            match scan(old(self).text@, old(self).pos as int) {
                Scan::End => r is None && final(self).pos == old(self).text@.len(),
                Scan::Tok { t, tpos, next } => {
                    &&& r matches Some(res)
                    &&& res matches Ok(ti)
                    &&& ti.pos == tpos
                    &&& ti.token@ == t
                    &&& final(self).pos == next
                },
                Scan::Lex { err, next } => {
                    &&& r matches Some(res)
                    &&& res matches Err(e)
                    &&& e@ == err
                    &&& final(self).pos == next
                },
            },
    {
        let ghost s = self.text@;
        let ghost i0 = self.pos as int;
        let len = self.text.unicode_len();
        loop
            invariant
                self.text@ == s,
                s == old(self).text@,
                i0 == old(self).pos as int,
                0 <= i0 <= s.len(),
                i0 <= self.pos,
                self.pos <= s.len(),
                len == s.len(),
                skip_ws(s, i0) == skip_ws(s, self.pos as int),
            ensures
                self.text@ == s,
                i0 <= self.pos,
                self.pos == skip_ws(s, i0),
            decreases s.len() - self.pos,
        {
            if self.pos >= len {
                proof {
                    assert(skip_ws(s, self.pos as int) == self.pos as int);
                }
                break;
            }
            let c = self.text.get_char(self.pos);
            if Self::is_whitespace(c) {
                self.pos = self.pos + 1;
            } else {
                proof {
                    assert(skip_ws(s, self.pos as int) == self.pos as int);
                }
                break;
            }
        }
        proof {
            lemma_skip_ws(s, i0);
        }
        if self.pos >= len {
            return None;
        }
        let start = self.pos;
        let c = self.text.get_char(start);
        if c == '"' {
            self.pos = self.pos + 1;
            let ghost q0 = self.pos as int;
            loop
                invariant
                    self.text@ == s,
                    s == old(self).text@,
                    q0 == start + 1,
                    start + 1 <= self.pos,
                    self.pos <= s.len(),
                    len == s.len(),
                    quote_end(s, q0) == quote_end(s, self.pos as int),
                ensures
                    self.text@ == s,
                    start + 1 <= self.pos,
                    self.pos == quote_end(s, q0),
                decreases s.len() - self.pos,
            {
                if self.pos >= len {
                    proof {
                        assert(quote_end(s, self.pos as int) == self.pos as int);
                    }
                    break;
                }
                let c2 = self.text.get_char(self.pos);
                if c2 == '"' {
                    proof {
                        assert(quote_end(s, self.pos as int) == self.pos as int);
                    }
                    break;
                }
                self.pos = self.pos + 1;
            }
            if self.pos >= len {
                return Some(
                    Err(Error { pos: Some(start), what: "Unterminated quoted word".to_owned() }),
                );
            }
            let w = self.text.substring_char(start + 1, self.pos);
            self.pos = self.pos + 1;
            return Some(Ok(TokenItem { pos: start, token: Token::Word(w.to_owned()) }));
        } else if c == '(' {
            self.pos = self.pos + 1;
            return Some(Ok(TokenItem { pos: start, token: Token::OpenParen }));
        } else if c == ')' {
            self.pos = self.pos + 1;
            return Some(Ok(TokenItem { pos: start, token: Token::CloseParen }));
        } else if c == ':' {
            self.pos = self.pos + 1;
            return Some(Ok(TokenItem { pos: start, token: Token::Colon }));
        } else {
            proof {
                assert(is_word_char(s[start as int]));
            }
            let word = match self.read_word() {
                Ok(w) => w,
                Err(e) => {
                    return Some(Err(e));
                },
            };
            proof {
                reveal_strlit("AND");
                reveal_strlit("OR");
                assert("AND"@.len() == 3 && "OR"@.len() == 2);
            }
            let token = if crate::text::str_eq(word.as_str(), "OR") {
                Token::Or
            } else if crate::text::str_eq(word.as_str(), "AND") {
                Token::And
            } else {
                Token::Word(word)
            };
            return Some(Ok(TokenItem { pos: start, token }));
        }
    }
}


// ---------------------------------------------------------------------------
// Expressions and their evaluation
// ---------------------------------------------------------------------------

/// Mathematical model of an [`Expression`]: the same tree over `Seq<char>`.
pub enum ExprModel {
    And(Box<ExprModel>, Box<ExprModel>),
    Or(Box<ExprModel>, Box<ExprModel>),
    HasText(Seq<char>),
    InList(Id),
}

/// A compiled query: an immutable boolean predicate tree over one card.
///
/// `And`/`Or` evaluate structurally, `HasText` is literal case-sensitive
/// substring containment on the card title, and `InList` is equality of the
/// card's list identifier.
#[derive(Debug, PartialEq, Eq)]
pub enum Expression {
    And(Box<Expression>, Box<Expression>),
    Or(Box<Expression>, Box<Expression>),
    HasText(String),
    InList(Id),
}

impl Expression {
    /// The tree's mathematical model.
    pub open spec fn model(self) -> ExprModel
        decreases self,
    {
        match self {
            Expression::And(l, r) => ExprModel::And(Box::new((*l).model()), Box::new((*r).model())),
            Expression::Or(l, r) => ExprModel::Or(Box::new((*l).model()), Box::new((*r).model())),
            Expression::HasText(t) => ExprModel::HasText(t@),
            Expression::InList(id) => ExprModel::InList(id),
        }
    }
}

impl View for Expression {
    type V = ExprModel;

    open spec fn view(&self) -> ExprModel {
        self.model()
    }
}

/// Evaluation semantics: does the card described by `c` satisfy `e`?
pub open spec fn sat(e: ExprModel, c: CardModel) -> bool
    decreases e,
{
    match e {
        ExprModel::And(l, r) => sat(*l, c) && sat(*r, c),
        ExprModel::Or(l, r) => sat(*l, c) || sat(*r, c),
        ExprModel::HasText(t) => contains_seq(c.title, t),
        ExprModel::InList(id) => c.list == id,
    }
}

impl Expression {
    /// Evaluate this expression against one card.  Pure: no state is read or
    /// written besides the two arguments.
    pub fn matches(&self, card: &Card) -> (r: bool)
        ensures
            r == sat(self@, card@),
        decreases *self,
    {
        match self {
            Expression::And(l, r) => l.matches(card) && r.matches(card),
            Expression::Or(l, r) => l.matches(card) || r.matches(card),
            Expression::HasText(t) => contains_str(card.title.as_str(), t.as_str()),
            Expression::InList(id) => card.list == *id,
        }
    }
}

// ---------------------------------------------------------------------------
// The list-name map
// ---------------------------------------------------------------------------

/// One binding of a list name to its identifier.
pub struct ListEntry {
    pub name: String,
    pub id: Id,
}

/// Caller-supplied mapping from list name (exact, case-sensitive) to list
/// identifier, consulted when compiling `list:<name>` predicates.
///
/// Later additions shadow earlier ones, as in a map keyed by name.
pub struct ListMap {
    entries: Vec<ListEntry>,
}

/// The mapping denoted by a sequence of bindings; entries nearer the front
/// take precedence.
pub open spec fn map_of(s: Seq<ListEntry>) -> Map<Seq<char>, Id>
    decreases s.len(),
{
    if s.len() == 0 {
        Map::empty()
    } else {
        map_of(s.drop_first()).insert(s[0].name@, s[0].id)
    }
}

impl View for ListMap {
    type V = Map<Seq<char>, Id>;

    closed spec fn view(&self) -> Map<Seq<char>, Id> {
        map_of(self.entries@)
    }
}

/// Dropping a front entry whose name is not `k` does not change what the map
/// says about `k`.
proof fn lemma_map_of_skip(s: Seq<ListEntry>, k: Seq<char>, i: int)
    requires
        0 <= i <= s.len(),
        forall|j: int| 0 <= j < i ==> (#[trigger] s[j]).name@ != k,
    ensures
        map_of(s).contains_key(k) == map_of(s.skip(i)).contains_key(k),
        map_of(s).contains_key(k) ==> map_of(s)[k] == map_of(s.skip(i))[k],
    decreases i,
{
    if i == 0 {
        assert(s.skip(0) =~= s);
    } else {
        assert forall|j: int| 0 <= j < i - 1 implies (#[trigger] s.drop_first()[j]).name@ != k by {
            assert(s.drop_first()[j] == s[j + 1]);
        }
        lemma_map_of_skip(s.drop_first(), k, i - 1);
        assert(s.drop_first().skip(i - 1) =~= s.skip(i));
    }
}

impl ListMap {
    /// An empty mapping.
    pub fn new() -> (r: ListMap)
        ensures
            r@ == Map::<Seq<char>, Id>::empty(),
    {
        ListMap { entries: Vec::new() }
    }

    /// Bind `name` to `id`, shadowing any earlier binding of the same name.
    pub fn add(&mut self, name: &str, id: Id)
        ensures
            final(self)@ == old(self)@.insert(name@, id),
    {
        self.entries.insert(0, ListEntry { name: name.to_owned(), id });
        proof {
            assert(self.entries@.drop_first() =~= old(self).entries@);
        }
    }

    /// Exact-match lookup of a list name.
    pub fn get(&self, name: &str) -> (r: Option<Id>)
        ensures
            r == if self@.contains_key(name@) {
                Some(self@[name@])
            } else {
                None::<Id>
            },
    {
        let n = self.entries.len();
        let mut i: usize = 0;
        while i < n
            invariant
                n == self.entries@.len(),
                i <= n,
                forall|j: int| 0 <= j < i ==> (#[trigger] self.entries@[j]).name@ != name@,
            decreases n - i,
        {
            if crate::text::str_eq(self.entries[i].name.as_str(), name) {
                proof {
                    lemma_map_of_skip(self.entries@, name@, i as int);
                    assert(self.entries@.skip(i as int)[0] == self.entries@[i as int]);
                    assert(self.entries@.skip(i as int).drop_first() =~= self.entries@.skip(
                        i as int + 1,
                    ));
                }
                return Some(self.entries[i].id);
            }
            i = i + 1;
        }
        proof {
            lemma_map_of_skip(self.entries@, name@, n as int);
            assert(self.entries@.skip(n as int) =~= Seq::<ListEntry>::empty());
        }
        None
    }
}


// ---------------------------------------------------------------------------
// The grammar, at the spec level
// ---------------------------------------------------------------------------

/// Result of one spec-level parse step: an expression and the offset where
/// parsing stopped, or an error.
pub enum Parsed {
    Good { e: ExprModel, next: int },
    Bad { err: ErrModel },
}

/// Clamp a continuation offset into `(pos, len]`.
///
/// Every continuation offset produced while parsing in fact lies in that
/// range (see the bounds lemmas below); the clamp makes the range manifest,
/// so the recursion below is well founded by arithmetic alone.
pub open spec fn step_pos(pos: int, p2: int, len: int) -> int {
    let q = if p2 < pos + 1 {
        pos + 1
    } else {
        p2
    };
    if q > len {
        len
    } else {
        q
    }
}

/// Parse one predicate starting at `pos`: a single word is a title test, and
/// `word:word` is an operator applied to an argument.  Only the operator
/// `list` exists; its argument is resolved through `m`.
pub open spec fn sp_pred(s: Seq<char>, m: Map<Seq<char>, Id>, pos: int) -> Parsed {
    match scan(s, pos) {
        Scan::End => Parsed::Bad { err: ErrModel { pos: None, what: msg_pred_at_end() } },
        Scan::Lex { err, .. } => Parsed::Bad { err },
        Scan::Tok { t, tpos, next } => match t {
            TokModel::Word(w) => match scan(s, next) {
                Scan::Tok { t: TokModel::Colon, tpos: cpos, next: n2 } => match scan(s, n2) {
                    Scan::End => Parsed::Bad {
                        err: ErrModel { pos: Some(tpos), what: msg_missing_argument() },
                    },
                    Scan::Lex { err, .. } => Parsed::Bad { err },
                    Scan::Tok { t: t2, tpos: apos, next: n3 } => match t2 {
                        TokModel::Word(a) => if w == "list"@ {
                            if m.contains_key(a) {
                                Parsed::Good { e: ExprModel::InList(m[a]), next: n3 }
                            } else {
                                Parsed::Bad {
                                    err: ErrModel { pos: Some(apos), what: msg_unknown_list(a) },
                                }
                            }
                        } else {
                            Parsed::Bad {
                                err: ErrModel { pos: Some(tpos), what: msg_unknown_operator(w) },
                            }
                        },
                        _ => Parsed::Bad {
                            err: ErrModel { pos: Some(apos), what: msg_missing_argument() },
                        },
                    },
                },
                _ => Parsed::Good { e: ExprModel::HasText(w), next },
            },
            _ => Parsed::Bad { err: ErrModel { pos: Some(tpos), what: msg_pred_not_word() } },
        },
    }
}

/// A successful predicate parse consumes at least one token and stays inside
/// the input.
pub proof fn lemma_sp_pred_bounds(s: Seq<char>, m: Map<Seq<char>, Id>, pos: int)
    requires
        0 <= pos <= s.len(),
    ensures
        sp_pred(s, m, pos) matches Parsed::Good { e, next } ==> pos < next <= s.len(),
{
    lemma_scan(s, pos);
    match scan(s, pos) {
        Scan::Tok { t, tpos, next } => {
            lemma_scan(s, next);
            match scan(s, next) {
                Scan::Tok { t: t1, tpos: cpos, next: n2 } => {
                    lemma_scan(s, n2);
                },
                _ => {},
            }
        },
        _ => {},
    }
}

/// Parse a parenthesized group starting at `pos`: consume `(`, parse a full
/// expression at the loosest commitment, and require the very next token to
/// be `)`.
pub open spec fn sp_group(s: Seq<char>, m: Map<Seq<char>, Id>, pos: int) -> Parsed
    decreases s.len() - pos, 0int
        when 0 <= pos <= s.len()
{
    match scan(s, pos) {
        Scan::Tok { t: TokModel::OpenParen, tpos, next } => {
            proof {
                lemma_scan(s, pos);
            }
            match sp_parse(s, m, step_pos(pos, next, s.len() as int), 0) {
                Parsed::Bad { err } => Parsed::Bad { err },
                Parsed::Good { e, next: p2 } => match scan(s, p2) {
                    Scan::Tok { t: TokModel::CloseParen, tpos: cp, next: n2 } => Parsed::Good {
                        e,
                        next: n2,
                    },
                    _ => Parsed::Bad {
                        err: ErrModel { pos: Some(tpos), what: msg_unmatched_paren() },
                    },
                },
            }
        },
        _ => Parsed::Bad { err: ErrModel { pos: None, what: msg_unmatched_paren() } },
    }
}

/// Parse one expression starting at `pos`: one atom, then operators as
/// allowed by the commitment level `prec`.
///
/// Commitment levels: `0` nothing bound yet, `1` committed to AND, `2`
/// committed to OR (which refuses further AND and juxtaposition), `3` the
/// right-hand side of an AND (which refuses everything but parenthesized
/// groups).
pub open spec fn sp_parse(s: Seq<char>, m: Map<Seq<char>, Id>, pos: int, prec: int) -> Parsed
    decreases s.len() - pos, 1int
        when 0 <= pos <= s.len()
{
    match scan(s, pos) {
        Scan::End => Parsed::Bad { err: ErrModel { pos: None, what: msg_empty_input() } },
        Scan::Lex { err, .. } => Parsed::Bad { err },
        Scan::Tok { t, tpos, next } => {
            proof {
                lemma_scan(s, pos);
            }
            match t {
                TokModel::OpenParen => match sp_group(s, m, pos) {
                    Parsed::Bad { err } => Parsed::Bad { err },
                    Parsed::Good { e, next: p2 } => sp_ops(
                        s,
                        m,
                        step_pos(pos, p2, s.len() as int),
                        prec,
                        e,
                    ),
                },
                TokModel::Word(w) => match sp_pred(s, m, pos) {
                    Parsed::Bad { err } => Parsed::Bad { err },
                    Parsed::Good { e, next: p2 } => sp_ops(
                        s,
                        m,
                        step_pos(pos, p2, s.len() as int),
                        prec,
                        e,
                    ),
                },
                _ => Parsed::Bad {
                    err: ErrModel { pos: Some(tpos), what: msg_unexpected_token(token_descr(t)) },
                },
            }
        },
    }
}

/// The operator loop: starting from the already-parsed expression `cur`,
/// combine further atoms and operators as the commitment level allows.
pub open spec fn sp_ops(
    s: Seq<char>,
    m: Map<Seq<char>, Id>,
    pos: int,
    prec: int,
    cur: ExprModel,
) -> Parsed
    decreases s.len() - pos, 2int
        when 0 <= pos <= s.len()
{
    match scan(s, pos) {
        Scan::End => Parsed::Good { e: cur, next: pos },
        Scan::Lex { err, .. } => Parsed::Bad { err },
        Scan::Tok { t, tpos, next } => {
            proof {
                lemma_scan(s, pos);
            }
            match t {
                TokModel::OpenParen => match sp_group(s, m, pos) {
                    Parsed::Bad { err } => Parsed::Bad { err },
                    Parsed::Good { e, next: p2 } => sp_ops(
                        s,
                        m,
                        step_pos(pos, p2, s.len() as int),
                        prec,
                        ExprModel::And(Box::new(cur), Box::new(e)),
                    ),
                },
                TokModel::CloseParen => Parsed::Good { e: cur, next: pos },
                TokModel::Colon => Parsed::Bad {
                    err: ErrModel { pos: Some(tpos), what: msg_unexpected_token(token_descr(t)) },
                },
                TokModel::And => if prec < 2 {
                    match sp_parse(s, m, step_pos(pos, next, s.len() as int), 3) {
                        Parsed::Bad { err } => Parsed::Bad { err },
                        Parsed::Good { e, next: p2 } => sp_ops(
                            s,
                            m,
                            step_pos(pos, p2, s.len() as int),
                            1,
                            ExprModel::And(Box::new(cur), Box::new(e)),
                        ),
                    }
                } else {
                    Parsed::Good { e: cur, next: pos }
                },
                TokModel::Or => if prec < 3 {
                    match sp_parse(s, m, step_pos(pos, next, s.len() as int), 2) {
                        Parsed::Bad { err } => Parsed::Bad { err },
                        Parsed::Good { e, next: p2 } => sp_ops(
                            s,
                            m,
                            step_pos(pos, p2, s.len() as int),
                            2,
                            ExprModel::Or(Box::new(cur), Box::new(e)),
                        ),
                    }
                } else {
                    Parsed::Good { e: cur, next: pos }
                },
                TokModel::Word(_) => if prec < 2 {
                    match sp_pred(s, m, pos) {
                        Parsed::Bad { err } => Parsed::Bad { err },
                        Parsed::Good { e, next: p2 } => sp_ops(
                            s,
                            m,
                            step_pos(pos, p2, s.len() as int),
                            1,
                            ExprModel::And(Box::new(cur), Box::new(e)),
                        ),
                    }
                } else {
                    Parsed::Good { e: cur, next: pos }
                },
            }
        },
    }
}

/// The whole compile, at the spec level: parse one expression from the start
/// of the input, then require the input to be exhausted.
pub open spec fn sp_parse_all(s: Seq<char>, m: Map<Seq<char>, Id>) -> Result<ExprModel, ErrModel> {
    match sp_parse(s, m, 0, 0) {
        Parsed::Bad { err } => Err(err),
        Parsed::Good { e, next } => match scan(s, next) {
            Scan::End => Ok(e),
            Scan::Lex { err, .. } => Err(err),
            Scan::Tok { t, tpos, .. } => Err(
                ErrModel { pos: Some(tpos), what: msg_unexpected_token(token_descr(t)) },
            ),
        },
    }
}

/// A successful group parse consumes at least one token and stays inside the
/// input.
pub proof fn lemma_sp_group_bounds(s: Seq<char>, m: Map<Seq<char>, Id>, pos: int)
    requires
        0 <= pos <= s.len(),
    ensures
        sp_group(s, m, pos) matches Parsed::Good { e, next } ==> pos < next <= s.len(),
    decreases s.len() - pos, 0int,
{
    match scan(s, pos) {
        Scan::Tok { t: TokModel::OpenParen, tpos, next } => {
            lemma_scan(s, pos);
            lemma_sp_parse_bounds(s, m, next, 0);
            assert(step_pos(pos, next, s.len() as int) == next);
            match sp_parse(s, m, next, 0) {
                Parsed::Good { e, next: p2 } => {
                    lemma_scan(s, p2);
                },
                _ => {},
            }
        },
        _ => {},
    }
}

/// A successful expression parse consumes at least one token and stays inside
/// the input.
pub proof fn lemma_sp_parse_bounds(s: Seq<char>, m: Map<Seq<char>, Id>, pos: int, prec: int)
    requires
        0 <= pos <= s.len(),
    ensures
        sp_parse(s, m, pos, prec) matches Parsed::Good { e, next } ==> pos < next <= s.len(),
    decreases s.len() - pos, 1int,
{
    match scan(s, pos) {
        Scan::Tok { t, tpos, next } => {
            lemma_scan(s, pos);
            match t {
                TokModel::OpenParen => {
                    lemma_sp_group_bounds(s, m, pos);
                    match sp_group(s, m, pos) {
                        Parsed::Good { e, next: p2 } => {
                            assert(step_pos(pos, p2, s.len() as int) == p2);
                            lemma_sp_ops_bounds(s, m, p2, prec, e);
                        },
                        _ => {},
                    }
                },
                TokModel::Word(w) => {
                    lemma_sp_pred_bounds(s, m, pos);
                    match sp_pred(s, m, pos) {
                        Parsed::Good { e, next: p2 } => {
                            assert(step_pos(pos, p2, s.len() as int) == p2);
                            lemma_sp_ops_bounds(s, m, p2, prec, e);
                        },
                        _ => {},
                    }
                },
                _ => {},
            }
        },
        _ => {},
    }
}

/// The operator loop never moves backwards and stays inside the input.
pub proof fn lemma_sp_ops_bounds(
    s: Seq<char>,
    m: Map<Seq<char>, Id>,
    pos: int,
    prec: int,
    cur: ExprModel,
)
    requires
        0 <= pos <= s.len(),
    ensures
        sp_ops(s, m, pos, prec, cur) matches Parsed::Good { e, next } ==> pos <= next <= s.len(),
    decreases s.len() - pos, 2int,
{
    match scan(s, pos) {
        Scan::Tok { t, tpos, next } => {
            lemma_scan(s, pos);
            match t {
                TokModel::OpenParen => {
                    lemma_sp_group_bounds(s, m, pos);
                    match sp_group(s, m, pos) {
                        Parsed::Good { e, next: p2 } => {
                            assert(step_pos(pos, p2, s.len() as int) == p2);
                            lemma_sp_ops_bounds(
                                s,
                                m,
                                p2,
                                prec,
                                ExprModel::And(Box::new(cur), Box::new(e)),
                            );
                        },
                        _ => {},
                    }
                },
                TokModel::And => {
                    if prec < 2 {
                        assert(step_pos(pos, next, s.len() as int) == next);
                        lemma_sp_parse_bounds(s, m, next, 3);
                        match sp_parse(s, m, next, 3) {
                            Parsed::Good { e, next: p2 } => {
                                assert(step_pos(pos, p2, s.len() as int) == p2);
                                lemma_sp_ops_bounds(
                                    s,
                                    m,
                                    p2,
                                    1,
                                    ExprModel::And(Box::new(cur), Box::new(e)),
                                );
                            },
                            _ => {},
                        }
                    }
                },
                TokModel::Or => {
                    if prec < 3 {
                        assert(step_pos(pos, next, s.len() as int) == next);
                        lemma_sp_parse_bounds(s, m, next, 2);
                        match sp_parse(s, m, next, 2) {
                            Parsed::Good { e, next: p2 } => {
                                assert(step_pos(pos, p2, s.len() as int) == p2);
                                lemma_sp_ops_bounds(
                                    s,
                                    m,
                                    p2,
                                    2,
                                    ExprModel::Or(Box::new(cur), Box::new(e)),
                                );
                            },
                            _ => {},
                        }
                    }
                },
                TokModel::Word(_) => {
                    if prec < 2 {
                        lemma_sp_pred_bounds(s, m, pos);
                        match sp_pred(s, m, pos) {
                            Parsed::Good { e, next: p2 } => {
                                assert(step_pos(pos, p2, s.len() as int) == p2);
                                lemma_sp_ops_bounds(
                                    s,
                                    m,
                                    p2,
                                    1,
                                    ExprModel::And(Box::new(cur), Box::new(e)),
                                );
                            },
                            _ => {},
                        }
                    }
                },
                _ => {},
            }
        },
        _ => {},
    }
}


// ---------------------------------------------------------------------------
// The executable parser
// ---------------------------------------------------------------------------

/// The precedence-climbing parser: pulls tokens lazily from the scanner and
/// resolves `list:<name>` predicates through the list-name map.
struct Parser<'a> {
    toks: Tokenizer<'a>,
    lists: &'a ListMap,
}

impl<'a> Parser<'a> {
    spec fn wf(self) -> bool {
        self.toks.wf()
    }

    spec fn src(self) -> Seq<char> {
        self.toks.text@
    }

    spec fn lm(self) -> Map<Seq<char>, Id> {
        self.lists@
    }

    /// Look at the next token without consuming it.
    fn peek(&self) -> (r: Option<Result<TokenItem, Error>>)
        requires
            self.wf(),
        ensures
            match scan(self.src(), self.toks.pos as int) {
                Scan::End => r is None,
                Scan::Tok { t, tpos, next } => {
                    &&& r matches Some(res)
                    &&& res matches Ok(ti)
                    &&& ti.pos == tpos
                    &&& ti.token@ == t
                },
                Scan::Lex { err, next } => {
                    &&& r matches Some(res)
                    &&& res matches Err(e)
                    &&& e@ == err
                },
            },
    {
        let mut t = self.toks;
        t.next()
    }

    /// Parse one predicate: a bare or quoted word, optionally followed by
    /// `:` and an argument word.
    fn parse_pred(&mut self) -> (r: Result<Expression, Error>)
        requires
            old(self).wf(),
        ensures
            final(self).toks.text@ == old(self).toks.text@,
            final(self).lists == old(self).lists,
            final(self).wf(),
            match sp_pred(old(self).src(), old(self).lm(), old(self).toks.pos as int) {
                Parsed::Good { e, next } => {
                    &&& r matches Ok(expr)
                    &&& expr@ == e
                    &&& final(self).toks.pos == next
                },
                Parsed::Bad { err } => {
                    &&& r matches Err(er)
                    &&& er@ == err
                },
            },
    {
        let first = self.toks.next();
        let ti = match first {
            None => {
                return Err(
                    Error {
                        pos: None,
                        what: "Internal error: reading predicate at end of input".to_owned(),
                    },
                );
            },
            Some(Err(e)) => {
                return Err(e);
            },
            Some(Ok(ti)) => ti,
        };
        let w = match ti.token {
            Token::Word(w) => w,
            _ => {
                return Err(
                    Error {
                        pos: Some(ti.pos),
                        what: "Internal error: predicate token is not a word".to_owned(),
                    },
                );
            },
        };
        let has_colon = match self.peek() {
            Some(Ok(TokenItem { token: Token::Colon, pos: _ })) => true,
            _ => false,
        };
        if has_colon {
            let _colon = self.toks.next();
            let second = self.toks.next();
            let ti2 = match second {
                None => {
                    return Err(
                        Error { pos: Some(ti.pos), what: "Missing argument after operation".to_owned() },
                    );
                },
                Some(Err(e)) => {
                    return Err(e);
                },
                Some(Ok(ti2)) => ti2,
            };
            match ti2.token {
                Token::Word(a) => {
                    if crate::text::str_eq(w.as_str(), "list") {
                        match self.lists.get(a.as_str()) {
                            Some(id) => Ok(Expression::InList(id)),
                            None => {
                                let mut msg = "Unknown list ".to_owned();
                                msg.append(a.as_str());
                                Err(Error { pos: Some(ti2.pos), what: msg })
                            },
                        }
                    } else {
                        let mut msg = "Unknown operator ".to_owned();
                        msg.append(w.as_str());
                        Err(Error { pos: Some(ti.pos), what: msg })
                    }
                },
                _ => Err(
                    Error { pos: Some(ti2.pos), what: "Missing argument after operation".to_owned() },
                ),
            }
        } else {
            Ok(Expression::HasText(w))
        }
    }

    /// Parse a parenthesized group: `(`, a full expression, `)`.
    fn parse_group(&mut self) -> (r: Result<Expression, Error>)
        requires
            old(self).wf(),
        ensures
            final(self).toks.text@ == old(self).toks.text@,
            final(self).lists == old(self).lists,
            final(self).wf(),
            match sp_group(old(self).src(), old(self).lm(), old(self).toks.pos as int) {
                Parsed::Good { e, next } => {
                    &&& r matches Ok(expr)
                    &&& expr@ == e
                    &&& final(self).toks.pos == next
                },
                Parsed::Bad { err } => {
                    &&& r matches Err(er)
                    &&& er@ == err
                },
            },
        decreases old(self).src().len() - old(self).toks.pos, 0int,
    {
        let ghost s = self.src();
        let ghost m = self.lm();
        let ghost pos0 = self.toks.pos as int;
        let first = self.toks.next();
        let opos = match first {
            Some(Ok(ti)) => match ti.token {
                Token::OpenParen => ti.pos,
                _ => {
                    return Err(Error { pos: None, what: "Unmatched parenthesis".to_owned() });
                },
            },
            _ => {
                return Err(Error { pos: None, what: "Unmatched parenthesis".to_owned() });
            },
        };
        proof {
            lemma_scan(s, pos0);
            assert(scan(s, pos0) matches Scan::Tok { t: TokModel::OpenParen, .. });
            assert(step_pos(pos0, self.toks.pos as int, s.len() as int) == self.toks.pos as int);
        }
        let ghost next = self.toks.pos as int;
        let inner = match self.parse(0) {
            Ok(e) => e,
            Err(e) => {
                return Err(e);
            },
        };
        proof {
            lemma_sp_parse_bounds(s, m, next, 0);
        }
        match self.toks.next() {
            Some(Ok(ti2)) => match ti2.token {
                Token::CloseParen => Ok(inner),
                _ => Err(Error { pos: Some(opos), what: "Unmatched parenthesis".to_owned() }),
            },
            _ => Err(Error { pos: Some(opos), what: "Unmatched parenthesis".to_owned() }),
        }
    }

    /// Parse one expression at commitment level `prec`: one atom, then the
    /// operator loop.
    fn parse(&mut self, prec: u8) -> (r: Result<Expression, Error>)
        requires
            old(self).wf(),
        ensures
            final(self).toks.text@ == old(self).toks.text@,
            final(self).lists == old(self).lists,
            final(self).wf(),
            match sp_parse(old(self).src(), old(self).lm(), old(self).toks.pos as int, prec as int) {
                Parsed::Good { e, next } => {
                    &&& r matches Ok(expr)
                    &&& expr@ == e
                    &&& final(self).toks.pos == next
                },
                Parsed::Bad { err } => {
                    &&& r matches Err(er)
                    &&& er@ == err
                },
            },
        decreases old(self).src().len() - old(self).toks.pos, 1int,
    {
        let ghost s = self.src();
        let ghost m = self.lm();
        let ghost pos0 = self.toks.pos as int;
        match self.peek() {
            None => Err(Error { pos: None, what: "Empty input".to_owned() }),
            Some(Err(e)) => Err(e),
            Some(Ok(ti)) => match ti.token {
                Token::OpenParen => {
                    let g = match self.parse_group() {
                        Ok(e) => e,
                        Err(e) => {
                            return Err(e);
                        },
                    };
                    proof {
                        lemma_sp_group_bounds(s, m, pos0);
                        assert(step_pos(pos0, self.toks.pos as int, s.len() as int)
                            == self.toks.pos as int);
                    }
                    self.parse_ops(prec, g)
                },
                Token::Word(_) => {
                    let p = match self.parse_pred() {
                        Ok(e) => e,
                        Err(e) => {
                            return Err(e);
                        },
                    };
                    proof {
                        lemma_sp_pred_bounds(s, m, pos0);
                        assert(step_pos(pos0, self.toks.pos as int, s.len() as int)
                            == self.toks.pos as int);
                    }
                    self.parse_ops(prec, p)
                },
                _ => {
                    let mut msg = "Unexpected token ".to_owned();
                    let d = ti.token.describe();
                    msg.append(d.as_str());
                    Err(Error { pos: Some(ti.pos), what: msg })
                },
            },
        }
    }

    /// The operator loop: combine `cur` with further atoms and operators as
    /// the commitment level allows.
    fn parse_ops(&mut self, prec: u8, cur: Expression) -> (r: Result<Expression, Error>)
        requires
            old(self).wf(),
        ensures
            final(self).toks.text@ == old(self).toks.text@,
            final(self).lists == old(self).lists,
            final(self).wf(),
            match sp_ops(
                old(self).src(),
                old(self).lm(),
                old(self).toks.pos as int,
                prec as int,
                cur@,
            ) {
                Parsed::Good { e, next } => {
                    &&& r matches Ok(expr)
                    &&& expr@ == e
                    &&& final(self).toks.pos == next
                },
                Parsed::Bad { err } => {
                    &&& r matches Err(er)
                    &&& er@ == err
                },
            },
        decreases old(self).src().len() - old(self).toks.pos, 2int,
    {
        let ghost s = self.src();
        let ghost m = self.lm();
        let ghost pos0 = self.toks.pos as int;
        match self.peek() {
            None => Ok(cur),
            Some(Err(e)) => Err(e),
            Some(Ok(ti)) => match ti.token {
                Token::OpenParen => {
                    let g = match self.parse_group() {
                        Ok(e) => e,
                        Err(e) => {
                            return Err(e);
                        },
                    };
                    proof {
                        lemma_sp_group_bounds(s, m, pos0);
                        assert(step_pos(pos0, self.toks.pos as int, s.len() as int)
                            == self.toks.pos as int);
                    }
                    self.parse_ops(prec, Expression::And(Box::new(cur), Box::new(g)))
                },
                Token::CloseParen => Ok(cur),
                Token::Colon => {
                    let mut msg = "Unexpected token ".to_owned();
                    let d = ti.token.describe();
                    msg.append(d.as_str());
                    Err(Error { pos: Some(ti.pos), what: msg })
                },
                Token::And => {
                    if prec < 2 {
                        let _and = self.toks.next();
                        let ghost next = self.toks.pos as int;
                        proof {
                            lemma_scan(s, pos0);
                            assert(step_pos(pos0, next, s.len() as int) == next);
                        }
                        let rhs = match self.parse(3) {
                            Ok(e) => e,
                            Err(e) => {
                                return Err(e);
                            },
                        };
                        proof {
                            lemma_sp_parse_bounds(s, m, next, 3);
                            assert(step_pos(pos0, self.toks.pos as int, s.len() as int)
                                == self.toks.pos as int);
                        }
                        self.parse_ops(1, Expression::And(Box::new(cur), Box::new(rhs)))
                    } else {
                        Ok(cur)
                    }
                },
                Token::Or => {
                    if prec < 3 {
                        let _or = self.toks.next();
                        let ghost next = self.toks.pos as int;
                        proof {
                            lemma_scan(s, pos0);
                            assert(step_pos(pos0, next, s.len() as int) == next);
                        }
                        let rhs = match self.parse(2) {
                            Ok(e) => e,
                            Err(e) => {
                                return Err(e);
                            },
                        };
                        proof {
                            lemma_sp_parse_bounds(s, m, next, 2);
                            assert(step_pos(pos0, self.toks.pos as int, s.len() as int)
                                == self.toks.pos as int);
                        }
                        self.parse_ops(2, Expression::Or(Box::new(cur), Box::new(rhs)))
                    } else {
                        Ok(cur)
                    }
                },
                Token::Word(_) => {
                    if prec < 2 {
                        let p = match self.parse_pred() {
                            Ok(e) => e,
                            Err(e) => {
                                return Err(e);
                            },
                        };
                        proof {
                            lemma_sp_pred_bounds(s, m, pos0);
                            assert(step_pos(pos0, self.toks.pos as int, s.len() as int)
                                == self.toks.pos as int);
                        }
                        self.parse_ops(1, Expression::And(Box::new(cur), Box::new(p)))
                    } else {
                        Ok(cur)
                    }
                },
            },
        }
    }

    /// Parse the whole input: one expression, then nothing but end of input.
    fn parse_all(&mut self) -> (r: Result<Expression, Error>)
        requires
            old(self).wf(),
            old(self).toks.pos == 0,
        ensures
            match sp_parse_all(old(self).src(), old(self).lm()) {
                Ok(e) => {
                    &&& r matches Ok(expr)
                    &&& expr@ == e
                },
                Err(err) => {
                    &&& r matches Err(er)
                    &&& er@ == err
                },
            },
    {
        let ghost s = self.src();
        let ghost m = self.lm();
        let e = match self.parse(0) {
            Ok(e) => e,
            Err(er) => {
                return Err(er);
            },
        };
        proof {
            lemma_sp_parse_bounds(s, m, 0, 0);
        }
        match self.toks.next() {
            None => Ok(e),
            Some(Err(er)) => Err(er),
            Some(Ok(ti)) => {
                let mut msg = "Unexpected token ".to_owned();
                let d = ti.token.describe();
                msg.append(d.as_str());
                Err(Error { pos: Some(ti.pos), what: msg })
            },
        }
    }
}

/// Compile `text` into an [`Expression`].
///
/// The map lets users write list names instead of identifiers: `list:<name>`
/// resolves through `lists`, and an unknown name is a compile-time error.
/// The result is pinned down exactly: it is `Ok` with a tree modelling
/// [`sp_parse_all`]`(text@, lists@)` when that spec compile succeeds, and the
/// corresponding error otherwise.
pub fn parse(text: &str, lists: &ListMap) -> (r: Result<Expression, Error>)
    ensures
        match sp_parse_all(text@, lists@) {
            Ok(e) => {
                &&& r matches Ok(expr)
                &&& expr@ == e
            },
            Err(err) => {
                &&& r matches Err(er)
                &&& er@ == err
            },
        },
{
    let mut parser = Parser { toks: Tokenizer::new(text), lists };
    parser.parse_all()
}


// ---------------------------------------------------------------------------
// Laws
// ---------------------------------------------------------------------------

/// Helper: in an all-whitespace suffix, whitespace skipping reaches the end.
proof fn lemma_skip_ws_all(s: Seq<char>, i: int)
    requires
        0 <= i <= s.len(),
        forall|k: int| i <= k < s.len() ==> is_ws_char(s[k]),
    ensures
        skip_ws(s, i) == s.len(),
    decreases s.len() - i,
{
    if i < s.len() {
        lemma_skip_ws_all(s, i + 1);
    }
}

/// An input that is empty or consists only of whitespace is rejected with
/// the "empty input" error, which carries no position.
pub proof fn lemma_whitespace_only_rejected(s: Seq<char>, m: Map<Seq<char>, Id>)
    requires
        forall|i: int| 0 <= i < s.len() ==> is_ws_char(s[i]),
    ensures
        sp_parse_all(s, m) matches Err(err) && err.pos is None && err.what == msg_empty_input(),
{
    lemma_skip_ws_all(s, 0);
    assert(scan(s, 0) == Scan::End);
    assert(sp_parse(s, m, 0, 0) == Parsed::Bad {
        err: ErrModel { pos: None, what: msg_empty_input() },
    });
}

/// Compilation is deterministic: two expressions compiled from the same text
/// and the same map have the same model, and therefore match exactly the
/// same cards.  (Evaluation depends only on the model.)
pub proof fn lemma_compile_idempotent(
    s: Seq<char>,
    m: Map<Seq<char>, Id>,
    e1: Expression,
    e2: Expression,
)
    requires
        sp_parse_all(s, m) matches Ok(e) && e1@ == e,
        sp_parse_all(s, m) matches Ok(e) && e2@ == e,
    ensures
        e1@ == e2@,
        forall|c: CardModel| sat(e1@, c) == sat(e2@, c),
{
}

/// `a AND b` and the juxtaposition `a b` compile to the same conjunction
/// tree, so they match exactly the same cards.
pub proof fn lemma_juxtaposition_is_conjunction(m: Map<Seq<char>, Id>)
    ensures
        sp_parse_all("a AND b"@, m) == sp_parse_all("a b"@, m),
        sp_parse_all("a b"@, m) == Ok::<ExprModel, ErrModel>(
            ExprModel::And(Box::new(ExprModel::HasText("a"@)), Box::new(ExprModel::HasText("b"@))),
        ),
{
    let hta = ExprModel::HasText("a"@);
    let htb = ExprModel::HasText("b"@);
    let ab = ExprModel::And(Box::new(hta), Box::new(htb));
    reveal_strlit("a");
    reveal_strlit("b");
    reveal_strlit("AND");
    reveal_strlit("OR");
    let s = "a b"@;
    reveal_strlit("a b");
    assert(s.len() == 3);
    assert(s[0] == 'a' && s[1] == ' ' && s[2] == 'b');
    assert(skip_ws(s, 0) == 0);
    assert(word_end(s, 1) == 1);
    assert(word_end(s, 0) == 1);
    assert(s.subrange(0, 1) =~= "a"@);
    assert(scan(s, 0) == Scan::Tok { t: TokModel::Word("a"@), tpos: 0, next: 1 });
    assert(skip_ws(s, 2) == 2);
    assert(skip_ws(s, 1) == 2);
    assert(word_end(s, 3) == 3);
    assert(word_end(s, 2) == 3);
    assert(s.subrange(2, 3) =~= "b"@);
    assert(scan(s, 1) == Scan::Tok { t: TokModel::Word("b"@), tpos: 2, next: 3 });
    assert(skip_ws(s, 3) == 3);
    assert(scan(s, 3) == Scan::End);
    assert(sp_pred(s, m, 0) == Parsed::Good { e: hta, next: 1 });
    assert(sp_pred(s, m, 1) == Parsed::Good { e: htb, next: 3 });
    assert(sp_ops(s, m, 3, 1, ab) == Parsed::Good { e: ab, next: 3 });
    assert(step_pos(1, 3, 3) == 3);
    assert(sp_ops(s, m, 1, 0, hta) == Parsed::Good { e: ab, next: 3 });
    assert(step_pos(0, 1, 3) == 1);
    assert(sp_parse(s, m, 0, 0) == Parsed::Good { e: ab, next: 3 });
    assert(sp_parse_all(s, m) == Ok::<ExprModel, ErrModel>(ab));
    let t = "a AND b"@;
    reveal_strlit("a AND b");
    assert(t.len() == 7);
    assert(t[0] == 'a' && t[1] == ' ' && t[2] == 'A' && t[3] == 'N' && t[4] == 'D' && t[5] == ' '
        && t[6] == 'b');
    assert(skip_ws(t, 0) == 0);
    assert(word_end(t, 1) == 1);
    assert(word_end(t, 0) == 1);
    assert(t.subrange(0, 1) =~= "a"@);
    assert(scan(t, 0) == Scan::Tok { t: TokModel::Word("a"@), tpos: 0, next: 1 });
    assert(skip_ws(t, 2) == 2);
    assert(skip_ws(t, 1) == 2);
    assert(word_end(t, 5) == 5);
    assert(word_end(t, 4) == 5);
    assert(word_end(t, 3) == 5);
    assert(word_end(t, 2) == 5);
    assert(t.subrange(2, 5) =~= "AND"@);
    assert(scan(t, 1) == Scan::Tok { t: TokModel::And, tpos: 2, next: 5 });
    assert(skip_ws(t, 6) == 6);
    assert(skip_ws(t, 5) == 6);
    assert(word_end(t, 7) == 7);
    assert(word_end(t, 6) == 7);
    assert(t.subrange(6, 7) =~= "b"@);
    assert(scan(t, 5) == Scan::Tok { t: TokModel::Word("b"@), tpos: 6, next: 7 });
    assert(skip_ws(t, 7) == 7);
    assert(scan(t, 7) == Scan::End);
    assert(sp_pred(t, m, 0) == Parsed::Good { e: hta, next: 1 });
    assert(sp_pred(t, m, 5) == Parsed::Good { e: htb, next: 7 });
    assert(sp_ops(t, m, 7, 3, htb) == Parsed::Good { e: htb, next: 7 });
    assert(step_pos(5, 7, 7) == 7);
    assert(sp_parse(t, m, 5, 3) == Parsed::Good { e: htb, next: 7 });
    assert(sp_ops(t, m, 7, 1, ab) == Parsed::Good { e: ab, next: 7 });
    assert(step_pos(1, 5, 7) == 5);
    assert(step_pos(1, 7, 7) == 7);
    assert(sp_ops(t, m, 1, 0, hta) == Parsed::Good { e: ab, next: 7 });
    assert(step_pos(0, 1, 7) == 1);
    assert(sp_parse(t, m, 0, 0) == Parsed::Good { e: ab, next: 7 });
    assert(sp_parse_all(t, m) == Ok::<ExprModel, ErrModel>(ab));
}

/// The precedence quirk, pinned down:
///
/// * `a AND b OR c` parses as `(a AND b) OR c`, so it matches a card iff
///   both `a` and `b` match, or `c` matches;
/// * `a OR (b AND c)` parses as written;
/// * `a OR b AND c` (no parentheses) does not compile: the trailing `AND`
///   after a committed `OR` is an "unexpected token" error at its offset.
#[verifier::rlimit(100)]
pub proof fn lemma_and_after_or_needs_parens(m: Map<Seq<char>, Id>)
    ensures
        sp_parse_all("a AND b OR c"@, m) == Ok::<ExprModel, ErrModel>(
            ExprModel::Or(
                Box::new(
                    ExprModel::And(
                        Box::new(ExprModel::HasText("a"@)),
                        Box::new(ExprModel::HasText("b"@)),
                    ),
                ),
                Box::new(ExprModel::HasText("c"@)),
            ),
        ),
        sp_parse_all("a OR (b AND c)"@, m) == Ok::<ExprModel, ErrModel>(
            ExprModel::Or(
                Box::new(ExprModel::HasText("a"@)),
                Box::new(
                    ExprModel::And(
                        Box::new(ExprModel::HasText("b"@)),
                        Box::new(ExprModel::HasText("c"@)),
                    ),
                ),
            ),
        ),
        sp_parse_all("a OR b AND c"@, m) == Err::<ExprModel, ErrModel>(
            ErrModel { pos: Some(7), what: msg_unexpected_token("AND"@) },
        ),
        forall|cd: CardModel|
            sat(
                ExprModel::Or(
                    Box::new(
                        ExprModel::And(
                            Box::new(ExprModel::HasText("a"@)),
                            Box::new(ExprModel::HasText("b"@)),
                        ),
                    ),
                    Box::new(ExprModel::HasText("c"@)),
                ),
                cd,
            ) == ((contains_seq(cd.title, "a"@) && contains_seq(cd.title, "b"@)) || contains_seq(
                cd.title,
                "c"@,
            )),
        forall|cd: CardModel|
            sat(
                ExprModel::Or(
                    Box::new(ExprModel::HasText("a"@)),
                    Box::new(
                        ExprModel::And(
                            Box::new(ExprModel::HasText("b"@)),
                            Box::new(ExprModel::HasText("c"@)),
                        ),
                    ),
                ),
                cd,
            ) == (contains_seq(cd.title, "a"@) || (contains_seq(cd.title, "b"@) && contains_seq(
                cd.title,
                "c"@,
            ))),
{
    let hta = ExprModel::HasText("a"@);
    let htb = ExprModel::HasText("b"@);
    let htc = ExprModel::HasText("c"@);
    let ab = ExprModel::And(Box::new(hta), Box::new(htb));
    let bc = ExprModel::And(Box::new(htb), Box::new(htc));
    let ab_or_c = ExprModel::Or(Box::new(ab), Box::new(htc));
    let a_or_bc = ExprModel::Or(Box::new(hta), Box::new(bc));
    reveal_strlit("a");
    reveal_strlit("b");
    reveal_strlit("c");
    reveal_strlit("AND");
    reveal_strlit("OR");
    let s = "a AND b OR c"@;
    reveal_strlit("a AND b OR c");
    assert(s.len() == 12);
    assert(s[0] == 'a' && s[1] == ' ' && s[2] == 'A' && s[3] == 'N' && s[4] == 'D' && s[5] == ' '
        && s[6] == 'b' && s[7] == ' ' && s[8] == 'O' && s[9] == 'R' && s[10] == ' ' && s[11]
        == 'c');
    assert(skip_ws(s, 0) == 0);
    assert(word_end(s, 1) == 1);
    assert(word_end(s, 0) == 1);
    assert(s.subrange(0, 1) =~= "a"@);
    assert(scan(s, 0) == Scan::Tok { t: TokModel::Word("a"@), tpos: 0, next: 1 });
    assert(skip_ws(s, 2) == 2);
    assert(skip_ws(s, 1) == 2);
    assert(word_end(s, 5) == 5);
    assert(word_end(s, 4) == 5);
    assert(word_end(s, 3) == 5);
    assert(word_end(s, 2) == 5);
    assert(s.subrange(2, 5) =~= "AND"@);
    assert(scan(s, 1) == Scan::Tok { t: TokModel::And, tpos: 2, next: 5 });
    assert(skip_ws(s, 6) == 6);
    assert(skip_ws(s, 5) == 6);
    assert(word_end(s, 7) == 7);
    assert(word_end(s, 6) == 7);
    assert(s.subrange(6, 7) =~= "b"@);
    assert(scan(s, 5) == Scan::Tok { t: TokModel::Word("b"@), tpos: 6, next: 7 });
    assert(skip_ws(s, 8) == 8);
    assert(skip_ws(s, 7) == 8);
    assert(word_end(s, 10) == 10);
    assert(word_end(s, 9) == 10);
    assert(word_end(s, 8) == 10);
    assert(s.subrange(8, 10) =~= "OR"@);
    assert(scan(s, 7) == Scan::Tok { t: TokModel::Or, tpos: 8, next: 10 });
    assert(skip_ws(s, 11) == 11);
    assert(skip_ws(s, 10) == 11);
    assert(word_end(s, 12) == 12);
    assert(word_end(s, 11) == 12);
    assert(s.subrange(11, 12) =~= "c"@);
    assert(scan(s, 10) == Scan::Tok { t: TokModel::Word("c"@), tpos: 11, next: 12 });
    assert(skip_ws(s, 12) == 12);
    assert(scan(s, 12) == Scan::End);
    assert(sp_pred(s, m, 0) == Parsed::Good { e: hta, next: 1 });
    assert(sp_pred(s, m, 5) == Parsed::Good { e: htb, next: 7 });
    assert(sp_pred(s, m, 10) == Parsed::Good { e: htc, next: 12 });
    assert(sp_ops(s, m, 7, 3, htb) == Parsed::Good { e: htb, next: 7 });
    assert(step_pos(5, 7, 12) == 7);
    assert(sp_parse(s, m, 5, 3) == Parsed::Good { e: htb, next: 7 });
    assert(sp_ops(s, m, 12, 2, htc) == Parsed::Good { e: htc, next: 12 });
    assert(step_pos(10, 12, 12) == 12);
    assert(sp_parse(s, m, 10, 2) == Parsed::Good { e: htc, next: 12 });
    assert(sp_ops(s, m, 12, 2, ab_or_c) == Parsed::Good { e: ab_or_c, next: 12 });
    assert(step_pos(7, 10, 12) == 10);
    assert(step_pos(7, 12, 12) == 12);
    assert(sp_ops(s, m, 7, 1, ab) == Parsed::Good { e: ab_or_c, next: 12 });
    assert(step_pos(1, 5, 12) == 5);
    assert(step_pos(1, 7, 12) == 7);
    assert(sp_ops(s, m, 1, 0, hta) == Parsed::Good { e: ab_or_c, next: 12 });
    assert(step_pos(0, 1, 12) == 1);
    assert(sp_parse(s, m, 0, 0) == Parsed::Good { e: ab_or_c, next: 12 });
    assert(sp_parse_all(s, m) == Ok::<ExprModel, ErrModel>(ab_or_c));
    let t = "a OR (b AND c)"@;
    reveal_strlit("a OR (b AND c)");
    assert(t.len() == 14);
    assert(t[0] == 'a' && t[1] == ' ' && t[2] == 'O' && t[3] == 'R' && t[4] == ' ' && t[5] == '('
        && t[6] == 'b' && t[7] == ' ' && t[8] == 'A' && t[9] == 'N' && t[10] == 'D' && t[11] == ' '
        && t[12] == 'c' && t[13] == ')');
    assert(skip_ws(t, 0) == 0);
    assert(word_end(t, 1) == 1);
    assert(word_end(t, 0) == 1);
    assert(t.subrange(0, 1) =~= "a"@);
    assert(scan(t, 0) == Scan::Tok { t: TokModel::Word("a"@), tpos: 0, next: 1 });
    assert(skip_ws(t, 2) == 2);
    assert(skip_ws(t, 1) == 2);
    assert(word_end(t, 4) == 4);
    assert(word_end(t, 3) == 4);
    assert(word_end(t, 2) == 4);
    assert(t.subrange(2, 4) =~= "OR"@);
    assert(scan(t, 1) == Scan::Tok { t: TokModel::Or, tpos: 2, next: 4 });
    assert(skip_ws(t, 5) == 5);
    assert(skip_ws(t, 4) == 5);
    assert(scan(t, 4) == Scan::Tok { t: TokModel::OpenParen, tpos: 5, next: 6 });
    assert(skip_ws(t, 6) == 6);
    assert(word_end(t, 7) == 7);
    assert(word_end(t, 6) == 7);
    assert(t.subrange(6, 7) =~= "b"@);
    assert(scan(t, 6) == Scan::Tok { t: TokModel::Word("b"@), tpos: 6, next: 7 });
    assert(skip_ws(t, 8) == 8);
    assert(skip_ws(t, 7) == 8);
    assert(word_end(t, 11) == 11);
    assert(word_end(t, 10) == 11);
    assert(word_end(t, 9) == 11);
    assert(word_end(t, 8) == 11);
    assert(t.subrange(8, 11) =~= "AND"@);
    assert(scan(t, 7) == Scan::Tok { t: TokModel::And, tpos: 8, next: 11 });
    assert(skip_ws(t, 12) == 12);
    assert(skip_ws(t, 11) == 12);
    assert(word_end(t, 13) == 13);
    assert(word_end(t, 12) == 13);
    assert(t.subrange(12, 13) =~= "c"@);
    assert(scan(t, 11) == Scan::Tok { t: TokModel::Word("c"@), tpos: 12, next: 13 });
    assert(skip_ws(t, 13) == 13);
    assert(scan(t, 13) == Scan::Tok { t: TokModel::CloseParen, tpos: 13, next: 14 });
    assert(skip_ws(t, 14) == 14);
    assert(scan(t, 14) == Scan::End);
    assert(sp_pred(t, m, 0) == Parsed::Good { e: hta, next: 1 });
    assert(sp_pred(t, m, 6) == Parsed::Good { e: htb, next: 7 });
    assert(sp_pred(t, m, 11) == Parsed::Good { e: htc, next: 13 });
    assert(sp_ops(t, m, 13, 3, htc) == Parsed::Good { e: htc, next: 13 });
    assert(step_pos(11, 13, 14) == 13);
    assert(sp_parse(t, m, 11, 3) == Parsed::Good { e: htc, next: 13 });
    assert(sp_ops(t, m, 13, 1, bc) == Parsed::Good { e: bc, next: 13 });
    assert(step_pos(7, 11, 14) == 11);
    assert(step_pos(7, 13, 14) == 13);
    assert(sp_ops(t, m, 7, 0, htb) == Parsed::Good { e: bc, next: 13 });
    assert(step_pos(6, 7, 14) == 7);
    assert(sp_parse(t, m, 6, 0) == Parsed::Good { e: bc, next: 13 });
    assert(step_pos(4, 6, 14) == 6);
    assert(sp_group(t, m, 4) == Parsed::Good { e: bc, next: 14 });
    assert(sp_ops(t, m, 14, 2, bc) == Parsed::Good { e: bc, next: 14 });
    assert(step_pos(4, 14, 14) == 14);
    assert(sp_parse(t, m, 4, 2) == Parsed::Good { e: bc, next: 14 });
    assert(sp_ops(t, m, 14, 2, a_or_bc) == Parsed::Good { e: a_or_bc, next: 14 });
    assert(step_pos(1, 4, 14) == 4);
    assert(step_pos(1, 14, 14) == 14);
    assert(sp_ops(t, m, 1, 0, hta) == Parsed::Good { e: a_or_bc, next: 14 });
    assert(step_pos(0, 1, 14) == 1);
    assert(sp_parse(t, m, 0, 0) == Parsed::Good { e: a_or_bc, next: 14 });
    assert(sp_parse_all(t, m) == Ok::<ExprModel, ErrModel>(a_or_bc));
    let u = "a OR b AND c"@;
    reveal_strlit("a OR b AND c");
    assert(u.len() == 12);
    assert(u[0] == 'a' && u[1] == ' ' && u[2] == 'O' && u[3] == 'R' && u[4] == ' ' && u[5] == 'b'
        && u[6] == ' ' && u[7] == 'A' && u[8] == 'N' && u[9] == 'D' && u[10] == ' ' && u[11]
        == 'c');
    assert(skip_ws(u, 0) == 0);
    assert(word_end(u, 1) == 1);
    assert(word_end(u, 0) == 1);
    assert(u.subrange(0, 1) =~= "a"@);
    assert(scan(u, 0) == Scan::Tok { t: TokModel::Word("a"@), tpos: 0, next: 1 });
    assert(skip_ws(u, 2) == 2);
    assert(skip_ws(u, 1) == 2);
    assert(word_end(u, 4) == 4);
    assert(word_end(u, 3) == 4);
    assert(word_end(u, 2) == 4);
    assert(u.subrange(2, 4) =~= "OR"@);
    assert(scan(u, 1) == Scan::Tok { t: TokModel::Or, tpos: 2, next: 4 });
    assert(skip_ws(u, 5) == 5);
    assert(skip_ws(u, 4) == 5);
    assert(word_end(u, 6) == 6);
    assert(word_end(u, 5) == 6);
    assert(u.subrange(5, 6) =~= "b"@);
    assert(scan(u, 4) == Scan::Tok { t: TokModel::Word("b"@), tpos: 5, next: 6 });
    assert(skip_ws(u, 7) == 7);
    assert(skip_ws(u, 6) == 7);
    assert(word_end(u, 10) == 10);
    assert(word_end(u, 9) == 10);
    assert(word_end(u, 8) == 10);
    assert(word_end(u, 7) == 10);
    assert(u.subrange(7, 10) =~= "AND"@);
    assert(scan(u, 6) == Scan::Tok { t: TokModel::And, tpos: 7, next: 10 });
    assert(sp_pred(u, m, 0) == Parsed::Good { e: hta, next: 1 });
    assert(sp_pred(u, m, 4) == Parsed::Good { e: htb, next: 6 });
    assert(sp_ops(u, m, 6, 2, htb) == Parsed::Good { e: htb, next: 6 });
    assert(step_pos(4, 6, 12) == 6);
    assert(sp_parse(u, m, 4, 2) == Parsed::Good { e: htb, next: 6 });
    let a_or_b = ExprModel::Or(Box::new(hta), Box::new(htb));
    assert(sp_ops(u, m, 6, 2, a_or_b) == Parsed::Good { e: a_or_b, next: 6 });
    assert(step_pos(1, 4, 12) == 4);
    assert(step_pos(1, 6, 12) == 6);
    assert(sp_ops(u, m, 1, 0, hta) == Parsed::Good { e: a_or_b, next: 6 });
    assert(step_pos(0, 1, 12) == 1);
    assert(sp_parse(u, m, 0, 0) == Parsed::Good { e: a_or_b, next: 6 });
    assert(token_descr(TokModel::And) == "AND"@);
    assert(sp_parse_all(u, m) == Err::<ExprModel, ErrModel>(
        ErrModel { pos: Some(7), what: msg_unexpected_token("AND"@) },
    ));
    assert forall|cd: CardModel|
        sat(ab_or_c, cd) == ((contains_seq(cd.title, "a"@) && contains_seq(cd.title, "b"@))
            || contains_seq(cd.title, "c"@)) by {
        assert(sat(ab_or_c, cd) == (sat(ab, cd) || sat(htc, cd)));
        assert(sat(ab, cd) == (sat(hta, cd) && sat(htb, cd)));
    }
    assert forall|cd: CardModel|
        sat(a_or_bc, cd) == (contains_seq(cd.title, "a"@) || (contains_seq(cd.title, "b"@)
            && contains_seq(cd.title, "c"@))) by {
        assert(sat(a_or_bc, cd) == (sat(hta, cd) || sat(bc, cd)));
        assert(sat(bc, cd) == (sat(htb, cd) && sat(htc, cd)));
    }
}

/// Helper: in an all-word-character string, word scanning reaches the end.
proof fn lemma_word_end_all(s: Seq<char>, i: int)
    requires
        0 <= i <= s.len(),
        forall|k: int| 0 <= k < s.len() ==> is_word_char(s[k]),
    ensures
        word_end(s, i) == s.len(),
    decreases s.len() - i,
{
    if i < s.len() {
        lemma_word_end_all(s, i + 1);
    }
}

/// Any bare word other than the reserved `AND` and `OR` compiles, on its
/// own, to a title test for that word, and matches exactly the cards whose
/// title contains it.
pub proof fn lemma_bare_word_is_title_test(s: Seq<char>, m: Map<Seq<char>, Id>)
    requires
        s.len() > 0,
        forall|k: int| 0 <= k < s.len() ==> is_word_char(s[k]),
        s != "AND"@,
        s != "OR"@,
    ensures
        sp_parse_all(s, m) == Ok::<ExprModel, ErrModel>(ExprModel::HasText(s)),
        forall|c: CardModel| sat(ExprModel::HasText(s), c) == contains_seq(c.title, s),
{
    let len = s.len() as int;
    assert(!is_ws_char(s[0]));
    assert(skip_ws(s, 0) == 0);
    lemma_word_end_all(s, 0);
    assert(s.subrange(0, len) =~= s);
    assert(s[0] != '"' && s[0] != '(' && s[0] != ')' && s[0] != ':');
    assert(scan(s, 0) == Scan::Tok { t: TokModel::Word(s), tpos: 0, next: len });
    assert(skip_ws(s, len) == len);
    assert(scan(s, len) == Scan::End);
    assert(sp_pred(s, m, 0) == Parsed::Good { e: ExprModel::HasText(s), next: len });
    assert(sp_ops(s, m, len, 0, ExprModel::HasText(s)) == Parsed::Good {
        e: ExprModel::HasText(s),
        next: len,
    });
    assert(step_pos(0, len, len) == len);
    assert(sp_parse(s, m, 0, 0) == Parsed::Good { e: ExprModel::HasText(s), next: len });
}

/// `list:X` compiles to an `InList` node holding the identifier that the map
/// assigns to `X`, and matches exactly the cards in that list; when the map
/// has no entry for `X`, compilation fails with an "unknown list" error
/// positioned at the argument.
pub proof fn lemma_list_lookup(m: Map<Seq<char>, Id>)
    ensures
        m.contains_key("X"@) ==> sp_parse_all("list:X"@, m) == Ok::<ExprModel, ErrModel>(
            ExprModel::InList(m["X"@]),
        ),
        !m.contains_key("X"@) ==> sp_parse_all("list:X"@, m) == Err::<ExprModel, ErrModel>(
            ErrModel { pos: Some(5), what: msg_unknown_list("X"@) },
        ),
        forall|id: Id, c: CardModel| sat(ExprModel::InList(id), c) == (c.list == id),
{
    reveal_strlit("list");
    reveal_strlit("X");
    reveal_strlit("AND");
    reveal_strlit("OR");
    let s = "list:X"@;
    reveal_strlit("list:X");
    assert(s.len() == 6);
    assert(s[0] == 'l' && s[1] == 'i' && s[2] == 's' && s[3] == 't' && s[4] == ':' && s[5] == 'X');
    assert(skip_ws(s, 0) == 0);
    assert(word_end(s, 4) == 4);
    assert(word_end(s, 3) == 4);
    assert(word_end(s, 2) == 4);
    assert(word_end(s, 1) == 4);
    assert(word_end(s, 0) == 4);
    assert(s.subrange(0, 4) =~= "list"@);
    assert(scan(s, 0) == Scan::Tok { t: TokModel::Word("list"@), tpos: 0, next: 4 });
    assert(skip_ws(s, 4) == 4);
    assert(scan(s, 4) == Scan::Tok { t: TokModel::Colon, tpos: 4, next: 5 });
    assert(skip_ws(s, 5) == 5);
    assert(word_end(s, 6) == 6);
    assert(word_end(s, 5) == 6);
    assert(s.subrange(5, 6) =~= "X"@);
    assert(scan(s, 5) == Scan::Tok { t: TokModel::Word("X"@), tpos: 5, next: 6 });
    assert(skip_ws(s, 6) == 6);
    assert(scan(s, 6) == Scan::End);
    if m.contains_key("X"@) {
        let e = ExprModel::InList(m["X"@]);
        assert(sp_pred(s, m, 0) == Parsed::Good { e, next: 6 });
        assert(sp_ops(s, m, 6, 0, e) == Parsed::Good { e, next: 6 });
        assert(step_pos(0, 6, 6) == 6);
        assert(sp_parse(s, m, 0, 0) == Parsed::Good { e, next: 6 });
        assert(sp_parse_all(s, m) == Ok::<ExprModel, ErrModel>(e));
    } else {
        assert(sp_pred(s, m, 0) == Parsed::Bad {
            err: ErrModel { pos: Some(5), what: msg_unknown_list("X"@) },
        });
    }
}



} // verus!

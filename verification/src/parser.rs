//! The front end of a small calculator: a tokenizer, and a parser that turns
//! the tokens of an expression over `+ - * / ^` into the steps of a stack
//! machine.

use std::collections::VecDeque;
use vstd::prelude::*;

verus! {

/// `String::push`: the character is put behind the string's characters.
pub assume_specification[ String::push ](s: &mut String, c: char)
    ensures
        final(s)@ == old(s)@.push(c),
;

/// What a token is: a name, an operator, a number or another symbol. The
/// tokenizer makes no symbols: it passes over what is none of the others.
#[derive(Clone, Copy, Debug, PartialEq, Eq, Structural)]
pub enum TokType {
    Id,
    Op,
    Num,
    Sym,
}

/// A token: its text, a position in the input counted in characters, and its
/// kind. The position of an operator is where it stands; that of a number or
/// a name is where it ends.
#[derive(Debug)]
pub struct Tok {
    pub val: String,
    pub pos: usize,
    pub typ: TokType,
}

/// A token as the contracts see it.
pub struct TokView {
    pub val: Seq<char>,
    pub pos: usize,
    pub typ: TokType,
}

impl View for Tok {
    type V = TokView;

    open spec fn view(&self) -> TokView {
        TokView { val: self.val@, pos: self.pos, typ: self.typ }
    }
}

impl Clone for Tok {
    fn clone(&self) -> (r: Tok)
        ensures
            r@ == self@,
    {
        Tok { val: self.val.clone(), pos: self.pos, typ: self.typ }
    }
}

pub open spec fn is_digit(c: char) -> bool {
    '0' <= c && c <= '9'
}

pub open spec fn is_num_char(c: char) -> bool {
    is_digit(c) || c == '.'
}

pub open spec fn is_id_start(c: char) -> bool {
    ('a' <= c && c <= 'z') || ('A' <= c && c <= 'Z') || c == '_'
}

pub open spec fn is_id_char(c: char) -> bool {
    is_id_start(c) || is_digit(c)
}

pub open spec fn is_op(c: char) -> bool {
    c == '+' || c == '-' || c == '*' || c == '/' || c == '^'
}

/// Where the run of number characters that begins at `i` ends.
pub open spec fn num_end(s: Seq<char>, i: int) -> int
    decreases s.len() - i,
{
    if 0 <= i < s.len() && is_num_char(s[i]) {
        num_end(s, i + 1)
    } else {
        i
    }
}

/// Where the run of name characters that begins at `i` ends.
pub open spec fn id_end(s: Seq<char>, i: int) -> int
    decreases s.len() - i,
{
    if 0 <= i < s.len() && is_id_char(s[i]) {
        id_end(s, i + 1)
    } else {
        i
    }
}

pub proof fn lemma_num_end(s: Seq<char>, i: int)
    requires
        0 <= i <= s.len(),
    ensures
        i <= num_end(s, i) <= s.len(),
        i < s.len() && is_num_char(s[i]) ==> i < num_end(s, i),
    decreases s.len() - i,
{
    if i < s.len() && is_num_char(s[i]) {
        lemma_num_end(s, i + 1);
    }
}

pub proof fn lemma_id_end(s: Seq<char>, i: int)
    requires
        0 <= i <= s.len(),
    ensures
        i <= id_end(s, i) <= s.len(),
        i < s.len() && is_id_char(s[i]) ==> i < id_end(s, i),
    decreases s.len() - i,
{
    if i < s.len() && is_id_char(s[i]) {
        lemma_id_end(s, i + 1);
    }
}

/// The tokens of the input from position `i` on. A digit begins a number,
/// which runs as far as digits and points go; a letter or an underscore
/// begins a name, which runs as far as letters, digits and underscores go;
/// each of `+ - * / ^` is an operator; every other character is passed over.
pub open spec fn lex_from(s: Seq<char>, i: int) -> Seq<TokView>
    decreases s.len() - i,
{
    if i < 0 || i >= s.len() {
        Seq::empty()
    } else if is_digit(s[i]) {
        proof {
            lemma_num_end(s, i);
        }
        let j = num_end(s, i);
        seq![TokView { val: s.subrange(i, j), pos: j as usize, typ: TokType::Num }] + lex_from(s, j)
    } else if is_id_start(s[i]) {
        proof {
            lemma_id_end(s, i);
        }
        let j = id_end(s, i);
        seq![TokView { val: s.subrange(i, j), pos: j as usize, typ: TokType::Id }] + lex_from(s, j)
    } else if is_op(s[i]) {
        seq![TokView { val: seq![s[i]], pos: i as usize, typ: TokType::Op }] + lex_from(s, i + 1)
    } else {
        lex_from(s, i + 1)
    }
}

/// The tokens of the whole input.
pub open spec fn lex_spec(s: Seq<char>) -> Seq<TokView> {
    lex_from(s, 0)
}

/// The views of a run of tokens.
pub open spec fn views(toks: Seq<Tok>) -> Seq<TokView> {
    Seq::new(toks.len(), |k: int| toks[k]@)
}

/// The characters of `input`.
fn chars_of(input: &str) -> (v: Vec<char>)
    ensures
        v@ == input@,
{
    let mut v: Vec<char> = Vec::new();
    for c in it: input.chars()
        invariant
            it.seq() == input@,
            v@ == it.seq().take(it.index()),
    {
        v.push(c);
    }
    v
}

/// Putting a token behind a run of tokens puts its view behind their views.
proof fn lemma_views_push(toks: Seq<Tok>, tok: Tok)
    ensures
        views(toks.push(tok)) == views(toks).push(tok@),
{
    assert(views(toks.push(tok)) =~= views(toks).push(tok@));
}

/// Splits the input into tokens.
pub fn lex(input: &str) -> (toks: VecDeque<Tok>)
    ensures
        views(toks@) == lex_spec(input@),
{
    let chars: Vec<char> = chars_of(input);
    let n: usize = chars.len();
    let mut toks: VecDeque<Tok> = VecDeque::new();
    let mut pos: usize = 0;
    proof {
        assert(views(toks@) =~= Seq::<TokView>::empty());
        assert(views(toks@) + lex_from(chars@, 0) =~= lex_spec(chars@));
    }
    while pos < n
        invariant
            pos <= n,
            n == chars@.len(),
            chars@ == input@,
            views(toks@) + lex_from(chars@, pos as int) == lex_spec(chars@),
        decreases n - pos,
    {
        let c: char = chars[pos];
        let ghost start = pos as int;
        let ghost before = toks@;
        if c >= '0' && c <= '9' {
            let mut num = String::new();
            while pos < n && ((chars[pos] >= '0' && chars[pos] <= '9') || chars[pos] == '.')
                invariant
                    0 <= start <= pos <= n,
                    n == chars@.len(),
                    num@ == chars@.subrange(start, pos as int),
                    num_end(chars@, pos as int) == num_end(chars@, start),
                decreases n - pos,
            {
                num.push(chars[pos]);
                pos += 1;
                proof {
                    assert(chars@.subrange(start, pos as int) =~= chars@.subrange(
                        start,
                        pos as int - 1,
                    ).push(chars@[pos as int - 1]));
                }
            }
            let tok = Tok { val: num, pos, typ: TokType::Num };
            proof {
                lemma_views_push(before, tok);
                assert(views(before).push(tok@) + lex_from(chars@, pos as int) =~= views(before)
                    + lex_from(chars@, start));
            }
            toks.push_back(tok);
        } else if (c >= 'a' && c <= 'z') || (c >= 'A' && c <= 'Z') || c == '_' {
            let mut id = String::new();
            while pos < n && ((chars[pos] >= 'a' && chars[pos] <= 'z') || (chars[pos] >= 'A'
                && chars[pos] <= 'Z') || chars[pos] == '_' || (chars[pos] >= '0' && chars[pos]
                <= '9'))
                invariant
                    0 <= start <= pos <= n,
                    n == chars@.len(),
                    id@ == chars@.subrange(start, pos as int),
                    id_end(chars@, pos as int) == id_end(chars@, start),
                decreases n - pos,
            {
                id.push(chars[pos]);
                pos += 1;
                proof {
                    assert(chars@.subrange(start, pos as int) =~= chars@.subrange(
                        start,
                        pos as int - 1,
                    ).push(chars@[pos as int - 1]));
                }
            }
            let tok = Tok { val: id, pos, typ: TokType::Id };
            proof {
                lemma_views_push(before, tok);
                assert(views(before).push(tok@) + lex_from(chars@, pos as int) =~= views(before)
                    + lex_from(chars@, start));
            }
            toks.push_back(tok);
        } else if c == '+' || c == '-' || c == '*' || c == '/' || c == '^' {
            let mut op = String::new();
            op.push(c);
            let tok = Tok { val: op, pos, typ: TokType::Op };
            pos += 1;
            proof {
                assert(tok@.val =~= seq![c]);
                lemma_views_push(before, tok);
                assert(views(before).push(tok@) + lex_from(chars@, pos as int) =~= views(before)
                    + lex_from(chars@, start));
            }
            toks.push_back(tok);
        } else {
            pos += 1;
        }
    }
    proof {
        assert(views(toks@) + lex_from(chars@, pos as int) =~= views(toks@));
    }
    toks
}

/// Why an expression could not be parsed or evaluated.
#[derive(Debug)]
pub enum ParseError {
    InvalidToken(String),
    UnexpectedEOF,
    Syntax(String),
}

/// A `ParseError` as the contracts see it.
pub enum ParseErrorView {
    InvalidToken(Seq<char>),
    UnexpectedEOF,
    Syntax(Seq<char>),
}

impl View for ParseError {
    type V = ParseErrorView;

    open spec fn view(&self) -> ParseErrorView {
        match self {
            ParseError::InvalidToken(m) => ParseErrorView::InvalidToken(m@),
            ParseError::UnexpectedEOF => ParseErrorView::UnexpectedEOF,
            ParseError::Syntax(m) => ParseErrorView::Syntax(m@),
        }
    }
}

impl ParseErrorView {
    /// The error in words.
    pub open spec fn message(self) -> Seq<char> {
        match self {
            ParseErrorView::InvalidToken(m) => "invalid token sequence: "@ + m,
            ParseErrorView::UnexpectedEOF => "unexpected end of input"@,
            ParseErrorView::Syntax(m) => "syntax error: "@ + m,
        }
    }
}

impl ParseError {
    /// The error in words.
    pub fn message(&self) -> (m: String)
        ensures
            m@ == self@.message(),
    {
        match self {
            ParseError::InvalidToken(m) => String::from_str("invalid token sequence: ").concat(
                m.as_str(),
            ),
            ParseError::UnexpectedEOF => String::from_str("unexpected end of input"),
            ParseError::Syntax(m) => String::from_str("syntax error: ").concat(m.as_str()),
        }
    }
}

/// One step of a stack machine that computes an expression. `Num` puts the
/// number that the token with the given index spells on the stack, `Var` the
/// value of the name that it spells; the others take two values off the stack
/// and put back their sum, difference, product or quotient, or the first
/// raised to the power of the second.
#[derive(Clone, Copy, Debug, PartialEq, Eq, Structural)]
pub enum Step {
    Num(usize),
    Var(usize),
    Add,
    Sub,
    Mul,
    Div,
    Pow,
}

/// What parsing gives: the steps that compute the expression as far as it
/// could be parsed, and the error that stopped the parser, if one did. The
/// steps stand in the order in which a reader who computes while reading
/// would take them, so whoever runs them meets an error of the computation
/// before an error of the parser exactly when the reader would.
#[derive(Debug)]
pub struct Plan {
    pub steps: Vec<Step>,
    pub fault: Option<ParseError>,
}

/// What the grammar makes of the tokens from some position on: the steps, the
/// error if there is one, and the position behind the last token read.
pub struct Parsed {
    pub steps: Seq<Step>,
    pub fault: Option<ParseErrorView>,
    pub next: int,
}

/// The number of points in `s`.
pub open spec fn points(s: Seq<char>) -> nat
    decreases s.len(),
{
    if s.len() == 0 {
        0
    } else {
        points(s.drop_last()) + if s.last() == '.' {
            1nat
        } else {
            0nat
        }
    }
}

/// The text of a number token spells a number: it has at most one point.
pub open spec fn is_numeral(s: Seq<char>) -> bool {
    points(s) <= 1
}

/// An operand is one token: a number or a name. Anything else is an error,
/// and so is the end of the tokens.
pub open spec fn atom_spec(toks: Seq<TokView>, i: int) -> Parsed {
    if i < 0 || i >= toks.len() {
        Parsed { steps: Seq::empty(), fault: Some(ParseErrorView::UnexpectedEOF), next: i }
    } else {
        match toks[i].typ {
            TokType::Num => if is_numeral(toks[i].val) {
                Parsed { steps: seq![Step::Num(i as usize)], fault: None, next: i + 1 }
            } else {
                Parsed {
                    steps: Seq::empty(),
                    fault: Some(ParseErrorView::InvalidToken("invalid number: "@ + toks[i].val)),
                    next: i + 1,
                }
            },
            TokType::Id => Parsed { steps: seq![Step::Var(i as usize)], fault: None, next: i + 1 },
            _ => Parsed {
                steps: Seq::empty(),
                fault: Some(ParseErrorView::InvalidToken("unexpected token: "@ + toks[i].val)),
                next: i + 1,
            },
        }
    }
}

/// The token at `i` is the one character `c`.
pub open spec fn is_text(toks: Seq<TokView>, i: int, c: char) -> bool {
    0 <= i < toks.len() && toks[i].val == seq![c]
}

/// A factor: an operand, and where `^` follows it, another factor as its
/// exponent and then the power. So `^` binds tighter than `*` and `/`, and a
/// chain of powers groups to the right. Where the exponent cannot be parsed,
/// the steps read so far stay and no power follows them.
pub open spec fn factor_spec(toks: Seq<TokView>, i: int) -> Parsed
    decreases toks.len() - i,
{
    let a = atom_spec(toks, i);
    if a.fault is Some {
        a
    } else if is_text(toks, i + 1, '^') {
        let r = factor_spec(toks, i + 2);
        if r.fault is Some {
            Parsed { steps: a.steps + r.steps, fault: r.fault, next: r.next }
        } else {
            Parsed { steps: (a.steps + r.steps).push(Step::Pow), fault: None, next: r.next }
        }
    } else {
        a
    }
}

/// A factor ends behind where it begins, and not behind the last token.
pub proof fn lemma_factor_next(toks: Seq<TokView>, i: int)
    requires
        0 <= i <= toks.len(),
    ensures
        i <= factor_spec(toks, i).next <= toks.len(),
        factor_spec(toks, i).fault is None ==> i < factor_spec(toks, i).next,
    decreases toks.len() - i,
{
    if atom_spec(toks, i).fault is None && is_text(toks, i + 1, '^') {
        lemma_factor_next(toks, i + 2);
    }
}

/// What follows the first factor of a term: as long as `*` or `/` comes, one
/// more factor and then the multiplication or division.
pub open spec fn term_rest(toks: Seq<TokView>, i: int) -> Parsed
    decreases toks.len() - i,
{
    if is_text(toks, i, '*') || is_text(toks, i, '/') {
        let f = factor_spec(toks, i + 1);
        if f.fault is Some {
            f
        } else {
            proof {
                lemma_factor_next(toks, i + 1);
            }
            let r = term_rest(toks, f.next);
            let op = if is_text(toks, i, '*') {
                Step::Mul
            } else {
                Step::Div
            };
            Parsed { steps: f.steps.push(op) + r.steps, fault: r.fault, next: r.next }
        }
    } else {
        Parsed { steps: Seq::empty(), fault: None, next: i }
    }
}

/// A term: factors with `*` or `/` between them.
pub open spec fn term_spec(toks: Seq<TokView>, i: int) -> Parsed {
    let f = factor_spec(toks, i);
    if f.fault is Some {
        f
    } else {
        let r = term_rest(toks, f.next);
        Parsed { steps: f.steps + r.steps, fault: r.fault, next: r.next }
    }
}

/// What follows the first factor of a term ends no earlier than it begins,
/// and not behind the last token.
pub proof fn lemma_term_rest_next(toks: Seq<TokView>, i: int)
    requires
        0 <= i <= toks.len(),
    ensures
        i <= term_rest(toks, i).next <= toks.len(),
    decreases toks.len() - i,
{
    if is_text(toks, i, '*') || is_text(toks, i, '/') {
        lemma_factor_next(toks, i + 1);
        if factor_spec(toks, i + 1).fault is None {
            lemma_term_rest_next(toks, factor_spec(toks, i + 1).next);
        }
    }
}

/// A term ends behind where it begins, and not behind the last token.
pub proof fn lemma_term_next(toks: Seq<TokView>, i: int)
    requires
        0 <= i <= toks.len(),
    ensures
        i <= term_spec(toks, i).next <= toks.len(),
        term_spec(toks, i).fault is None ==> i < term_spec(toks, i).next,
{
    lemma_factor_next(toks, i);
    if factor_spec(toks, i).fault is None {
        lemma_term_rest_next(toks, factor_spec(toks, i).next);
    }
}

/// As many powers as `n` says.
pub open spec fn pows(n: nat) -> Seq<Step> {
    Seq::new(n, |k: int| Step::Pow)
}

/// The powers that are still to follow an exponent: one for each `^` read,
/// unless the factor ends in an error.
pub open spec fn pows_due(n: nat, fault: Option<ParseErrorView>) -> Seq<Step> {
    if fault is None {
        pows(n)
    } else {
        Seq::empty()
    }
}

/// What follows the first term of an expression: as long as `+` or `-`
/// comes, one more term and then the addition or subtraction.
pub open spec fn expr_rest(toks: Seq<TokView>, i: int) -> Parsed
    decreases toks.len() - i,
{
    if is_text(toks, i, '+') || is_text(toks, i, '-') {
        let t = term_spec(toks, i + 1);
        if t.fault is Some {
            t
        } else {
            proof {
                lemma_term_next(toks, i + 1);
            }
            let r = expr_rest(toks, t.next);
            let op = if is_text(toks, i, '+') {
                Step::Add
            } else {
                Step::Sub
            };
            Parsed { steps: t.steps.push(op) + r.steps, fault: r.fault, next: r.next }
        }
    } else {
        Parsed { steps: Seq::empty(), fault: None, next: i }
    }
}

/// An expression: terms with `+` or `-` between them. It ends before the
/// first token that continues neither the expression nor its last term.
pub open spec fn expr_spec(toks: Seq<TokView>, i: int) -> Parsed {
    let t = term_spec(toks, i);
    if t.fault is Some {
        t
    } else {
        let r = expr_rest(toks, t.next);
        Parsed { steps: t.steps + r.steps, fault: r.fault, next: r.next }
    }
}

/// The view of the error in a result without a value.
pub open spec fn fault_of(r: Result<(), ParseError>) -> Option<ParseErrorView> {
    match r {
        Ok(_) => None,
        Err(e) => Some(e@),
    }
}

/// The view of an error that may be there.
pub open spec fn fault_view(f: Option<ParseError>) -> Option<ParseErrorView> {
    match f {
        None => None,
        Some(e) => Some(e@),
    }
}

/// Whether the text of `tok` is the one character `c`.
fn has_text(tok: &Tok, c: char) -> (r: bool)
    ensures
        r == (tok@.val == seq![c]),
{
    let text = tok.val.as_str();
    if text.unicode_len() == 1 {
        let first: char = text.get_char(0);
        proof {
            if first == c {
                assert(tok@.val =~= seq![c]);
            } else {
                assert(seq![c][0] == c);
            }
        }
        first == c
    } else {
        proof {
            assert(seq![c].len() == 1);
        }
        false
    }
}

/// Whether `text` has at most one point.
fn spells_number(text: &str) -> (r: bool)
    ensures
        r == is_numeral(text@),
{
    let chars: Vec<char> = chars_of(text);
    let mut seen: usize = 0;
    let mut k: usize = 0;
    while k < chars.len()
        invariant
            k <= chars@.len(),
            seen == points(chars@.take(k as int)),
            seen <= k,
        decreases chars@.len() - k,
    {
        proof {
            assert(chars@.take(k + 1).drop_last() =~= chars@.take(k as int));
        }
        if chars[k] == '.' {
            seen += 1;
        }
        k += 1;
    }
    proof {
        assert(chars@.take(k as int) =~= chars@);
    }
    seen <= 1
}

/// A parser over the tokens of one input, with the position of the next
/// token to read.
pub struct Prs {
    toks: VecDeque<Tok>,
    idx: usize,
}

impl Prs {
    /// The tokens.
    pub closed spec fn tokens(&self) -> Seq<TokView> {
        views(self.toks@)
    }

    /// The position of the next token to read.
    pub closed spec fn cursor(&self) -> int {
        self.idx as int
    }

    /// The position is not behind the end of the tokens.
    pub closed spec fn wf(&self) -> bool {
        self.idx <= self.toks@.len()
    }

    /// A parser at the first token of `input`.
    pub fn new(input: &str) -> (p: Prs)
        ensures
            p.wf(),
            p.tokens() == lex_spec(input@),
            p.cursor() == 0,
    {
        Prs { toks: lex(input), idx: 0 }
    }

    /// The number of tokens.
    pub fn len(&self) -> (n: usize)
        ensures
            n == self.tokens().len(),
    {
        broadcast use vstd::std_specs::vecdeque::group_vec_dequeue_axioms;

        self.toks.len()
    }

    /// The position of the next token to read.
    pub fn pos(&self) -> (i: usize)
        ensures
            i == self.cursor(),
    {
        self.idx
    }

    /// The token at position `i`, if there is one.
    pub fn tok(&self, i: usize) -> (r: Option<&Tok>)
        ensures
            match r {
                Some(t) => i < self.tokens().len() && t@ == self.tokens()[i as int],
                None => i >= self.tokens().len(),
            },
    {
        broadcast use vstd::std_specs::vecdeque::group_vec_dequeue_axioms;

        if i < self.toks.len() {
            Some(&self.toks[i])
        } else {
            None
        }
    }

    /// The next token to read, if there is one.
    fn peek(&self) -> (r: Option<&Tok>)
        ensures
            match r {
                Some(t) => self.cursor() < self.tokens().len() && t@ == self.tokens()[self.cursor()],
                None => self.cursor() >= self.tokens().len(),
            },
    {
        self.tok(self.idx)
    }

    /// Reads the next token, if there is one.
    fn next(&mut self) -> (r: Option<Tok>)
        requires
            old(self).wf(),
        ensures
            final(self).wf(),
            final(self).toks@ == old(self).toks@,
            match r {
                Some(t) => {
                    &&& old(self).cursor() < old(self).tokens().len()
                    &&& t@ == old(self).tokens()[old(self).cursor()]
                    &&& final(self).cursor() == old(self).cursor() + 1
                },
                None => {
                    &&& old(self).cursor() >= old(self).tokens().len()
                    &&& final(self).cursor() == old(self).cursor()
                },
            },
    {
        broadcast use vstd::std_specs::vecdeque::group_vec_dequeue_axioms;

        if self.idx < self.toks.len() {
            let tok = self.toks[self.idx].clone();
            self.idx += 1;
            Some(tok)
        } else {
            None
        }
    }

    fn atom(&mut self, steps: &mut Vec<Step>) -> (r: Result<(), ParseError>)
        requires
            old(self).wf(),
        ensures
            final(self).wf(),
            final(self).toks@ == old(self).toks@,
            final(self).cursor() == atom_spec(old(self).tokens(), old(self).cursor()).next,
            final(steps)@ == old(steps)@ + atom_spec(old(self).tokens(), old(self).cursor()).steps,
            fault_of(r) == atom_spec(old(self).tokens(), old(self).cursor()).fault,
    {
        let at: usize = self.idx;
        let tok = match self.next() {
            Some(tok) => tok,
            None => {
                proof {
                    assert(steps@ + Seq::<Step>::empty() =~= steps@);
                }
                return Err(ParseError::UnexpectedEOF);
            },
        };
        proof {
            assert(old(steps)@ + Seq::<Step>::empty() =~= old(steps)@);
            assert(old(steps)@ + seq![Step::Num(at)] =~= old(steps)@.push(Step::Num(at)));
            assert(old(steps)@ + seq![Step::Var(at)] =~= old(steps)@.push(Step::Var(at)));
        }
        match tok.typ {
            TokType::Num => {
                if spells_number(tok.val.as_str()) {
                    steps.push(Step::Num(at));
                    Ok(())
                } else {
                    Err(
                        ParseError::InvalidToken(
                            String::from_str("invalid number: ").concat(tok.val.as_str()),
                        ),
                    )
                }
            },
            TokType::Id => {
                steps.push(Step::Var(at));
                Ok(())
            },
            _ => Err(
                ParseError::InvalidToken(
                    String::from_str("unexpected token: ").concat(tok.val.as_str()),
                ),
            ),
        }
    }

    /// Puts `n` powers behind the steps.
    fn push_pows(steps: &mut Vec<Step>, n: usize)
        ensures
            final(steps)@ == old(steps)@ + pows(n as nat),
    {
        let mut k: usize = 0;
        proof {
            assert(steps@ + pows(0) =~= steps@);
        }
        while k < n
            invariant
                k <= n,
                steps@ == old(steps)@ + pows(k as nat),
            decreases n - k,
        {
            steps.push(Step::Pow);
            k += 1;
            proof {
                assert((old(steps)@ + pows((k - 1) as nat)).push(Step::Pow) =~= old(steps)@ + pows(
                    k as nat,
                ));
            }
        }
    }

    fn factor(&mut self, steps: &mut Vec<Step>) -> (r: Result<(), ParseError>)
        requires
            old(self).wf(),
        ensures
            final(self).wf(),
            final(self).toks@ == old(self).toks@,
            final(self).cursor() == factor_spec(old(self).tokens(), old(self).cursor()).next,
            final(steps)@ == old(steps)@ + factor_spec(old(self).tokens(), old(self).cursor()).steps,
            fault_of(r) == factor_spec(old(self).tokens(), old(self).cursor()).fault,
    {
        let ghost toks = self.tokens();
        let ghost whole = factor_spec(toks, self.cursor());
        let mut pending: usize = 0;
        proof {
            assert(steps@ + whole.steps + pows_due(0, whole.fault) =~= steps@ + whole.steps);
        }
        loop
            invariant
                self.wf(),
                self.toks@ == old(self).toks@,
                toks == self.tokens(),
                toks == old(self).tokens(),
                whole == factor_spec(toks, old(self).cursor()),
                pending <= self.cursor(),
                factor_spec(toks, self.cursor()).fault == whole.fault,
                factor_spec(toks, self.cursor()).next == whole.next,
                steps@ + factor_spec(toks, self.cursor()).steps + pows_due(
                    pending as nat,
                    whole.fault,
                ) == old(steps)@ + whole.steps,
            decreases toks.len() - self.cursor(),
        {
            let ghost at = self.cursor();
            let ghost before = steps@;
            let ghost a = atom_spec(toks, at);
            match self.atom(steps) {
                Ok(_) => {},
                Err(e) => {
                    proof {
                        assert(before + a.steps + Seq::<Step>::empty() =~= before + a.steps);
                    }
                    return Err(e);
                },
            }
            let more = match self.peek() {
                Some(tok) => has_text(tok, '^'),
                None => false,
            };
            if !more {
                proof {
                    assert(pows_due(pending as nat, whole.fault) == pows(pending as nat));
                }
                Self::push_pows(steps, pending);
                return Ok(());
            }
            let _ = self.next();
            pending += 1;
            proof {
                let r = factor_spec(toks, at + 2);
                if r.fault is None {
                    assert(before + (a.steps + r.steps).push(Step::Pow) + pows((pending - 1) as nat)
                        =~= before + a.steps + r.steps + pows(pending as nat));
                } else {
                    assert(before + (a.steps + r.steps) + Seq::<Step>::empty() =~= before + a.steps
                        + r.steps + Seq::<Step>::empty());
                }
            }
        }
    }

    fn term(&mut self, steps: &mut Vec<Step>) -> (r: Result<(), ParseError>)
        requires
            old(self).wf(),
        ensures
            final(self).wf(),
            final(self).toks@ == old(self).toks@,
            final(self).cursor() == term_spec(old(self).tokens(), old(self).cursor()).next,
            final(steps)@ == old(steps)@ + term_spec(old(self).tokens(), old(self).cursor()).steps,
            fault_of(r) == term_spec(old(self).tokens(), old(self).cursor()).fault,
    {
        let ghost toks = self.tokens();
        let ghost whole = term_spec(toks, self.cursor());
        match self.factor(steps) {
            Ok(_) => {},
            Err(e) => {
                return Err(e);
            },
        }
        proof {
            let f = factor_spec(toks, old(self).cursor());
            let r = term_rest(toks, self.cursor());
            assert(old(steps)@ + (f.steps + r.steps) =~= old(steps)@ + f.steps + r.steps);
            lemma_factor_next(toks, old(self).cursor());
        }
        loop
            invariant
                self.wf(),
                self.toks@ == old(self).toks@,
                toks == self.tokens(),
                toks == old(self).tokens(),
                whole == term_spec(toks, old(self).cursor()),
                steps@ + term_rest(toks, self.cursor()).steps == old(steps)@ + whole.steps,
                term_rest(toks, self.cursor()).fault == whole.fault,
                term_rest(toks, self.cursor()).next == whole.next,
            decreases toks.len() - self.cursor(),
        {
            let op = match self.peek() {
                Some(tok) => {
                    if has_text(tok, '*') {
                        Step::Mul
                    } else if has_text(tok, '/') {
                        Step::Div
                    } else {
                        proof {
                            assert(steps@ + Seq::<Step>::empty() =~= steps@);
                        }
                        return Ok(());
                    }
                },
                None => {
                    proof {
                        assert(steps@ + Seq::<Step>::empty() =~= steps@);
                    }
                    return Ok(());
                },
            };
            let ghost at = self.cursor();
            let ghost before = steps@;
            let _ = self.next();
            proof {
                lemma_factor_next(toks, at + 1);
            }
            match self.factor(steps) {
                Ok(_) => {},
                Err(e) => {
                    return Err(e);
                },
            }
            steps.push(op);
            proof {
                let f = factor_spec(toks, at + 1);
                let r = term_rest(toks, f.next);
                assert(before + (f.steps.push(op) + r.steps) =~= (before + f.steps).push(op)
                    + r.steps);
            }
        }
    }

    fn expr(&mut self, steps: &mut Vec<Step>) -> (r: Result<(), ParseError>)
        requires
            old(self).wf(),
        ensures
            final(self).wf(),
            final(self).toks@ == old(self).toks@,
            final(self).cursor() == expr_spec(old(self).tokens(), old(self).cursor()).next,
            final(steps)@ == old(steps)@ + expr_spec(old(self).tokens(), old(self).cursor()).steps,
            fault_of(r) == expr_spec(old(self).tokens(), old(self).cursor()).fault,
    {
        let ghost toks = self.tokens();
        let ghost whole = expr_spec(toks, self.cursor());
        match self.term(steps) {
            Ok(_) => {},
            Err(e) => {
                return Err(e);
            },
        }
        proof {
            let t = term_spec(toks, old(self).cursor());
            let r = expr_rest(toks, self.cursor());
            assert(old(steps)@ + (t.steps + r.steps) =~= old(steps)@ + t.steps + r.steps);
        }
        loop
            invariant
                self.wf(),
                self.toks@ == old(self).toks@,
                toks == self.tokens(),
                toks == old(self).tokens(),
                whole == expr_spec(toks, old(self).cursor()),
                steps@ + expr_rest(toks, self.cursor()).steps == old(steps)@ + whole.steps,
                expr_rest(toks, self.cursor()).fault == whole.fault,
                expr_rest(toks, self.cursor()).next == whole.next,
            decreases toks.len() - self.cursor(),
        {
            let op = match self.peek() {
                Some(tok) => {
                    if has_text(tok, '+') {
                        Step::Add
                    } else if has_text(tok, '-') {
                        Step::Sub
                    } else {
                        proof {
                            assert(steps@ + Seq::<Step>::empty() =~= steps@);
                        }
                        return Ok(());
                    }
                },
                None => {
                    proof {
                        assert(steps@ + Seq::<Step>::empty() =~= steps@);
                    }
                    return Ok(());
                },
            };
            let ghost at = self.cursor();
            let ghost before = steps@;
            let _ = self.next();
            proof {
                lemma_term_next(toks, at + 1);
            }
            match self.term(steps) {
                Ok(_) => {},
                Err(e) => {
                    return Err(e);
                },
            }
            steps.push(op);
            proof {
                let t = term_spec(toks, at + 1);
                let r = expr_rest(toks, t.next);
                assert(before + (t.steps.push(op) + r.steps) =~= (before + t.steps).push(op)
                    + r.steps);
            }
        }
    }

    /// Parses one expression from the position of the parser on, and leaves
    /// the parser behind the last token read.
    pub fn parse(&mut self) -> (plan: Plan)
        requires
            old(self).wf(),
        ensures
            final(self).wf(),
            final(self).tokens() == old(self).tokens(),
            final(self).cursor() == expr_spec(old(self).tokens(), old(self).cursor()).next,
            plan.steps@ == expr_spec(old(self).tokens(), old(self).cursor()).steps,
            fault_view(plan.fault) == expr_spec(old(self).tokens(), old(self).cursor()).fault,
    {
        let mut steps: Vec<Step> = Vec::new();
        let r = self.expr(&mut steps);
        proof {
            let whole = expr_spec(old(self).tokens(), old(self).cursor());
            assert(Seq::<Step>::empty() + whole.steps =~= whole.steps);
        }
        match r {
            Ok(_) => Plan { steps, fault: None },
            Err(e) => Plan { steps, fault: Some(e) },
        }
    }
}

} // verus!

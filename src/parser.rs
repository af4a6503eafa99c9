use vstd::prelude::*;
use vstd::string::StrSliceExecFns;
use crate::scanner::{
    byte_offset, lemma_next_advances, lemma_scan_positions, lemma_scan_suffix, in_bytes, item,
    items_view, next_spec, run_end, space_char, CharClass, lemma_rescan_run, repositioned, run_stop, scan_spec, scan_stop,
    shifted, Scanner, TokItem, TokItemView, Token, TokenView,
};

verus! {

#[derive(Debug, PartialEq, Eq)]
pub enum ParseError {
    EOF,
    UnexpectedToken(TokItem),
}

pub enum ParseErrorView {
    EOF,
    UnexpectedToken(TokItemView),
}

impl View for ParseError {
    type V = ParseErrorView;

    open spec fn view(&self) -> ParseErrorView {
        match self {
            ParseError::EOF => ParseErrorView::EOF,
            ParseError::UnexpectedToken(t) => ParseErrorView::UnexpectedToken(t@),
        }
    }
}

/// A leaf of the syntax tree. A number keeps the decimal numeral it was
/// written as: digits with at most one point among them.
#[derive(Clone, Debug, PartialEq, Eq)]
pub enum Atom {
    Symbol(String),
    Number(String),
    String(String),
}

pub enum AtomView {
    Symbol(Seq<char>),
    Number(Seq<char>),
    Str(Seq<char>),
}

impl View for Atom {
    type V = AtomView;

    open spec fn view(&self) -> AtomView {
        match self {
            Atom::Symbol(s) => AtomView::Symbol(s@),
            Atom::Number(s) => AtomView::Number(s@),
            Atom::String(s) => AtomView::Str(s@),
        }
    }
}

impl Atom {
    pub fn duplicate(&self) -> (r: Atom)
        ensures
            r@ == self@,
    {
        match self {
            Atom::Symbol(s) => Atom::Symbol(s.clone()),
            Atom::Number(s) => Atom::Number(s.clone()),
            Atom::String(s) => Atom::String(s.clone()),
        }
    }
}

#[derive(Debug, PartialEq, Eq)]
pub enum Expr {
    Atom(Atom),
    List(Vec<Expr>),
}

/// A syntax tree as a mathematical value.
pub enum Sexp {
    Atom(AtomView),
    List(Seq<Sexp>),
}

pub open spec fn expr_view(e: Expr) -> Sexp
    decreases e,
{
    match e {
        Expr::Atom(a) => Sexp::Atom(a@),
        Expr::List(v) => Sexp::List(
            Seq::new(
                v.len() as nat,
                |k: int|
                    if 0 <= k < v.len() {
                        expr_view(v[k])
                    } else {
                        Sexp::List(Seq::empty())
                    },
            ),
        ),
    }
}

pub proof fn lemma_list_view(e: Expr)
    requires
        e is List,
    ensures
        e@ == Sexp::List(exprs_view(e->List_0@)),
{
    let v = e->List_0;
    let a = exprs_view(v@);
    let w = e@->List_0;
    assert(e@ is List);
    assert(w.len() == v.len());
    assert forall|k: int| 0 <= k < a.len() implies w[k] == a[k] by {
        assert(a[k] == v@[k]@);
        assert(w[k] == expr_view(v[k]));
    }
    assert(w =~= a);
}

impl View for Expr {
    type V = Sexp;

    open spec fn view(&self) -> Sexp {
        expr_view(*self)
    }
}

pub open spec fn exprs_view(v: Seq<Expr>) -> Seq<Sexp> {
    v.map_values(|e: Expr| e@)
}

pub open spec fn atom_result(r: Result<Atom, ParseError>) -> Result<AtomView, ParseErrorView> {
    match r {
        Ok(a) => Ok(a@),
        Err(e) => Err(e@),
    }
}

pub open spec fn expr_result(r: Result<Expr, ParseError>) -> Result<Sexp, ParseErrorView> {
    match r {
        Ok(e) => Ok(e@),
        Err(e) => Err(e@),
    }
}

/// A numeral holds at most one decimal point.
pub open spec fn numeral(s: Seq<char>) -> bool {
    forall|a: int, b: int| 0 <= a < b < s.len() ==> !(s[a] == '.' && s[b] == '.')
}

pub fn is_numeral(s: &str) -> (r: bool)
    ensures
        r == numeral(s@),
{
    let n = s.unicode_len();
    let mut seen_point = false;
    let mut i: usize = 0;
    while i < n
        invariant
            n == s@.len(),
            i <= n,
            seen_point == exists|a: int| 0 <= a < i && s@[a] == '.',
            forall|a: int, b: int| 0 <= a < b < i ==> !(s@[a] == '.' && s@[b] == '.'),
        decreases n - i,
    {
        if s.get_char(i) == '.' {
            if seen_point {
                return false;
            }
            seen_point = true;
        }
        i = i + 1;
    }
    true
}

/// The tokens of a sequence that are not whitespace, in order.
pub open spec fn significant(ts: Seq<TokItemView>) -> Seq<TokItemView>
    decreases ts.len(),
{
    if ts.len() == 0 {
        ts
    } else {
        let rest = significant(ts.drop_last());
        if ts.last().token is WhiteSpace {
            rest
        } else {
            rest.push(ts.last())
        }
    }
}

pub open spec fn match_spec(t: Seq<TokItemView>, i: int, tok: TokenView) -> (
    Result<(), ParseErrorView>,
    int,
) {
    if i < 0 || i >= t.len() {
        (Err(ParseErrorView::EOF), i)
    } else if t[i].token == tok {
        (Ok(()), i + 1)
    } else {
        (Err(ParseErrorView::UnexpectedToken(t[i])), i)
    }
}

/// The atom at index `i` of `t` and the index after it; on an error the
/// index stays `i`.
pub open spec fn atom_spec(t: Seq<TokItemView>, i: int) -> (Result<AtomView, ParseErrorView>, int) {
    if i < 0 || i >= t.len() {
        (Err(ParseErrorView::EOF), i)
    } else {
        match t[i].token {
            TokenView::Number(s) => if numeral(s) {
                (Ok(AtomView::Number(s)), i + 1)
            } else {
                (Err(ParseErrorView::UnexpectedToken(t[i])), i)
            },
            TokenView::Str(s) => (Ok(AtomView::Str(s)), i + 1),
            TokenView::Symbol(s) => (Ok(AtomView::Symbol(s)), i + 1),
            _ => (Err(ParseErrorView::UnexpectedToken(t[i])), i),
        }
    }
}

/// The list that opens at index `i` of `t`, and the index where parsing
/// stopped.
pub open spec fn list_spec(t: Seq<TokItemView>, i: int) -> (Result<Sexp, ParseErrorView>, int)
    decreases t.len() - i, 0int,
{
    if i < 0 || i >= t.len() {
        (Err(ParseErrorView::EOF), i)
    } else if t[i].token != TokenView::LParen {
        (Err(ParseErrorView::UnexpectedToken(t[i])), i)
    } else {
        let (es, k) = items_spec(t, i + 1);
        match match_spec(t, k, TokenView::RParen) {
            (Ok(_), j) => (Ok(Sexp::List(es)), j),
            (Err(e), j) => (Err(e), j),
        }
    }
}

/// The expressions parsed one after another from index `i` of `t` until one
/// fails, and the index where that failure left the cursor.
pub open spec fn items_spec(t: Seq<TokItemView>, i: int) -> (Seq<Sexp>, int)
    decreases t.len() - i, 2int,
{
    let (r, j) = expr_spec(t, i);
    match r {
        Ok(e) => if i < j <= t.len() {
            let (rest, k) = items_spec(t, j);
            (seq![e] + rest, k)
        } else {
            (seq![], j)
        },
        Err(_) => (seq![], j),
    }
}

/// An atom at index `i` of `t`, or else a list there.
pub open spec fn expr_spec(t: Seq<TokItemView>, i: int) -> (Result<Sexp, ParseErrorView>, int)
    decreases t.len() - i, 1int,
{
    let (a, j) = atom_spec(t, i);
    match a {
        Ok(atom) => (Ok(Sexp::Atom(atom)), j),
        Err(_) => list_spec(t, i),
    }
}

/// A recursive-descent parser over the significant tokens of one line.
pub struct Parser {
    tokens: Vec<TokItem>,
    current_pos: usize,
}

impl Parser {
    /// The tokens being parsed.
    pub closed spec fn toks(&self) -> Seq<TokItemView> {
        items_view(self.tokens@)
    }

    /// The index of the next token to be parsed.
    pub closed spec fn cursor(&self) -> int {
        self.current_pos as int
    }

    pub closed spec fn wf(&self) -> bool {
        self.toks().len() == self.tokens.len()
    }

    /// The cursor is never negative; it may stand past the last token.
    pub proof fn lemma_cursor_bounds(&self)
        ensures
            0 <= self.cursor(),
    {
    }

    /// Scans the rest of the scanner's line and keeps the tokens that are
    /// not whitespace.
    pub fn new(scanner: &mut Scanner) -> (r: Parser)
        requires
            old(scanner).wf(),
        ensures
            final(scanner).wf(),
            final(scanner).line() == old(scanner).line(),
            final(scanner).cursor() == scan_stop(old(scanner).line(), old(scanner).cursor()),
            r.wf(),
            r.cursor() == 0,
            r.toks() == significant(
                in_bytes(old(scanner).line(), scan_spec(old(scanner).line(), old(scanner).cursor())),
            ),
    {
        let all = scanner.scan_all();
        let mut tokens: Vec<TokItem> = Vec::new();
        let mut i: usize = 0;
        while i < all.len()
            invariant
                i <= all.len(),
                items_view(tokens@) == significant(items_view(all@).subrange(0, i as int)),
            decreases all.len() - i,
        {
            proof {
                let s = items_view(all@).subrange(0, i + 1);
                assert(s.drop_last() =~= items_view(all@).subrange(0, i as int));
            }
            match &all[i].token {
                Token::WhiteSpace(_) => {},
                _ => {
                    tokens.push(all[i].duplicate());
                    proof {
                        assert(items_view(tokens@) =~= items_view(tokens@).drop_last().push(
                            all[i as int]@,
                        ));
                    }
                },
            }
            i = i + 1;
        }
        proof {
            assert(items_view(all@).subrange(0, all.len() as int) =~= items_view(all@));
        }
        let p = Parser { tokens, current_pos: 0 };
        assert(p.toks().len() == p.tokens.len());
        p
    }

    pub fn get_token(&self) -> (r: Result<&TokItem, ParseError>)
        requires
            self.wf(),
        ensures
            match r {
                Ok(t) => self.cursor() < self.toks().len() && t@ == self.toks()[self.cursor()],
                Err(e) => self.cursor() >= self.toks().len() && e@ == ParseErrorView::EOF,
            },
    {
        if self.current_pos < self.tokens.len() {
            Ok(&self.tokens[self.current_pos])
        } else {
            Err(ParseError::EOF)
        }
    }

    pub fn at_eof(&self) -> (r: bool)
        ensures
            r == (self.cursor() >= self.toks().len()),
    {
        self.current_pos >= self.tokens.len()
    }

    /// Moves the cursor one token on, also from the end of the tokens or
    /// past it.
    pub fn advance(&mut self)
        requires
            old(self).wf(),
            old(self).cursor() < usize::MAX,
        ensures
            final(self).wf(),
            final(self).toks() == old(self).toks(),
            final(self).cursor() == old(self).cursor() + 1,
    {
        self.current_pos = self.current_pos + 1;
    }

    /// Consumes the token at the cursor where it is `tok`.
    pub fn match_token(&mut self, tok: &Token) -> (r: Result<(), ParseError>)
        requires
            old(self).wf(),
        ensures
            final(self).wf(),
            final(self).toks() == old(self).toks(),
            (match r {
                Ok(u) => Ok::<(), ParseErrorView>(u),
                Err(e) => Err(e@),
            }, final(self).cursor()) == match_spec(old(self).toks(), old(self).cursor(), tok@),
    {
        let t = match self.get_token() {
            Ok(t) => t,
            Err(e) => {
                return Err(e);
            },
        };
        if t.token.same_as(tok) {
            self.advance();
            Ok(())
        } else {
            Err(ParseError::UnexpectedToken(t.duplicate()))
        }
    }

    pub fn parse_atom(&mut self) -> (r: Result<Atom, ParseError>)
        requires
            old(self).wf(),
        ensures
            final(self).wf(),
            final(self).toks() == old(self).toks(),
            (atom_result(r), final(self).cursor()) == atom_spec(
                old(self).toks(),
                old(self).cursor(),
            ),
    {
        if self.at_eof() {
            return Err(ParseError::EOF);
        }
        let tok = match self.get_token() {
            Ok(t) => t,
            Err(e) => {
                return Err(e);
            },
        };
        let result = match &tok.token {
            Token::Number(n) => {
                if is_numeral(n.as_str()) {
                    Ok(Atom::Number(n.clone()))
                } else {
                    Err(ParseError::UnexpectedToken(tok.duplicate()))
                }
            },
            Token::String(s) => Ok(Atom::String(s.clone())),
            Token::Symbol(s) => Ok(Atom::Symbol(s.clone())),
            _ => Err(ParseError::UnexpectedToken(tok.duplicate())),
        };
        if result.is_ok() {
            self.advance();
        }
        result
    }

    pub fn parse_list(&mut self) -> (r: Result<Expr, ParseError>)
        requires
            old(self).wf(),
        ensures
            final(self).wf(),
            final(self).toks() == old(self).toks(),
            (expr_result(r), final(self).cursor()) == list_spec(
                old(self).toks(),
                old(self).cursor(),
            ),
            old(self).cursor() <= final(self).cursor(),
            old(self).cursor() <= old(self).toks().len() ==> final(self).cursor()
                <= final(self).toks().len(),
            r is Ok ==> old(self).cursor() < final(self).cursor(),
        decreases old(self).toks().len() - old(self).cursor(), 0int,
    {
        if self.at_eof() {
            return Err(ParseError::EOF);
        }
        match self.match_token(&Token::LParen) {
            Ok(()) => {},
            Err(e) => {
                return Err(e);
            },
        }
        let ghost t = self.toks();
        let ghost first = self.cursor();
        let mut list: Vec<Expr> = Vec::new();
        loop
            invariant_except_break
                items_spec(t, first) == (
                    exprs_view(list@) + items_spec(t, self.cursor()).0,
                    items_spec(t, self.cursor()).1,
                ),
            invariant
                self.wf(),
                self.toks() == t,
                t == old(self).toks(),
                first <= self.cursor() <= t.len(),
                first == old(self).cursor() + 1,
            ensures
                items_spec(t, first) == (exprs_view(list@), self.cursor()),
            decreases t.len() - self.cursor(),
        {
            let ghost before = list@;
            let ghost i = self.cursor();
            match self.parse_expr() {
                Ok(e) => {
                    list.push(e);
                    proof {
                        assert(exprs_view(list@) =~= exprs_view(before) + seq![e@]);
                        let rest = items_spec(t, self.cursor()).0;
                        assert(exprs_view(before) + (seq![e@] + rest) =~= exprs_view(list@)
                            + rest);
                    }
                },
                Err(_) => {
                    proof {
                        assert(exprs_view(list@) + items_spec(t, i).0 =~= exprs_view(list@));
                    }
                    break ;
                },
            }
        }
        match self.match_token(&Token::RParen) {
            Ok(()) => {
                let e = Expr::List(list);
                proof {
                    lemma_list_view(e);
                }
                Ok(e)
            },
            Err(e) => Err(e),
        }
    }

    pub fn parse_expr(&mut self) -> (r: Result<Expr, ParseError>)
        requires
            old(self).wf(),
        ensures
            final(self).wf(),
            final(self).toks() == old(self).toks(),
            (expr_result(r), final(self).cursor()) == expr_spec(
                old(self).toks(),
                old(self).cursor(),
            ),
            old(self).cursor() <= final(self).cursor(),
            old(self).cursor() <= old(self).toks().len() ==> final(self).cursor()
                <= final(self).toks().len(),
            r is Ok ==> old(self).cursor() < final(self).cursor(),
        decreases old(self).toks().len() - old(self).cursor(), 1int,
    {
        match self.parse_atom() {
            Ok(atom) => Ok(Expr::Atom(atom)),
            Err(_) => self.parse_list(),
        }
    }
}

/// Where parsing stops, relative to where it starts.
pub proof fn lemma_expr_bounds(t: Seq<TokItemView>, i: int)
    requires
        0 <= i <= t.len(),
    ensures
        i <= expr_spec(t, i).1 <= t.len(),
        expr_spec(t, i).0 is Ok ==> i < expr_spec(t, i).1,
    decreases t.len() - i, 1int,
{
    lemma_list_bounds(t, i);
}

pub proof fn lemma_list_bounds(t: Seq<TokItemView>, i: int)
    requires
        0 <= i <= t.len(),
    ensures
        i <= list_spec(t, i).1 <= t.len(),
        list_spec(t, i).0 is Ok ==> i < list_spec(t, i).1,
    decreases t.len() - i, 0int,
{
    if i < t.len() && t[i].token == TokenView::LParen {
        lemma_items_bounds(t, i + 1);
    }
}

pub proof fn lemma_items_bounds(t: Seq<TokItemView>, i: int)
    requires
        0 <= i <= t.len(),
    ensures
        i <= items_spec(t, i).1 <= t.len(),
    decreases t.len() - i, 2int,
{
    lemma_expr_bounds(t, i);
    let (r, j) = expr_spec(t, i);
    if r is Ok && i < j <= t.len() {
        lemma_items_bounds(t, j);
    }
}

/// A failed expression leaves the cursor where it started, at the end of
/// the tokens, or on a token other than a closing parenthesis.
pub proof fn lemma_expr_failure_stop(t: Seq<TokItemView>, i: int)
    requires
        0 <= i <= t.len(),
        expr_spec(t, i).0 is Err,
    ensures
        ({
            let k = expr_spec(t, i).1;
            k == i || k >= t.len() || t[k].token != TokenView::RParen
        }),
{
    if i < t.len() && t[i].token == TokenView::LParen {
        lemma_items_bounds(t, i + 1);
    }
}

/// `u` holds, from index `lo - off` to `hi - off`, the tokens that `t` holds
/// from `lo` to `hi`, whatever their positions.
pub open spec fn same_tokens(
    u: Seq<TokItemView>,
    t: Seq<TokItemView>,
    off: int,
    lo: int,
    hi: int,
) -> bool {
    &&& 0 <= lo - off
    &&& 0 <= lo <= hi <= t.len()
    &&& hi - off <= u.len()
    &&& forall|k: int| lo <= k < hi ==> #[trigger] u[k - off].token == t[k].token
}

proof fn lemma_same_tokens_narrow(
    u: Seq<TokItemView>,
    t: Seq<TokItemView>,
    off: int,
    lo: int,
    hi: int,
    lo2: int,
    hi2: int,
)
    requires
        same_tokens(u, t, off, lo, hi),
        lo <= lo2 <= hi2 <= hi,
    ensures
        same_tokens(u, t, off, lo2, hi2),
{
    assert forall|k: int| lo2 <= k < hi2 implies #[trigger] u[k - off].token == t[k].token by {
        assert(lo <= k < hi);
    }
}

proof fn lemma_expr_local(t: Seq<TokItemView>, u: Seq<TokItemView>, off: int, i: int)
    requires
        0 <= i <= t.len(),
        expr_spec(t, i).0 is Ok,
        same_tokens(u, t, off, i, expr_spec(t, i).1),
    ensures
        expr_spec(u, i - off) == (expr_spec(t, i).0, expr_spec(t, i).1 - off),
    decreases t.len() - i, 1int,
{
    lemma_expr_bounds(t, i);
    assert(u[i - off].token == t[i].token);
    if atom_spec(t, i).0 is Err {
        lemma_list_local(t, u, off, i);
    }
}

proof fn lemma_list_local(t: Seq<TokItemView>, u: Seq<TokItemView>, off: int, i: int)
    requires
        0 <= i <= t.len(),
        list_spec(t, i).0 is Ok,
        same_tokens(u, t, off, i, list_spec(t, i).1),
    ensures
        list_spec(u, i - off) == (list_spec(t, i).0, list_spec(t, i).1 - off),
    decreases t.len() - i, 0int,
{
    lemma_list_bounds(t, i);
    assert(u[i - off].token == t[i].token);
    lemma_items_bounds(t, i + 1);
    let k = items_spec(t, i + 1).1;
    assert(u[k - off].token == t[k].token);
    lemma_same_tokens_narrow(u, t, off, i, k + 1, i + 1, k + 1);
    lemma_items_local(t, u, off, i + 1, k);
}

proof fn lemma_items_local(t: Seq<TokItemView>, u: Seq<TokItemView>, off: int, i: int, k: int)
    requires
        0 <= i <= k < t.len(),
        items_spec(t, i).1 == k,
        t[k].token == TokenView::RParen,
        same_tokens(u, t, off, i, k + 1),
    ensures
        items_spec(u, i - off) == (items_spec(t, i).0, k - off),
    decreases t.len() - i, 2int,
{
    lemma_expr_bounds(t, i);
    let (r, j) = expr_spec(t, i);
    match r {
        Ok(e) => {
            lemma_items_bounds(t, j);
            lemma_same_tokens_narrow(u, t, off, i, k + 1, i, j);
            lemma_expr_local(t, u, off, i);
            lemma_same_tokens_narrow(u, t, off, i, k + 1, j, k + 1);
            lemma_items_local(t, u, off, j, k);
            assert(j <= k);
            assert(expr_spec(u, i - off) == (r, j - off));
            let (rest, k2) = items_spec(t, j);
            assert(items_spec(t, i) == (seq![e] + rest, k2));
            assert(items_spec(u, j - off) == (rest, k - off));
            assert(items_spec(u, i - off) == (seq![e] + rest, k - off));
        },
        Err(_) => {
            lemma_expr_failure_stop(t, i);
            assert(k == i);
            assert(u[i - off].token == t[i].token);
            assert(atom_spec(u, i - off).0 is Err);
            assert(list_spec(u, i - off).1 == i - off);
            assert(expr_spec(u, i - off).0 is Err);
            assert(items_spec(u, i - off) == (Seq::<Sexp>::empty(), i - off));
            assert(items_spec(t, i).0 =~= Seq::<Sexp>::empty());
        },
    }
}

/// Parsing is local to the tokens a list covers: when a list parses from
/// index `i` of `t` to index `j`, the tokens from `i` to `j` alone, taken
/// anywhere and at any positions, parse to the same tree and cover all of
/// themselves.
pub proof fn lemma_reparse_list(t: Seq<TokItemView>, i: int, u: Seq<TokItemView>)
    requires
        0 <= i <= t.len(),
        list_spec(t, i).0 is Ok,
        u.len() == list_spec(t, i).1 - i,
        forall|k: int| 0 <= k < u.len() ==> #[trigger] u[k].token == t[i + k].token,
    ensures
        list_spec(u, 0) == (list_spec(t, i).0, u.len() as int),
{
    lemma_list_bounds(t, i);
    let j = list_spec(t, i).1;
    assert forall|k: int| i <= k < j implies #[trigger] u[k - i].token == t[k].token by {
        assert(u[k - i].token == t[i + (k - i)].token);
    }
    lemma_list_local(t, u, i, i);
}

/// Moving the positions of tokens does not change which of them are kept.
pub proof fn lemma_significant_repositioned(ts: Seq<TokItemView>, f: spec_fn(int) -> int)
    ensures
        significant(repositioned(ts, f)) == repositioned(significant(ts), f),
    decreases ts.len(),
{
    if ts.len() > 0 {
        assert(repositioned(ts, f).drop_last() =~= repositioned(ts.drop_last(), f));
        lemma_significant_repositioned(ts.drop_last(), f);
        let rest = significant(ts.drop_last());
        assert(repositioned(rest.push(ts.last()), f) =~= repositioned(rest, f).push(
            repositioned(ts, f).last(),
        ));
    }
}

/// Dropping whitespace from two runs of tokens one after the other drops it
/// from each.
pub proof fn lemma_significant_concat(x: Seq<TokItemView>, y: Seq<TokItemView>)
    ensures
        significant(x + y) == significant(x) + significant(y),
    decreases y.len(),
{
    if y.len() == 0 {
        assert(x + y =~= x);
        assert(significant(x) + significant(y) =~= significant(x));
    } else {
        assert((x + y).drop_last() =~= x + y.drop_last());
        lemma_significant_concat(x, y.drop_last());
        let sy = significant(y.drop_last());
        assert(significant(x) + sy.push(y.last()) =~= (significant(x) + sy).push(y.last()));
    }
}

/// Re-serialisation keeps the tree. Let `ts` be the tokens scanned from a
/// line, with character indices as positions, and `sig` the tokens a parser
/// of the line holds. Say `sig` parses to a list from index `i` to index
/// `j`, and `ts[a..b]` is a run of tokens that `i` significant tokens precede
/// and `j` significant tokens precede its end: the run holds the list's
/// tokens, with whitespace round them or among them. Then the characters of
/// the line that the run spans, scanned and parsed again on their own, give
/// the same tree, and the tree covers all their significant tokens.
pub proof fn lemma_reparse_span(s: Seq<char>, i: int, a: int, b: int)
    requires
        0 <= a < b <= scan_spec(s, 0).len(),
        0 <= i <= significant(in_bytes(s, scan_spec(s, 0))).len(),
        list_spec(significant(in_bytes(s, scan_spec(s, 0))), i).0 is Ok,
        significant(scan_spec(s, 0).subrange(0, a)).len() == i,
        significant(scan_spec(s, 0).subrange(0, b)).len() == list_spec(
            significant(in_bytes(s, scan_spec(s, 0))),
            i,
        ).1,
    ensures
        ({
            let ts = scan_spec(s, 0);
            let sig = significant(in_bytes(s, ts));
            let w = s.subrange(ts[a].position, run_stop(s, 0, b));
            list_spec(significant(in_bytes(w, scan_spec(w, 0))), 0) == (
                list_spec(sig, i).0,
                list_spec(sig, i).1 - i,
            )
        }),
{
    let ts = scan_spec(s, 0);
    let raw = significant(ts);
    let sig = significant(in_bytes(s, ts));
    lemma_significant_repositioned(ts, |x: int| crate::scanner::byte_offset(s, x));
    let j = list_spec(sig, i).1;
    let p = ts[a].position;
    let run = significant(ts.subrange(a, b));
    lemma_list_bounds(sig, i);
    assert(ts.subrange(0, b) =~= ts.subrange(0, a) + ts.subrange(a, b));
    lemma_significant_concat(ts.subrange(0, a), ts.subrange(a, b));
    assert(ts =~= ts.subrange(0, b) + ts.subrange(b, ts.len() as int));
    lemma_significant_concat(ts.subrange(0, b), ts.subrange(b, ts.len() as int));
    let front = significant(ts.subrange(0, a));
    assert(run.len() == j - i);
    assert forall|k: int| 0 <= k < run.len() implies #[trigger] run[k].token == sig[i
        + k].token by {
        assert(significant(ts.subrange(0, b)) == front + run);
        assert((front + run)[i + k] == run[k]);
        assert(raw[i + k] == significant(ts.subrange(0, b))[i + k]);
        assert(sig[i + k].token == raw[i + k].token);
    }
    lemma_rescan_run(s, a, b);
    let w = s.subrange(p, run_stop(s, 0, b));
    lemma_significant_repositioned(ts.subrange(a, b), |x: int| x - p);
    let ws = scan_spec(w, 0);
    lemma_significant_repositioned(ws, |x: int| crate::scanner::byte_offset(w, x));
    let u = significant(in_bytes(w, ws));
    assert(u.len() == run.len());
    assert forall|k: int| 0 <= k < u.len() implies #[trigger] u[k].token == sig[i + k].token by {
        assert(u[k].token == significant(ws)[k].token);
        assert(significant(ws)[k].token == run[k].token);
    }
    lemma_reparse_list(sig, i, u);
}

proof fn lemma_space_run(s: Seq<char>, i: int, e: int)
    requires
        0 <= i <= e < s.len(),
        forall|k: int| i <= k < e ==> space_char(#[trigger] s[k]),
        !space_char(s[e]),
    ensures
        run_end(s, i, CharClass::Space) == e,
    decreases e - i,
{
    if i < e {
        lemma_space_run(s, i + 1, e);
    }
}

/// A pair of parentheses with only whitespace between them scans to the two
/// parentheses round that whitespace, and parses to the empty list, which
/// covers both parentheses.
pub proof fn lemma_empty_parens(w: Seq<char>)
    requires
        forall|k: int| 0 <= k < w.len() ==> space_char(#[trigger] w[k]),
    ensures
        ({
            let s = seq!['('] + w + seq![')'];
            let sig = significant(in_bytes(s, scan_spec(s, 0)));
            &&& sig.len() == 2
            &&& list_spec(sig, 0) == (
                Ok::<Sexp, ParseErrorView>(Sexp::List(Seq::empty())),
                2int,
            )
        }),
{
    let s = seq!['('] + w + seq![')'];
    let e: int = w.len() as int + 1;
    assert(s.len() == e + 1);
    assert(s[0] == '(');
    assert(s[e] == ')');
    assert forall|k: int| 1 <= k < e implies space_char(#[trigger] s[k]) by {
        assert(s[k] == w[k - 1]);
    }
    let lp = item(TokenView::LParen, 0);
    let rp = item(TokenView::RParen, e);
    assert(scan_spec(s, e + 1) == Seq::<TokItemView>::empty());
    assert(next_spec(s, e) == (Ok::<TokItemView, crate::scanner::ScanError>(rp), e + 1));
    assert(scan_spec(s, e) == seq![rp] + Seq::<TokItemView>::empty());
    let ts: Seq<TokItemView>;
    if w.len() > 0 {
        lemma_space_run(s, 1, e);
        let sp = item(TokenView::WhiteSpace(s.subrange(1, e)), 1);
        assert(s[1] != '\'' && s[1] != '"' && s[1] != '(' && s[1] != ')');
        assert(next_spec(s, 1) == (Ok::<TokItemView, crate::scanner::ScanError>(sp), e));
        assert(scan_spec(s, 1) == seq![sp] + scan_spec(s, e));
        assert(scan_spec(s, 0) == seq![lp] + scan_spec(s, 1));
        ts = seq![lp, sp, rp];
        assert(scan_spec(s, 0) =~= ts);
    } else {
        assert(scan_spec(s, 0) == seq![lp] + scan_spec(s, 1));
        ts = seq![lp, rp];
        assert(scan_spec(s, 0) =~= ts);
    }
    let f = |x: int| crate::scanner::byte_offset(s, x);
    lemma_significant_repositioned(ts, f);
    let bs = significant(ts);
    if w.len() > 0 {
        assert(ts.drop_last() =~= seq![lp, item(TokenView::WhiteSpace(s.subrange(1, e)), 1)]);
        assert(ts.drop_last().drop_last() =~= seq![lp]);
        assert(seq![lp].drop_last() =~= Seq::<TokItemView>::empty());
        let none = Seq::<TokItemView>::empty();
        assert(significant(none) == none);
        assert(seq![lp].last() == lp);
        assert(significant(seq![lp]) == none.push(lp));
        assert(none.push(lp) =~= seq![lp]);
        assert(significant(ts.drop_last().drop_last()) =~= seq![lp]);
        assert(significant(ts.drop_last()) =~= seq![lp]);
        assert(bs =~= seq![lp, rp]);
    } else {
        assert(ts.drop_last() =~= seq![lp]);
        assert(seq![lp].drop_last() =~= Seq::<TokItemView>::empty());
        let none = Seq::<TokItemView>::empty();
        assert(significant(none) == none);
        assert(seq![lp].last() == lp);
        assert(significant(seq![lp]) == none.push(lp));
        assert(none.push(lp) =~= seq![lp]);
        assert(bs =~= seq![lp, rp]);
    }
    let sig = significant(in_bytes(s, ts));
    assert(sig == repositioned(bs, f));
    assert(sig.len() == 2);
    assert(sig[0].token == TokenView::LParen);
    assert(sig[1].token == TokenView::RParen);
    assert(atom_spec(sig, 1).0 is Err);
    assert(list_spec(sig, 1).0 is Err && list_spec(sig, 1).1 == 1);
    assert(expr_spec(sig, 1).1 == 1);
    assert(items_spec(sig, 1) == (Seq::<Sexp>::empty(), 1int));
}

/// Each kept token stands in the sequence after exactly as many kept tokens
/// as its index among them.
pub proof fn lemma_significant_index(ts: Seq<TokItemView>, m: int)
    requires
        0 <= m < significant(ts).len(),
    ensures
        exists|c: int|
            0 <= c < ts.len() && ts[c] == significant(ts)[m] && !(ts[c].token is WhiteSpace)
                && #[trigger] significant(ts.subrange(0, c)).len() == m,
    decreases ts.len(),
{
    let rest = significant(ts.drop_last());
    if m < rest.len() {
        lemma_significant_index(ts.drop_last(), m);
        let c = choose|c: int|
            0 <= c < ts.drop_last().len() && ts.drop_last()[c] == rest[m] && !(
            ts.drop_last()[c].token is WhiteSpace) && #[trigger] significant(
                ts.drop_last().subrange(0, c),
            ).len() == m;
        assert(ts.drop_last().subrange(0, c) =~= ts.subrange(0, c));
        assert(significant(ts.subrange(0, c)).len() == m);
    } else {
        let c = ts.len() - 1;
        assert(ts.drop_last() =~= ts.subrange(0, c));
        assert(significant(ts.subrange(0, c)).len() == m);
    }
}

/// The list's tokens, re-scanned from the characters they were read from.
/// When the tokens a parser holds for a line parse to a list from index `i`
/// to index `j`, the characters of the line from its opening parenthesis,
/// at byte offset `sig[i].position`, through its closing one, at byte offset
/// `sig[j - 1].position`, scan and parse on their own to the same tree, which
/// covers all their significant tokens.
pub proof fn lemma_reparse_list_text(s: Seq<char>, i: int)
    requires
        0 <= i <= significant(in_bytes(s, scan_spec(s, 0))).len(),
        list_spec(significant(in_bytes(s, scan_spec(s, 0))), i).0 is Ok,
    ensures
        ({
            let sig = significant(in_bytes(s, scan_spec(s, 0)));
            let j = list_spec(sig, i).1;
            exists|lo: int, hi: int|
                0 <= lo < hi <= s.len() && byte_offset(s, lo) == sig[i].position
                    && byte_offset(s, hi - 1) == sig[j - 1].position && s[lo] == '(' && s[hi
                    - 1] == ')' && #[trigger] list_spec(
                    significant(in_bytes(s.subrange(lo, hi), scan_spec(s.subrange(lo, hi), 0))),
                    0,
                ) == (list_spec(sig, i).0, j - i)
        }),
{
    let ts = scan_spec(s, 0);
    let raw = significant(ts);
    let sig = significant(in_bytes(s, ts));
    let f = |x: int| byte_offset(s, x);
    lemma_significant_repositioned(ts, f);
    lemma_list_bounds(sig, i);
    let j = list_spec(sig, i).1;
    let k = items_spec(sig, i + 1).1;
    lemma_items_bounds(sig, i + 1);
    assert(j == k + 1);
    assert(sig[i].token == TokenView::LParen);
    assert(sig[j - 1].token == TokenView::RParen);
    lemma_significant_index(ts, i);
    let a = choose|c: int|
        0 <= c < ts.len() && ts[c] == raw[i] && !(ts[c].token is WhiteSpace) && #[trigger] significant(
            ts.subrange(0, c),
        ).len() == i;
    lemma_significant_index(ts, j - 1);
    let c = choose|c: int|
        0 <= c < ts.len() && ts[c] == raw[j - 1] && !(ts[c].token is WhiteSpace) && #[trigger] significant(
            ts.subrange(0, c),
        ).len() == j - 1;
    let b = c + 1;
    assert(ts.subrange(0, b).drop_last() =~= ts.subrange(0, c));
    assert(significant(ts.subrange(0, b)).len() == j);
    if b <= a {
        // the prefix up to b would hold no more kept tokens than the one up to a
        lemma_significant_prefix_mono(ts, b, a);
    }
    lemma_reparse_span(s, i, a, b);
    // where the run ends: just past the closing parenthesis
    lemma_scan_positions(s, 0);
    let pc = ts[c].position;
    lemma_scan_suffix(s, 0, c);
    lemma_next_advances(s, pc);
    lemma_scan_positions(s, pc + 1);
    assert(ts[c].token == TokenView::RParen);
    assert(scan_spec(s, pc)[0] == ts[c]);
    lemma_paren_token(s, pc);
    let rest = scan_spec(s, pc + 1);
    assert(scan_spec(s, pc) == seq![ts[c]] + rest);
    if b < ts.len() {
        assert(ts.subrange(c, ts.len() as int)[1] == ts[b]);
        assert(rest[0] == ts[b]);
    }
    assert(run_stop(s, 0, b) == pc + 1);
    lemma_scan_positions(s, ts[a].position);
    lemma_scan_suffix(s, 0, a);
    assert(scan_spec(s, ts[a].position)[0] == ts[a]);
    assert(scan_spec(s, ts[a].position)[c - a] == ts[c]);
    lemma_paren_token(s, ts[a].position);
    let lo = ts[a].position;
    let hi = pc + 1;
    assert(byte_offset(s, lo) == sig[i].position);
    assert(byte_offset(s, hi - 1) == sig[j - 1].position);
    assert(list_spec(
        significant(in_bytes(s.subrange(lo, hi), scan_spec(s.subrange(lo, hi), 0))),
        0,
    ) == (list_spec(sig, i).0, j - i));
}

proof fn lemma_paren_token(s: Seq<char>, i: int)
    requires
        0 <= i <= s.len(),
        scan_spec(s, i).len() > 0,
    ensures
        scan_spec(s, i)[0].token == TokenView::LParen ==> s[i] == '(' && next_spec(s, i).1 == i
            + 1,
        scan_spec(s, i)[0].token == TokenView::RParen ==> s[i] == ')' && next_spec(s, i).1 == i
            + 1,
{
    lemma_next_advances(s, i);
    assert(next_spec(s, i).0 is Ok);
    assert(scan_spec(s, i)[0] == next_spec(s, i).0->Ok_0);
}

proof fn lemma_significant_prefix_mono(ts: Seq<TokItemView>, x: int, y: int)
    requires
        0 <= x <= y <= ts.len(),
    ensures
        significant(ts.subrange(0, x)).len() <= significant(ts.subrange(0, y)).len(),
    decreases y - x,
{
    if x < y {
        lemma_significant_prefix_mono(ts, x, y - 1);
        assert(ts.subrange(0, y).drop_last() =~= ts.subrange(0, y - 1));
    }
}

} // verus!

use vstd::prelude::*;
use vstd::string::StrSliceExecFns;

verus! {

/// Unicode's Alphabetic property of a character.
pub uninterp spec fn alphabetic(c: char) -> bool;

/// Relies on `char::is_alphabetic`: whether the character has Unicode's
/// Alphabetic property, which depends on the character alone.
#[verifier::external_body]
fn is_alphabetic(c: char) -> (r: bool)
    ensures
        r == alphabetic(c),
{
    c.is_alphabetic()
}

/// Unicode's White_Space property: the characters U+0009 to U+000D, U+0020,
/// U+0085, U+00A0, U+1680, U+2000 to U+200A, U+2028, U+2029, U+202F, U+205F
/// and U+3000.
pub open spec fn space_char(c: char) -> bool {
    let v = c as u32;
    (0x9 <= v <= 0xd) || v == 0x20 || v == 0x85 || v == 0xa0 || v == 0x1680 || (0x2000 <= v
        <= 0x200a) || v == 0x2028 || v == 0x2029 || v == 0x202f || v == 0x205f || v == 0x3000
}

pub open spec fn digit_char(c: char) -> bool {
    '0' <= c <= '9'
}

/// The punctuation that may stand in a symbol besides letters.
pub open spec fn symbol_punct(c: char) -> bool {
    c == '-' || c == '_' || c == '@' || c == '#' || c == '$' || c == '+' || c == '=' || c == '*'
        || c == '&' || c == '^' || c == '%' || c == '!'
}

pub open spec fn identifier_char(c: char) -> bool {
    alphabetic(c) || symbol_punct(c)
}

fn is_whitespace(c: char) -> (r: bool)
    ensures
        r == space_char(c),
{
    let v = c as u32;
    (0x9 <= v && v <= 0xd) || v == 0x20 || v == 0x85 || v == 0xa0 || v == 0x1680 || (0x2000 <= v
        && v <= 0x200a) || v == 0x2028 || v == 0x2029 || v == 0x202f || v == 0x205f || v == 0x3000
}

fn is_digit(c: char) -> (r: bool)
    ensures
        r == digit_char(c),
{
    '0' <= c && c <= '9'
}

pub fn is_identifier(c: char) -> (r: bool)
    ensures
        r == identifier_char(c),
{
    is_alphabetic(c) || c == '-' || c == '_' || c == '@' || c == '#' || c == '$' || c == '+' || c
        == '=' || c == '*' || c == '&' || c == '^' || c == '%' || c == '!'
}

/// The classes of characters that a token made of a run of characters is
/// drawn from.
#[derive(Clone, Copy, Debug, PartialEq, Eq, Structural)]
pub enum CharClass {
    Space,
    Numeral,
    Identifier,
    InString,
}

impl CharClass {
    pub open spec fn admits(self, c: char) -> bool {
        match self {
            CharClass::Space => space_char(c),
            CharClass::Numeral => digit_char(c) || c == '.',
            CharClass::Identifier => identifier_char(c),
            CharClass::InString => c != '"',
        }
    }

    fn contains(self, c: char) -> (r: bool)
        ensures
            r == self.admits(c),
    {
        match self {
            CharClass::Space => is_whitespace(c),
            CharClass::Numeral => is_digit(c) || c == '.',
            CharClass::Identifier => is_identifier(c),
            CharClass::InString => c != '"',
        }
    }
}

/// The index of the first character at or after `i` that class `k` does not
/// admit, or the length of `s` where there is none.
pub open spec fn run_end(s: Seq<char>, i: int, k: CharClass) -> int
    decreases s.len() - i,
{
    if 0 <= i < s.len() && k.admits(s[i]) {
        run_end(s, i + 1, k)
    } else {
        i
    }
}

pub proof fn lemma_run_end(s: Seq<char>, i: int, k: CharClass)
    requires
        0 <= i <= s.len(),
    ensures
        i <= run_end(s, i, k) <= s.len(),
        forall|m: int| i <= m < run_end(s, i, k) ==> k.admits(#[trigger] s[m]),
        run_end(s, i, k) < s.len() ==> !k.admits(s[run_end(s, i, k)]),
    decreases s.len() - i,
{
    if i < s.len() && k.admits(s[i]) {
        lemma_run_end(s, i + 1, k);
    }
}

#[derive(Clone, Debug, PartialEq, Eq)]
pub enum Token {
    LParen,
    RParen,
    Quote,
    Symbol(String),
    Number(String),
    String(String),
    WhiteSpace(String),
}

/// What a token is, with its text as a sequence of characters.
pub enum TokenView {
    LParen,
    RParen,
    Quote,
    Symbol(Seq<char>),
    Number(Seq<char>),
    Str(Seq<char>),
    WhiteSpace(Seq<char>),
}

impl View for Token {
    type V = TokenView;

    open spec fn view(&self) -> TokenView {
        match self {
            Token::LParen => TokenView::LParen,
            Token::RParen => TokenView::RParen,
            Token::Quote => TokenView::Quote,
            Token::Symbol(s) => TokenView::Symbol(s@),
            Token::Number(s) => TokenView::Number(s@),
            Token::String(s) => TokenView::Str(s@),
            Token::WhiteSpace(s) => TokenView::WhiteSpace(s@),
        }
    }
}

impl Token {
    /// A copy of the token.
    pub fn duplicate(&self) -> (r: Token)
        ensures
            r@ == self@,
    {
        match self {
            Token::LParen => Token::LParen,
            Token::RParen => Token::RParen,
            Token::Quote => Token::Quote,
            Token::Symbol(s) => Token::Symbol(s.clone()),
            Token::Number(s) => Token::Number(s.clone()),
            Token::String(s) => Token::String(s.clone()),
            Token::WhiteSpace(s) => Token::WhiteSpace(s.clone()),
        }
    }

    /// Whether two tokens are of one kind and hold the same text.
    pub fn same_as(&self, other: &Token) -> (r: bool)
        ensures
            r == (self@ == other@),
    {
        match (self, other) {
            (Token::LParen, Token::LParen) => true,
            (Token::RParen, Token::RParen) => true,
            (Token::Quote, Token::Quote) => true,
            (Token::Symbol(a), Token::Symbol(b)) => a.eq(b),
            (Token::Number(a), Token::Number(b)) => a.eq(b),
            (Token::String(a), Token::String(b)) => a.eq(b),
            (Token::WhiteSpace(a), Token::WhiteSpace(b)) => a.eq(b),
            _ => false,
        }
    }
}

/// A token and the byte offset in the line of the character it starts at.
#[derive(Clone, Debug, PartialEq, Eq)]
pub struct TokItem {
    pub token: Token,
    pub position: usize,
}

pub struct TokItemView {
    pub token: TokenView,
    pub position: int,
}

impl View for TokItem {
    type V = TokItemView;

    open spec fn view(&self) -> TokItemView {
        TokItemView { token: self.token@, position: self.position as int }
    }
}

impl TokItem {
    pub fn duplicate(&self) -> (r: TokItem)
        ensures
            r@ == self@,
    {
        TokItem { token: self.token.duplicate(), position: self.position }
    }
}

#[derive(Clone, Copy, Debug, PartialEq, Eq, Structural)]
pub enum ScanError {
    /// The cursor stands past the last character.
    EndOfInput,
    /// A string opened at byte offset `position` has no closing quote.
    UnterminatedString { position: usize },
    /// A character, at byte offset `position`, that starts no token.
    UnexpectedChar { ch: char, position: usize },
}

pub open spec fn item(token: TokenView, position: int) -> TokItemView {
    TokItemView { token, position }
}

/// The number of bytes that UTF-8 takes for a character.
pub open spec fn utf8_width(c: char) -> int {
    let v = c as u32;
    if v < 0x80 {
        1
    } else if v < 0x800 {
        2
    } else if v < 0x10000 {
        3
    } else {
        4
    }
}

/// The number of bytes that UTF-8 takes for a sequence of characters.
pub open spec fn byte_len(s: Seq<char>) -> int
    decreases s.len(),
{
    if s.len() == 0 {
        0
    } else {
        byte_len(s.drop_last()) + utf8_width(s.last())
    }
}

/// The byte offset in `s` of the character at index `i`.
pub open spec fn byte_offset(s: Seq<char>, i: int) -> int {
    byte_len(s.subrange(0, i))
}

fn char_width(c: char) -> (r: usize)
    ensures
        r == utf8_width(c),
{
    let v = c as u32;
    if v < 0x80 {
        1
    } else if v < 0x800 {
        2
    } else if v < 0x10000 {
        3
    } else {
        4
    }
}

pub proof fn lemma_byte_offset_step(s: Seq<char>, i: int)
    requires
        0 <= i < s.len(),
    ensures
        byte_offset(s, i + 1) == byte_offset(s, i) + utf8_width(s[i]),
{
    assert(s.subrange(0, i + 1).drop_last() =~= s.subrange(0, i));
}

/// Byte offsets grow with the index, up to the byte length of the whole.
pub proof fn lemma_byte_offset_bound(s: Seq<char>, i: int, j: int)
    requires
        0 <= i <= j <= s.len(),
    ensures
        byte_offset(s, i) + (j - i) <= byte_offset(s, j) <= byte_len(s),
    decreases s.len() - i,
{
    if i < s.len() {
        lemma_byte_offset_step(s, i);
        if i < j {
            lemma_byte_offset_bound(s, i + 1, j);
        } else {
            lemma_byte_offset_bound(s, i + 1, s.len() as int);
        }
    } else {
        assert(s.subrange(0, i) =~= s);
    }
}

/// The token that starts at index `i` of `s`, and the index after it; on an
/// error, the index is `i` again. Token positions here are character indices;
/// the scanner reports them as byte offsets (see `in_bytes`). Error positions
/// are byte offsets.
pub open spec fn next_spec(s: Seq<char>, i: int) -> (Result<TokItemView, ScanError>, int) {
    if i < 0 || i >= s.len() {
        (Err(ScanError::EndOfInput), i)
    } else {
        let c = s[i];
        if c == '\'' {
            (Ok(item(TokenView::Quote, i)), i + 1)
        } else if c == '"' {
            let e = run_end(s, i + 1, CharClass::InString);
            if e < s.len() {
                (Ok(item(TokenView::Str(s.subrange(i + 1, e)), i)), e + 1)
            } else {
                (Err(ScanError::UnterminatedString { position: byte_offset(s, i) as usize }), i)
            }
        } else if c == '(' {
            (Ok(item(TokenView::LParen, i)), i + 1)
        } else if c == ')' {
            (Ok(item(TokenView::RParen, i)), i + 1)
        } else if space_char(c) {
            let e = run_end(s, i, CharClass::Space);
            (Ok(item(TokenView::WhiteSpace(s.subrange(i, e)), i)), e)
        } else if digit_char(c) {
            let e = run_end(s, i, CharClass::Numeral);
            (Ok(item(TokenView::Number(s.subrange(i, e)), i)), e)
        } else if identifier_char(c) {
            let e = run_end(s, i, CharClass::Identifier);
            (Ok(item(TokenView::Symbol(s.subrange(i, e)), i)), e)
        } else {
            (Err(ScanError::UnexpectedChar { ch: c, position: byte_offset(s, i) as usize }), i)
        }
    }
}

/// Tokens with each position moved by `f`.
pub open spec fn repositioned(ts: Seq<TokItemView>, f: spec_fn(int) -> int) -> Seq<TokItemView> {
    ts.map_values(|t: TokItemView| item(t.token, f(t.position)))
}

/// Tokens of `s` with character indices as positions, given byte offsets
/// instead.
pub open spec fn in_bytes(s: Seq<char>, ts: Seq<TokItemView>) -> Seq<TokItemView> {
    repositioned(ts, |x: int| byte_offset(s, x))
}

/// What `next` returns: the token of `next_spec` at its byte offset.
pub open spec fn next_bytes(s: Seq<char>, i: int) -> Result<TokItemView, ScanError> {
    match next_spec(s, i).0 {
        Ok(t) => Ok(item(t.token, byte_offset(s, t.position))),
        Err(e) => Err(e),
    }
}

pub open spec fn item_result(r: Result<TokItem, ScanError>) -> Result<TokItemView, ScanError> {
    match r {
        Ok(t) => Ok(t@),
        Err(e) => Err(e),
    }
}

pub open spec fn items_view(v: Seq<TokItem>) -> Seq<TokItemView> {
    v.map_values(|t: TokItem| t@)
}

pub proof fn lemma_next_advances(s: Seq<char>, i: int)
    requires
        0 <= i <= s.len(),
    ensures
        next_spec(s, i).0 is Ok ==> i < next_spec(s, i).1 <= s.len(),
        next_spec(s, i).0 is Err ==> next_spec(s, i).1 == i,
{
    if i < s.len() {
        lemma_run_end(s, i, CharClass::Space);
        lemma_run_end(s, i, CharClass::Numeral);
        lemma_run_end(s, i, CharClass::Identifier);
        lemma_run_end(s, i + 1, CharClass::InString);
    }
}

/// The tokens scanned one after another from index `i` of `s`, up to the
/// first failure of `next`: the end of the line or an error.
pub open spec fn scan_spec(s: Seq<char>, i: int) -> Seq<TokItemView>
    decreases s.len() - i,
{
    let (r, j) = next_spec(s, i);
    match r {
        Ok(t) => if i < j <= s.len() {
            seq![t] + scan_spec(s, j)
        } else {
            Seq::empty()
        },
        Err(_) => Seq::empty(),
    }
}

/// The index where scanning from `i` stops: the end of the line, or the
/// start of the first token that fails.
pub open spec fn scan_stop(s: Seq<char>, i: int) -> int
    decreases s.len() - i,
{
    let (r, j) = next_spec(s, i);
    match r {
        Ok(t) => if i < j <= s.len() {
            scan_stop(s, j)
        } else {
            i
        },
        Err(_) => i,
    }
}

/// The characters of the line that a token was scanned from.
pub open spec fn spelling(t: TokenView) -> Seq<char> {
    match t {
        TokenView::LParen => seq!['('],
        TokenView::RParen => seq![')'],
        TokenView::Quote => seq!['\''],
        TokenView::Symbol(s) => s,
        TokenView::Number(s) => s,
        TokenView::Str(s) => seq!['"'] + s + seq!['"'],
        TokenView::WhiteSpace(s) => s,
    }
}

/// The spellings of a sequence of tokens, one after another.
pub open spec fn joined(ts: Seq<TokItemView>) -> Seq<char>
    decreases ts.len(),
{
    if ts.len() == 0 {
        Seq::empty()
    } else {
        spelling(ts[0].token) + joined(ts.drop_first())
    }
}

/// Each token that `next` scans is spelled by the characters it moved over.
pub proof fn lemma_next_spelling(s: Seq<char>, i: int)
    requires
        0 <= i <= s.len(),
        next_spec(s, i).0 is Ok,
    ensures
        spelling(next_spec(s, i).0->Ok_0.token) == s.subrange(i, next_spec(s, i).1),
        next_spec(s, i).0->Ok_0.position == i,
{
    lemma_next_advances(s, i);
    let c = s[i];
    let j = next_spec(s, i).1;
    if c == '"' {
        lemma_run_end(s, i + 1, CharClass::InString);
        let e = run_end(s, i + 1, CharClass::InString);
        assert(s.subrange(i, j) =~= seq!['"'] + s.subrange(i + 1, e) + seq!['"']);
    } else if c == '\'' || c == '(' || c == ')' {
        assert(s.subrange(i, j) =~= seq![c]);
    }
}

/// The spellings of the scanned tokens, whitespace included, joined in order
/// give back the line from `i` to where scanning stopped; when the line scans
/// without error, that is the whole rest of the line.
pub proof fn lemma_scan_spells_line(s: Seq<char>, i: int)
    requires
        0 <= i <= s.len(),
    ensures
        i <= scan_stop(s, i) <= s.len(),
        joined(scan_spec(s, i)) == s.subrange(i, scan_stop(s, i)),
        next_spec(s, scan_stop(s, i)).0 is Err,
    decreases s.len() - i,
{
    lemma_next_advances(s, i);
    let (r, j) = next_spec(s, i);
    match r {
        Ok(t) => {
            lemma_next_spelling(s, i);
            lemma_scan_spells_line(s, j);
            let ts = scan_spec(s, i);
            assert(ts.drop_first() =~= scan_spec(s, j));
            assert(s.subrange(i, scan_stop(s, i)) =~= s.subrange(i, j) + s.subrange(
                j,
                scan_stop(s, i),
            ));
        },
        Err(_) => {
            assert(s.subrange(i, i) =~= Seq::<char>::empty());
        },
    }
}

/// A lexer over one line of text, with a cursor on its characters.
pub struct Scanner {
    current_pos: usize,
    byte_pos: usize,
    len: usize,
    text: String,
}

impl Scanner {
    /// The line being scanned.
    pub closed spec fn line(&self) -> Seq<char> {
        self.text@
    }

    /// The index of the next character to be scanned.
    pub closed spec fn cursor(&self) -> int {
        self.current_pos as int
    }

    pub closed spec fn wf(&self) -> bool {
        &&& self.len == self.text@.len()
        &&& self.current_pos <= self.len
        &&& self.byte_pos == byte_offset(self.text@, self.current_pos as int)
        &&& byte_len(self.text@) <= usize::MAX
    }

    /// The cursor of a well-formed scanner stands on the line or just past
    /// its end.
    pub proof fn lemma_cursor_bounds(&self)
        requires
            self.wf(),
        ensures
            0 <= self.cursor() <= self.line().len(),
    {
    }

    /// A scanner at the start of `text`. The line's UTF-8 length is a byte
    /// length and so fits in `usize`.
    pub fn new(text: &str) -> (r: Scanner)
        requires
            byte_len(text@) <= usize::MAX,
        ensures
            r.wf(),
            r.line() == text@,
            r.cursor() == 0,
    {
        let r = Scanner {
            current_pos: 0,
            byte_pos: 0,
            len: text.unicode_len(),
            text: text.to_owned(),
        };
        assert(r.text@.subrange(0, 0) =~= Seq::<char>::empty());
        r
    }

    /// The line being scanned.
    pub fn text(&self) -> (r: &str)
        ensures
            r@ == self.line(),
    {
        self.text.as_str()
    }

    fn peek(&self) -> (r: Result<char, ScanError>)
        requires
            self.wf(),
        ensures
            self.cursor() < self.line().len() ==> r == Ok::<char, ScanError>(
                self.line()[self.cursor()],
            ),
            self.cursor() >= self.line().len() ==> r == Err::<char, ScanError>(
                ScanError::EndOfInput,
            ),
    {
        if self.current_pos < self.len {
            Ok(self.text.as_str().get_char(self.current_pos))
        } else {
            Err(ScanError::EndOfInput)
        }
    }

    /// Moves the cursor past one character; the byte offset grows by its
    /// UTF-8 width.
    fn advance(&mut self) -> (r: Result<char, ScanError>)
        requires
            old(self).wf(),
        ensures
            final(self).wf(),
            final(self).line() == old(self).line(),
            old(self).cursor() < old(self).line().len() ==> r == Ok::<char, ScanError>(
                old(self).line()[old(self).cursor()],
            ) && final(self).cursor() == old(self).cursor() + 1,
            old(self).cursor() >= old(self).line().len() ==> r == Err::<char, ScanError>(
                ScanError::EndOfInput,
            ) && *final(self) == *old(self),
    {
        match self.peek() {
            Ok(ch) => {
                proof {
                    let s = self.text@;
                    let i = self.current_pos as int;
                    lemma_byte_offset_step(s, i);
                    lemma_byte_offset_bound(s, i + 1, s.len() as int);
                }
                self.byte_pos = self.byte_pos + char_width(ch);
                self.current_pos = self.current_pos + 1;
                Ok(ch)
            },
            Err(err) => Err(err),
        }
    }

    /// Moves the cursor past the run of characters of class `k` that starts
    /// at it, and returns that run. At the end of the line it returns the end
    /// of input; before a character outside the class, nothing. In both cases
    /// the cursor stays.
    fn advance_while(&mut self, k: CharClass) -> (r: Option<Result<String, ScanError>>)
        requires
            old(self).wf(),
        ensures
            final(self).wf(),
            final(self).line() == old(self).line(),
            final(self).cursor() == run_end(old(self).line(), old(self).cursor(), k),
            old(self).cursor() >= old(self).line().len() ==> r == Some(
                Err::<String, ScanError>(ScanError::EndOfInput),
            ),
            old(self).cursor() < old(self).line().len() && !k.admits(
                old(self).line()[old(self).cursor()],
            ) ==> r is None,
            old(self).cursor() < old(self).line().len() && k.admits(
                old(self).line()[old(self).cursor()],
            ) ==> (r matches Some(Ok(run)) && run@ == old(self).line().subrange(
                old(self).cursor(),
                final(self).cursor(),
            )),
    {
        match self.peek() {
            Ok(ch) => {
                if !k.contains(ch) {
                    return None;
                }
            },
            Err(e) => {
                return Some(Err(e));
            },
        }
        let start = self.current_pos;
        loop
            invariant_except_break
                run_end(self.line(), self.cursor(), k) == run_end(
                    self.line(),
                    start as int,
                    k,
                ),
            invariant
                self.wf(),
                self.line() == old(self).line(),
                start == old(self).cursor(),
                start <= self.current_pos,
            ensures
                self.cursor() == run_end(self.line(), start as int, k),
            decreases self.len - self.current_pos,
        {
            match self.peek() {
                Ok(ch) => {
                    if k.contains(ch) {
                        let _ = self.advance();
                    } else {
                        break ;
                    }
                },
                Err(_) => {
                    break ;
                },
            }
        }
        Some(Ok(self.text.as_str().substring_char(start, self.current_pos).to_owned()))
    }

    /// Scans the token at the cursor and moves the cursor past it. The token
    /// carries its byte offset. On an error the cursor stays.
    pub fn next(&mut self) -> (r: Result<TokItem, ScanError>)
        requires
            old(self).wf(),
        ensures
            final(self).wf(),
            final(self).line() == old(self).line(),
            item_result(r) == next_bytes(old(self).line(), old(self).cursor()),
            final(self).cursor() == next_spec(old(self).line(), old(self).cursor()).1,
    {
        let start = self.current_pos;
        let start_byte = self.byte_pos;
        let ch = match self.peek() {
            Ok(ch) => ch,
            Err(e) => {
                return Err(e);
            },
        };
        if ch == '\'' {
            let _ = self.advance();
            Ok(TokItem { token: Token::Quote, position: start_byte })
        } else if ch == '"' {
            let _ = self.advance();
            let content = match self.advance_while(CharClass::InString) {
                Some(Ok(run)) => run,
                _ => String::new(),
            };
            proof {
                lemma_run_end(self.line(), start + 1, CharClass::InString);
                if self.cursor() == start + 1 {
                    assert(self.line().subrange(start + 1, start + 1) =~= Seq::<char>::empty());
                }
            }
            if self.current_pos < self.len {
                let _ = self.advance();
                Ok(TokItem { token: Token::String(content), position: start_byte })
            } else {
                self.current_pos = start;
                self.byte_pos = start_byte;
                Err(ScanError::UnterminatedString { position: start_byte })
            }
        } else if ch == '(' {
            let _ = self.advance();
            Ok(TokItem { token: Token::LParen, position: start_byte })
        } else if ch == ')' {
            let _ = self.advance();
            Ok(TokItem { token: Token::RParen, position: start_byte })
        } else if is_whitespace(ch) {
            match self.advance_while(CharClass::Space) {
                Some(Ok(spaces)) => Ok(TokItem { token: Token::WhiteSpace(spaces), position: start_byte }),
                _ => Err(ScanError::EndOfInput),
            }
        } else if is_digit(ch) {
            match self.advance_while(CharClass::Numeral) {
                Some(Ok(number)) => Ok(TokItem { token: Token::Number(number), position: start_byte }),
                _ => Err(ScanError::EndOfInput),
            }
        } else if is_identifier(ch) {
            match self.advance_while(CharClass::Identifier) {
                Some(Ok(identifier)) => Ok(TokItem { token: Token::Symbol(identifier), position: start_byte }),
                _ => Err(ScanError::EndOfInput),
            }
        } else {
            Err(ScanError::UnexpectedChar { ch, position: start_byte })
        }
    }

    /// Scans tokens from the cursor until `next` fails, and returns those it
    /// scanned. The cursor is left where scanning stopped: at the end of the
    /// line, or at the token that failed.
    pub fn scan_all(&mut self) -> (r: Vec<TokItem>)
        requires
            old(self).wf(),
        ensures
            final(self).wf(),
            final(self).line() == old(self).line(),
            items_view(r@) == in_bytes(
                old(self).line(),
                scan_spec(old(self).line(), old(self).cursor()),
            ),
            final(self).cursor() == scan_stop(old(self).line(), old(self).cursor()),
    {
        let mut result: Vec<TokItem> = Vec::new();
        let ghost s = self.line();
        proof {
            assert(items_view(result@) =~= Seq::<TokItemView>::empty());
        }
        loop
            invariant
                self.wf(),
                self.line() == s,
                s == old(self).line(),
                in_bytes(s, scan_spec(s, old(self).cursor())) == items_view(result@) + in_bytes(
                    s,
                    scan_spec(s, self.cursor()),
                ),
                scan_stop(s, old(self).cursor()) == scan_stop(s, self.cursor()),
            decreases self.len - self.current_pos,
        {
            proof {
                lemma_next_advances(s, self.cursor());
            }
            let ghost i = self.cursor();
            match self.next() {
                Ok(tok) => {
                    let ghost before = result@;
                    result.push(tok);
                    proof {
                        let j = self.cursor();
                        let rest = scan_spec(s, j);
                        let t = next_spec(s, i).0->Ok_0;
                        assert(scan_spec(s, i) == seq![t] + rest);
                        assert(in_bytes(s, seq![t] + rest) =~= seq![tok@] + in_bytes(s, rest));
                        assert(items_view(result@) =~= items_view(before) + seq![tok@]);
                        assert(items_view(before) + (seq![tok@] + in_bytes(s, rest))
                            =~= items_view(result@) + in_bytes(s, rest));
                    }
                },
                Err(_) => {
                    proof {
                        assert(in_bytes(s, scan_spec(s, i)) =~= Seq::<TokItemView>::empty());
                        assert(items_view(result@) + Seq::<TokItemView>::empty()
                            =~= items_view(result@));
                    }
                    return result;
                },
            }
        }
    }
}

/// Tokens with every position moved back by `p`.
pub open spec fn shifted(ts: Seq<TokItemView>, p: int) -> Seq<TokItemView> {
    repositioned(ts, |x: int| x - p)
}

/// Where the run of the first `b` tokens scanned from `i` ends: the start of
/// the next token, or where scanning stopped.
pub open spec fn run_stop(s: Seq<char>, i: int, b: int) -> int {
    if b < scan_spec(s, i).len() {
        scan_spec(s, i)[b].position
    } else {
        scan_stop(s, i)
    }
}

proof fn lemma_run_end_window(s: Seq<char>, p: int, q: int, i: int, k: CharClass)
    requires
        0 <= p <= i <= q <= s.len(),
        run_end(s, i, k) <= q,
    ensures
        run_end(s.subrange(p, q), i - p, k) == run_end(s, i, k) - p,
    decreases s.len() - i,
{
    let w = s.subrange(p, q);
    lemma_run_end(s, i, k);
    if i < s.len() && k.admits(s[i]) {
        lemma_run_end(s, i + 1, k);
        assert(w[i - p] == s[i]);
        lemma_run_end_window(s, p, q, i + 1, k);
    } else if i < q {
        assert(w[i - p] == s[i]);
    }
}

proof fn lemma_next_window(s: Seq<char>, p: int, q: int, i: int)
    requires
        0 <= p <= i < q <= s.len(),
        next_spec(s, i).0 is Ok,
        next_spec(s, i).1 <= q,
    ensures
        next_spec(s.subrange(p, q), i - p) == (
            Ok::<TokItemView, ScanError>(
                item(next_spec(s, i).0->Ok_0.token, next_spec(s, i).0->Ok_0.position - p),
            ),
            next_spec(s, i).1 - p,
        ),
{
    let w = s.subrange(p, q);
    let c = s[i];
    assert(w[i - p] == c);
    lemma_next_advances(s, i);
    if c == '\'' {
    } else if c == '"' {
        let e = run_end(s, i + 1, CharClass::InString);
        lemma_run_end(s, i + 1, CharClass::InString);
        assert(e < s.len() && e + 1 == next_spec(s, i).1);
        lemma_run_end_window(s, p, q, i + 1, CharClass::InString);
        assert(w.subrange(i + 1 - p, e - p) =~= s.subrange(i + 1, e));
    } else if c == '(' || c == ')' {
    } else if space_char(c) {
        let e = run_end(s, i, CharClass::Space);
        lemma_run_end_window(s, p, q, i, CharClass::Space);
        assert(w.subrange(i - p, e - p) =~= s.subrange(i, e));
    } else if digit_char(c) {
        let e = run_end(s, i, CharClass::Numeral);
        lemma_run_end_window(s, p, q, i, CharClass::Numeral);
        assert(w.subrange(i - p, e - p) =~= s.subrange(i, e));
    } else if identifier_char(c) {
        let e = run_end(s, i, CharClass::Identifier);
        lemma_run_end_window(s, p, q, i, CharClass::Identifier);
        assert(w.subrange(i - p, e - p) =~= s.subrange(i, e));
    }
}

/// Every token scanned from index `i` starts at or after `i`, before where
/// scanning stopped.
pub proof fn lemma_scan_positions(s: Seq<char>, i: int)
    requires
        0 <= i <= s.len(),
    ensures
        i <= scan_stop(s, i) <= s.len(),
        forall|c: int|
            0 <= c < scan_spec(s, i).len() ==> i <= #[trigger] scan_spec(s, i)[c].position
                < scan_stop(s, i),
        scan_spec(s, i).len() > 0 ==> scan_spec(s, i)[0].position == i,
        scan_spec(s, i).len() == 0 ==> i == scan_stop(s, i),
    decreases s.len() - i,
{
    lemma_next_advances(s, i);
    let (r, j) = next_spec(s, i);
    if r is Ok {
        lemma_next_spelling(s, i);
        lemma_scan_positions(s, j);
        let ts = scan_spec(s, i);
        assert forall|c: int| 0 <= c < ts.len() implies i <= #[trigger] ts[c].position
            < scan_stop(s, i) by {
            if c > 0 {
                assert(ts[c] == scan_spec(s, j)[c - 1]);
            }
        }
    }
}

proof fn lemma_scan_window(s: Seq<char>, p: int, i: int, b: int)
    requires
        0 <= p <= i <= s.len(),
        0 <= b <= scan_spec(s, i).len(),
    ensures
        scan_spec(s.subrange(p, run_stop(s, i, b)), i - p) == shifted(
            scan_spec(s, i).subrange(0, b),
            p,
        ),
    decreases s.len() - i,
{
    let ts = scan_spec(s, i);
    let q = run_stop(s, i, b);
    let w = s.subrange(p, q);
    lemma_scan_positions(s, i);
    lemma_next_advances(s, i);
    if b == 0 {
        assert(q == i);
        assert(shifted(ts.subrange(0, b), p) =~= Seq::<TokItemView>::empty());
    } else {
        let (r, j) = next_spec(s, i);
        let t = r->Ok_0;
        let rest = scan_spec(s, j);
        assert(ts == seq![t] + rest);
        lemma_scan_positions(s, j);
        if b < ts.len() {
            assert(ts[b] == rest[b - 1]);
        }
        assert(run_stop(s, j, b - 1) == q);
        assert(j <= q);
        lemma_next_window(s, p, q, i);
        lemma_scan_window(s, p, j, b - 1);
        lemma_next_advances(w, i - p);
        assert(shifted(ts.subrange(0, b), p) =~= seq![item(t.token, t.position - p)] + shifted(
            rest.subrange(0, b - 1),
            p,
        ));
    }
}

/// Scanning from where a token starts gives the tokens from it on, and stops
/// where scanning from the start did.
pub proof fn lemma_scan_suffix(s: Seq<char>, i: int, a: int)
    requires
        0 <= i <= s.len(),
        0 <= a < scan_spec(s, i).len(),
    ensures
        ({
            let ts = scan_spec(s, i);
            &&& scan_spec(s, ts[a].position) == ts.subrange(a, ts.len() as int)
            &&& scan_stop(s, ts[a].position) == scan_stop(s, i)
        }),
    decreases s.len() - i,
{
    let ts = scan_spec(s, i);
    lemma_scan_positions(s, i);
    lemma_next_advances(s, i);
    let j = next_spec(s, i).1;
    if a == 0 {
        assert(ts.subrange(0, ts.len() as int) =~= ts);
    } else {
        let rest = scan_spec(s, j);
        assert(ts[a] == rest[a - 1]);
        lemma_scan_suffix(s, j, a - 1);
        assert(ts.subrange(a, ts.len() as int) =~= rest.subrange(a - 1, rest.len() as int));
    }
}

/// Re-scanning a run of a line's tokens: the characters from the start of
/// `ts[a]` to the start of `ts[b]` (or to where scanning stopped) scan to
/// exactly the tokens `ts[a..b]`, with positions counted from the run's
/// start. Positions here are character indices.
pub proof fn lemma_rescan_run(s: Seq<char>, a: int, b: int)
    requires
        0 <= a < b <= scan_spec(s, 0).len(),
    ensures
        ({
            let ts = scan_spec(s, 0);
            let p = ts[a].position;
            scan_spec(s.subrange(p, run_stop(s, 0, b)), 0) == shifted(ts.subrange(a, b), p)
        }),
{
    let ts = scan_spec(s, 0);
    let p = ts[a].position;
    lemma_scan_positions(s, 0);
    lemma_scan_suffix(s, 0, a);
    let us = scan_spec(s, p);
    assert(us =~= ts.subrange(a, ts.len() as int));
    assert(run_stop(s, p, b - a) == run_stop(s, 0, b));
    lemma_scan_positions(s, p);
    lemma_scan_window(s, p, p, b - a);
    assert(us.subrange(0, b - a) =~= ts.subrange(a, b));
}

/// A string whose closing quote never comes fails, at its opening quote,
/// with the cursor left there: scanning again fails the same way.
pub proof fn lemma_unterminated_string(s: Seq<char>, i: int)
    requires
        0 <= i < s.len(),
        s[i] == '"',
        forall|k: int| i < k < s.len() ==> s[k] != '"',
    ensures
        next_spec(s, i) == (
            Err::<TokItemView, ScanError>(
                ScanError::UnterminatedString { position: byte_offset(s, i) as usize },
            ),
            i,
        ),
{
    lemma_run_end(s, i + 1, CharClass::InString);
}

} // verus!

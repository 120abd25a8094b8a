use vstd::prelude::*;

verus! {

/// The kinds of tokens of the Lox language.
#[derive(PartialEq, Eq, Structural, Debug, Clone, Copy)]
pub enum TokenKind {
    // Single character tokens:
    LeftParen,
    RightParen,
    LeftBrace,
    RightBrace,
    Comma,
    Dot,
    Minus,
    Plus,
    Semicolon,
    Slash,
    Star,
    // One or two character tokens:
    Bang,
    BangEqual,
    Equal,
    EqualEqual,
    Greater,
    GreaterEqual,
    Less,
    LessEqual,
    // Literals:
    Identifier,
    String,
    Number,
    // Keywords:
    And,
    Class,
    Else,
    False,
    Fun,
    For,
    If,
    Nil,
    Or,
    Print,
    Return,
    Super,
    This,
    True,
    Var,
    While,
    // Error & EOF:
    Error,
    Eof,
}

/// A token: its kind, its text (or, for an error token, the error message) and
/// the line on which it ends.
#[derive(Debug, PartialEq)]
pub struct Token {
    pub kind: TokenKind,
    pub lexeme: String,
    pub line: usize,
}

impl Clone for Token {
    fn clone(&self) -> (t: Self)
        ensures
            t == *self,
    {
        Token { kind: self.kind, lexeme: self.lexeme.clone(), line: self.line }
    }
}

/// The message of the error token for a string literal that is never closed.
pub open spec fn unterminated_string_msg() -> Seq<char> {
    "Unterminated string."@
}

/// The message of the error token for a character that starts no token.
pub open spec fn unexpected_char_msg() -> Seq<char> {
    "Unexpected character."@
}

pub open spec fn spec_is_digit(c: char) -> bool {
    '0' <= c && c <= '9'
}

pub open spec fn spec_is_alpha(c: char) -> bool {
    ('a' <= c && c <= 'z') || ('A' <= c && c <= 'Z') || c == '_'
}

pub open spec fn spec_is_alpha_numeric(c: char) -> bool {
    spec_is_alpha(c) || spec_is_digit(c)
}

/// The character at `i`, or `'\0'` past either end of the source.
pub open spec fn char_at(s: Seq<char>, i: int) -> char {
    if 0 <= i < s.len() {
        s[i]
    } else {
        '\0'
    }
}

/// The first position at or after `i` that holds a newline, or the end of the source.
pub open spec fn line_end(s: Seq<char>, i: int) -> int
    decreases s.len() - i,
{
    if i < 0 || i >= s.len() || s[i] == '\n' {
        if i < 0 { 0 } else if i >= s.len() { s.len() as int } else { i }
    } else {
        line_end(s, i + 1)
    }
}

/// Where the whitespace and comments that start at `pos` end, and the line there.
pub open spec fn skip_ws(s: Seq<char>, pos: int, line: int) -> (int, int)
    decreases s.len() - pos,
{
    if pos < 0 || pos >= s.len() {
        (pos, line)
    } else if s[pos] == ' ' || s[pos] == '\r' || s[pos] == '\t' {
        skip_ws(s, pos + 1, line)
    } else if s[pos] == '\n' {
        skip_ws(s, pos + 1, line + 1)
    } else if s[pos] == '/' && char_at(s, pos + 1) == '/' {
        proof {
            lemma_line_end_bounds(s, pos + 2);
        }
        skip_ws(s, line_end(s, pos + 2), line)
    } else {
        (pos, line)
    }
}

/// The end of the run of digits that starts at `i`.
pub open spec fn digits_end(s: Seq<char>, i: int) -> int
    decreases s.len() - i,
{
    if 0 <= i < s.len() && spec_is_digit(s[i]) {
        digits_end(s, i + 1)
    } else {
        i
    }
}

/// The end of the run of letters, digits and underscores that starts at `i`.
pub open spec fn alnum_end(s: Seq<char>, i: int) -> int
    decreases s.len() - i,
{
    if 0 <= i < s.len() && spec_is_alpha_numeric(s[i]) {
        alnum_end(s, i + 1)
    } else {
        i
    }
}

/// The position of the quote that closes a string literal whose text starts at
/// `i` (or the end of the source), and the line there.
pub open spec fn string_scan(s: Seq<char>, i: int, line: int) -> (int, int)
    decreases s.len() - i,
{
    if i < 0 || i >= s.len() || s[i] == '"' {
        (i, line)
    } else {
        string_scan(s, i + 1, if s[i] == '\n' { line + 1 } else { line })
    }
}

/// The kind of a word: the keyword it spells, or `Identifier`.
pub open spec fn keyword_kind(w: Seq<char>) -> TokenKind {
    if w == "and"@ {
        TokenKind::And
    } else if w == "class"@ {
        TokenKind::Class
    } else if w == "else"@ {
        TokenKind::Else
    } else if w == "false"@ {
        TokenKind::False
    } else if w == "for"@ {
        TokenKind::For
    } else if w == "fun"@ {
        TokenKind::Fun
    } else if w == "if"@ {
        TokenKind::If
    } else if w == "nil"@ {
        TokenKind::Nil
    } else if w == "or"@ {
        TokenKind::Or
    } else if w == "print"@ {
        TokenKind::Print
    } else if w == "return"@ {
        TokenKind::Return
    } else if w == "super"@ {
        TokenKind::Super
    } else if w == "this"@ {
        TokenKind::This
    } else if w == "true"@ {
        TokenKind::True
    } else if w == "var"@ {
        TokenKind::Var
    } else if w == "while"@ {
        TokenKind::While
    } else {
        TokenKind::Identifier
    }
}

/// The kind of a token made of the one character `c`, if there is one.
pub open spec fn single_char_kind(c: char) -> Option<TokenKind> {
    if c == '(' {
        Some(TokenKind::LeftParen)
    } else if c == ')' {
        Some(TokenKind::RightParen)
    } else if c == '{' {
        Some(TokenKind::LeftBrace)
    } else if c == '}' {
        Some(TokenKind::RightBrace)
    } else if c == ',' {
        Some(TokenKind::Comma)
    } else if c == '.' {
        Some(TokenKind::Dot)
    } else if c == '-' {
        Some(TokenKind::Minus)
    } else if c == '+' {
        Some(TokenKind::Plus)
    } else if c == '/' {
        Some(TokenKind::Slash)
    } else if c == ';' {
        Some(TokenKind::Semicolon)
    } else if c == '*' {
        Some(TokenKind::Star)
    } else {
        None
    }
}

/// The kinds of a token that starts with `c` and may be followed by `=`:
/// without the `=` and with it.
pub open spec fn with_equal_kinds(c: char) -> Option<(TokenKind, TokenKind)> {
    if c == '!' {
        Some((TokenKind::Bang, TokenKind::BangEqual))
    } else if c == '=' {
        Some((TokenKind::Equal, TokenKind::EqualEqual))
    } else if c == '<' {
        Some((TokenKind::Less, TokenKind::LessEqual))
    } else if c == '>' {
        Some((TokenKind::Greater, TokenKind::GreaterEqual))
    } else {
        None
    }
}

/// One step of the scanner in the mathematical model: the token read from
/// position `pos` on line `line`, where it started, and where the scanner stands after it.
pub struct ScanStep {
    pub kind: TokenKind,
    pub lexeme: Seq<char>,
    pub tok_line: int,
    pub start: int,
    pub pos: int,
    pub line: int,
}

/// A token whose text is the source between `start` and `end`.
pub open spec fn text_step(s: Seq<char>, kind: TokenKind, start: int, end: int, line: int) -> ScanStep {
    ScanStep { kind, lexeme: s.subrange(start, end), tok_line: line, start, pos: end, line }
}

/// An error token with message `msg`.
pub open spec fn error_step(msg: Seq<char>, start: int, end: int, line: int) -> ScanStep {
    ScanStep { kind: TokenKind::Error, lexeme: msg, tok_line: line, start, pos: end, line }
}

/// The token that a scanner reads from `pos` on line `line` of the source `s`.
pub open spec fn spec_scan(s: Seq<char>, pos: int, line: int) -> ScanStep {
    let (p, l) = skip_ws(s, pos, line);
    if p >= s.len() {
        text_step(s, TokenKind::Eof, p, p, l)
    } else {
        let c = s[p];
        if spec_is_digit(c) {
            let q = digits_end(s, p + 1);
            let r = if char_at(s, q) == '.' && spec_is_digit(char_at(s, q + 1)) {
                digits_end(s, q + 1)
            } else {
                q
            };
            text_step(s, TokenKind::Number, p, r, l)
        } else if spec_is_alpha(c) {
            let q = alnum_end(s, p + 1);
            text_step(s, keyword_kind(s.subrange(p, q)), p, q, l)
        } else if single_char_kind(c) is Some {
            text_step(s, single_char_kind(c)->0, p, p + 1, l)
        } else if let Some((one, two)) = with_equal_kinds(c) {
            if char_at(s, p + 1) == '=' {
                text_step(s, two, p, p + 2, l)
            } else {
                text_step(s, one, p, p + 1, l)
            }
        } else if c == '"' {
            let (j, l2) = string_scan(s, p + 1, l);
            if j >= s.len() {
                error_step(unterminated_string_msg(), p, j, l2)
            } else {
                text_step(s, TokenKind::String, p, j + 1, l2)
            }
        } else {
            error_step(unexpected_char_msg(), p, p + 1, l)
        }
    }
}

pub proof fn lemma_line_end_bounds(s: Seq<char>, i: int)
    requires
        0 <= i <= s.len(),
    ensures
        i <= line_end(s, i) <= s.len(),
        line_end(s, i) < s.len() ==> s[line_end(s, i)] == '\n',
        forall|k: int| i <= k < line_end(s, i) ==> s[k] != '\n',
    decreases s.len() - i,
{
    if i < s.len() && s[i] != '\n' {
        lemma_line_end_bounds(s, i + 1);
    }
}

pub proof fn lemma_skip_ws_bounds(s: Seq<char>, pos: int, line: int)
    requires
        0 <= pos <= s.len(),
    ensures
        pos <= skip_ws(s, pos, line).0 <= s.len(),
        line <= skip_ws(s, pos, line).1,
        skip_ws(s, pos, line).1 - line <= skip_ws(s, pos, line).0 - pos,
    decreases s.len() - pos,
{
    if pos < s.len() {
        if s[pos] == ' ' || s[pos] == '\r' || s[pos] == '\t' {
            lemma_skip_ws_bounds(s, pos + 1, line);
        } else if s[pos] == '\n' {
            lemma_skip_ws_bounds(s, pos + 1, line + 1);
        } else if s[pos] == '/' && char_at(s, pos + 1) == '/' {
            lemma_line_end_bounds(s, pos + 2);
            lemma_skip_ws_bounds(s, line_end(s, pos + 2), line);
        }
    }
}

pub proof fn lemma_digits_end_bounds(s: Seq<char>, i: int)
    requires
        0 <= i <= s.len(),
    ensures
        i <= digits_end(s, i) <= s.len(),
        forall|k: int| i <= k < digits_end(s, i) ==> spec_is_digit(#[trigger] s[k]),
        digits_end(s, i) < s.len() ==> !spec_is_digit(s[digits_end(s, i)]),
    decreases s.len() - i,
{
    if i < s.len() && spec_is_digit(s[i]) {
        lemma_digits_end_bounds(s, i + 1);
    }
}

pub proof fn lemma_alnum_end_bounds(s: Seq<char>, i: int)
    requires
        0 <= i <= s.len(),
    ensures
        i <= alnum_end(s, i) <= s.len(),
        forall|k: int| i <= k < alnum_end(s, i) ==> spec_is_alpha_numeric(#[trigger] s[k]),
        alnum_end(s, i) < s.len() ==> !spec_is_alpha_numeric(s[alnum_end(s, i)]),
    decreases s.len() - i,
{
    if i < s.len() && spec_is_alpha_numeric(s[i]) {
        lemma_alnum_end_bounds(s, i + 1);
    }
}

pub proof fn lemma_string_scan_bounds(s: Seq<char>, i: int, line: int)
    requires
        0 <= i <= s.len(),
    ensures
        i <= string_scan(s, i, line).0 <= s.len(),
        line <= string_scan(s, i, line).1,
        string_scan(s, i, line).1 - line <= string_scan(s, i, line).0 - i,
        string_scan(s, i, line).0 < s.len() ==> s[string_scan(s, i, line).0] == '"',
    decreases s.len() - i,
{
    if i < s.len() && s[i] != '"' {
        lemma_string_scan_bounds(s, i + 1, if s[i] == '\n' { line + 1 } else { line });
    }
}


/// Every token but `Eof` consumes at least one character; `Eof` is read only at
/// the end of the source, and leaves the scanner there. The scanner never moves
/// backwards and never leaves the source, and the line never decreases.
pub proof fn lemma_scan_progress(s: Seq<char>, pos: int, line: int)
    requires
        0 <= pos <= s.len(),
    ensures
        pos <= spec_scan(s, pos, line).start <= spec_scan(s, pos, line).pos <= s.len(),
        line <= spec_scan(s, pos, line).line,
        spec_scan(s, pos, line).line - line <= spec_scan(s, pos, line).pos - pos,
        spec_scan(s, pos, line).kind != TokenKind::Eof ==> pos < spec_scan(s, pos, line).pos,
        spec_scan(s, pos, line).kind == TokenKind::Eof ==> spec_scan(s, pos, line).pos == s.len(),
        spec_scan(s, pos, line).kind != TokenKind::Eof ==> spec_scan(s, pos, line).start
            < spec_scan(s, pos, line).pos,
        spec_scan(s, pos, line).kind == TokenKind::String ==> spec_scan(s, pos, line).lexeme.len()
            >= 2,
{
    lemma_skip_ws_bounds(s, pos, line);
    let (p, l) = skip_ws(s, pos, line);
    if p < s.len() {
        lemma_digits_end_bounds(s, p + 1);
        let q = digits_end(s, p + 1);
        if q < s.len() {
            lemma_digits_end_bounds(s, q + 1);
        }
        lemma_alnum_end_bounds(s, p + 1);
        lemma_string_scan_bounds(s, p + 1, l);
    }
}

/// At the end of the source the scanner reads `Eof`, with empty text, and stays where it is.
pub proof fn lemma_scan_at_end(s: Seq<char>, line: int)
    ensures
        spec_scan(s, s.len() as int, line).kind == TokenKind::Eof,
        spec_scan(s, s.len() as int, line).lexeme.len() == 0,
        spec_scan(s, s.len() as int, line).pos == s.len(),
        spec_scan(s, s.len() as int, line).line == line,
        spec_scan(s, s.len() as int, line).tok_line == line,
{
}

/// The text of every token but an error token is the stretch of source that the
/// token was read from; an error token's text is one of the two error messages.
pub proof fn lemma_scan_lexeme(s: Seq<char>, pos: int, line: int)
    requires
        0 <= pos <= s.len(),
    ensures
        spec_scan(s, pos, line).kind != TokenKind::Error ==> spec_scan(s, pos, line).lexeme
            == s.subrange(spec_scan(s, pos, line).start, spec_scan(s, pos, line).pos),
        spec_scan(s, pos, line).kind == TokenKind::Error ==> (spec_scan(s, pos, line).lexeme
            == unterminated_string_msg() || spec_scan(s, pos, line).lexeme
            == unexpected_char_msg()),
{
}

/// A word is read as an identifier only when it is none of the keywords.
pub proof fn lemma_identifier_not_keyword(w: Seq<char>)
    ensures
        keyword_kind(w) == TokenKind::Identifier <==> !(w == "and"@ || w == "class"@ || w
            == "else"@ || w == "false"@ || w == "for"@ || w == "fun"@ || w == "if"@ || w
            == "nil"@ || w == "or"@ || w == "print"@ || w == "return"@ || w == "super"@ || w
            == "this"@ || w == "true"@ || w == "var"@ || w == "while"@),
{
}


/// Whether scanning from `pos` on line `line` reaches the end of the source
/// without ever reading an error token.
pub open spec fn lexes_cleanly(s: Seq<char>, pos: int, line: int) -> bool
    decreases s.len() - pos,
{
    let st = spec_scan(s, pos, line);
    if st.kind == TokenKind::Eof {
        true
    } else if st.kind == TokenKind::Error {
        false
    } else if pos < st.pos <= s.len() {
        lexes_cleanly(s, st.pos, st.line)
    } else {
        false
    }
}

/// Reading a token that is neither an error nor `Eof` leaves whether the rest
/// of the source lexes cleanly unchanged; at the end of the source it does.
pub proof fn lemma_lexes_cleanly_step(s: Seq<char>, pos: int, line: int)
    requires
        0 <= pos <= s.len(),
    ensures
        spec_scan(s, pos, line).kind != TokenKind::Error && spec_scan(s, pos, line).kind
            != TokenKind::Eof ==> (lexes_cleanly(s, pos, line) == lexes_cleanly(
            s,
            spec_scan(s, pos, line).pos,
            spec_scan(s, pos, line).line,
        )),
        lexes_cleanly(s, s.len() as int, line),
{
    lemma_scan_progress(s, pos, line);
    lemma_scan_at_end(s, line);
}

/// The state of a scanner: the source, where the current token started, where
/// the scanner stands, and the line there.
pub struct ScannerState {
    pub chars: Seq<char>,
    pub start: int,
    pub pos: int,
    pub line: int,
}

/// A scanner that reads the tokens of a source one at a time.
pub struct Scanner {
    source_chars: Vec<char>,
    start_pos: usize,
    current_pos: usize,
    line: usize,
}

impl View for Scanner {
    type V = ScannerState;

    closed spec fn view(&self) -> ScannerState {
        ScannerState {
            chars: self.source_chars@,
            start: self.start_pos as int,
            pos: self.current_pos as int,
            line: self.line as int,
        }
    }
}

/// A scanner state that the scanner can reach: the line counts at most one
/// newline per character read.
pub open spec fn state_wf(st: ScannerState) -> bool {
    &&& st.chars.len() < usize::MAX
    &&& 0 <= st.start <= st.pos <= st.chars.len()
    &&& 1 <= st.line <= st.pos + 1
}

impl Scanner {
    pub open spec fn wf(&self) -> bool {
        state_wf(self@)
    }

    /// A scanner at the start of `source`, on line 1.
    pub fn new(source: &str) -> (s: Scanner)
        requires
            source@.len() < usize::MAX,
        ensures
            s.wf(),
            s@.chars == source@,
            s@.start == 0,
            s@.pos == 0,
            s@.line == 1,
    {
        let mut source_chars: Vec<char> = Vec::new();
        for c in it: source.chars()
            invariant
                it.seq() == source@,
                source_chars@ == it.seq().take(it.index() as int),
        {
            source_chars.push(c);
            assert(source_chars@ =~= it.seq().take(it.index() + 1));
        }
        assert(source_chars@ =~= source@);
        Scanner { source_chars, start_pos: 0, current_pos: 0, line: 1 }
    }

    /// Reads the next token. At the end of the source it reads `Eof`, and keeps
    /// reading `Eof` however often it is called.
    pub fn scan_token(&mut self) -> (t: Token)
        requires
            old(self).wf(),
        ensures
            final(self).wf(),
            final(self)@.chars == old(self)@.chars,
            ({
                let st = spec_scan(old(self)@.chars, old(self)@.pos, old(self)@.line);
                &&& t.kind == st.kind
                &&& t.lexeme@ == st.lexeme
                &&& t.line == st.tok_line
                &&& final(self)@.start == st.start
                &&& final(self)@.pos == st.pos
                &&& final(self)@.line == st.line
            }),
    {
        proof {
            lemma_skip_ws_bounds(self@.chars, self@.pos, self@.line);
        }
        self.skip_whitespace();
        self.start_pos = self.current_pos;

        if self.is_at_end() {
            return self.make_token(TokenKind::Eof);
        }
        let c = self.advance();

        if is_digit(c) {
            return self.number();
        }
        if is_alpha(c) {
            return self.identifier();
        }
        if c == '(' {
            self.make_token(TokenKind::LeftParen)
        } else if c == ')' {
            self.make_token(TokenKind::RightParen)
        } else if c == '{' {
            self.make_token(TokenKind::LeftBrace)
        } else if c == '}' {
            self.make_token(TokenKind::RightBrace)
        } else if c == ',' {
            self.make_token(TokenKind::Comma)
        } else if c == '.' {
            self.make_token(TokenKind::Dot)
        } else if c == '-' {
            self.make_token(TokenKind::Minus)
        } else if c == '+' {
            self.make_token(TokenKind::Plus)
        } else if c == '/' {
            self.make_token(TokenKind::Slash)
        } else if c == ';' {
            self.make_token(TokenKind::Semicolon)
        } else if c == '*' {
            self.make_token(TokenKind::Star)
        } else if c == '!' {
            if self.match_char('=') {
                self.make_token(TokenKind::BangEqual)
            } else {
                self.make_token(TokenKind::Bang)
            }
        } else if c == '=' {
            if self.match_char('=') {
                self.make_token(TokenKind::EqualEqual)
            } else {
                self.make_token(TokenKind::Equal)
            }
        } else if c == '<' {
            if self.match_char('=') {
                self.make_token(TokenKind::LessEqual)
            } else {
                self.make_token(TokenKind::Less)
            }
        } else if c == '>' {
            if self.match_char('=') {
                self.make_token(TokenKind::GreaterEqual)
            } else {
                self.make_token(TokenKind::Greater)
            }
        } else if c == '"' {
            self.string()
        } else {
            self.error_token("Unexpected character.")
        }
    }

    fn is_at_end(&self) -> (b: bool)
        requires
            self.wf(),
        ensures
            b == (self@.pos >= self@.chars.len()),
    {
        self.current_pos >= self.source_chars.len()
    }

    /// The token of `kind` whose text is the source from the start of the token to here.
    fn make_token(&self, kind: TokenKind) -> (t: Token)
        requires
            self.wf(),
        ensures
            t.kind == kind,
            t.lexeme@ == self@.chars.subrange(self@.start, self@.pos),
            t.line == self@.line,
    {
        let mut lexeme = String::new();
        let mut i = self.start_pos;
        while i < self.current_pos
            invariant
                self.wf(),
                self.start_pos <= i <= self.current_pos,
                lexeme@ == self@.chars.subrange(self@.start, i as int),
            decreases self.current_pos - i,
        {
            push_char(&mut lexeme, self.source_chars[i]);
            assert(lexeme@ =~= self@.chars.subrange(self@.start, i + 1));
            i = i + 1;
        }
        Token { kind, lexeme, line: self.line }
    }

    fn error_token(&self, message: &str) -> (t: Token)
        ensures
            t.kind == TokenKind::Error,
            t.lexeme@ == message@,
            t.line == self@.line,
    {
        Token { kind: TokenKind::Error, lexeme: message.to_owned(), line: self.line }
    }

    fn advance(&mut self) -> (c: char)
        requires
            old(self)@.chars.len() < usize::MAX,
            old(self)@.pos < old(self)@.chars.len(),
        ensures
            final(self)@ == (ScannerState { pos: old(self)@.pos + 1, ..old(self)@ }),
            c == old(self)@.chars[old(self)@.pos],
    {
        let c = self.source_chars[self.current_pos];
        self.current_pos = self.current_pos + 1;
        c
    }

    fn match_char(&mut self, expected: char) -> (b: bool)
        requires
            old(self).wf(),
        ensures
            b == (char_at(old(self)@.chars, old(self)@.pos) == expected && old(self)@.pos
                < old(self)@.chars.len()),
            b ==> final(self)@ == (ScannerState { pos: old(self)@.pos + 1, ..old(self)@ }),
            !b ==> final(self)@ == old(self)@,
    {
        if self.is_at_end() {
            return false;
        }
        if self.source_chars[self.current_pos] != expected {
            return false;
        }
        self.current_pos = self.current_pos + 1;
        true
    }

    fn skip_whitespace(&mut self)
        requires
            old(self).wf(),
        ensures
            final(self)@.chars == old(self)@.chars,
            final(self)@.start == old(self)@.start,
            (final(self)@.pos, final(self)@.line) == skip_ws(
                old(self)@.chars,
                old(self)@.pos,
                old(self)@.line,
            ),
    {
        let ghost s = self@.chars;
        loop
            invariant_except_break
                self.wf(),
                self@.chars == s,
                self@.start == old(self)@.start,
                old(self)@.pos <= self@.pos,
                skip_ws(s, self@.pos, self@.line) == skip_ws(
                    s,
                    old(self)@.pos,
                    old(self)@.line,
                ),
            ensures
                self@.chars == s,
                self@.start == old(self)@.start,
                (self@.pos, self@.line) == skip_ws(s, old(self)@.pos, old(self)@.line),
            decreases s.len() - self@.pos,
        {
            if self.is_at_end() {
                break;
            }
            let c = self.peek();
            if c == ' ' || c == '\r' || c == '\t' {
                self.advance();
            } else if c == '\n' {
                self.line = self.line + 1;
                self.advance();
            } else if c == '/' {
                if self.peek_next() == '/' {
                    // A comment goes until the end of the line.
                    let ghost from = self@.pos + 2;
                    let ghost l = self@.line;
                    proof {
                        lemma_line_end_bounds(s, from);
                    }
                    while self.peek() != '\n' && !self.is_at_end()
                        invariant
                            self.wf(),
                            self@.chars == s,
                            self@.start == old(self)@.start,
                            self@.line == l,
                            old(self)@.pos <= from - 2 <= self@.pos <= line_end(s, from),
                            from <= s.len(),
                            s[from - 2] == '/',
                            s[from - 1] == '/',
                            skip_ws(s, line_end(s, from), l) == skip_ws(
                                s,
                                old(self)@.pos,
                                old(self)@.line,
                            ),
                            line_end(s, from) < s.len() ==> s[line_end(s, from)] == '\n',
                            forall|k: int| from <= k < line_end(s, from) ==> s[k] != '\n',
                        decreases s.len() - self@.pos,
                    {
                        self.advance();
                    }
                    assert(self@.pos == line_end(s, from));
                } else {
                    assert(skip_ws(s, self@.pos, self@.line) == (self@.pos, self@.line));
                    break;
                }
            } else {
                assert(skip_ws(s, self@.pos, self@.line) == (self@.pos, self@.line));
                break;
            }
        }
    }

    fn peek(&self) -> (c: char)
        requires
            self.wf(),
        ensures
            c == char_at(self@.chars, self@.pos),
    {
        if self.current_pos >= self.source_chars.len() {
            return '\0';
        }
        self.source_chars[self.current_pos]
    }

    fn peek_next(&self) -> (c: char)
        requires
            self.wf(),
        ensures
            c == char_at(self@.chars, self@.pos + 1),
    {
        if self.current_pos + 1 >= self.source_chars.len() {
            return '\0';
        }
        self.source_chars[self.current_pos + 1]
    }

    fn string(&mut self) -> (t: Token)
        requires
            old(self).wf(),
            old(self)@.start < old(self)@.pos,
        ensures
            final(self).wf(),
            ({
                let (j, l2) = string_scan(old(self)@.chars, old(self)@.pos, old(self)@.line);
                let s = old(self)@.chars;
                &&& final(self)@.chars == s
                &&& final(self)@.start == old(self)@.start
                &&& final(self)@.line == l2
                &&& t.line == l2
                &&& if j >= s.len() {
                    &&& t.kind == TokenKind::Error
                    &&& t.lexeme@ == unterminated_string_msg()
                    &&& final(self)@.pos == j
                } else {
                    &&& t.kind == TokenKind::String
                    &&& t.lexeme@ == s.subrange(old(self)@.start, j + 1)
                    &&& final(self)@.pos == j + 1
                }
            }),
    {
        let ghost s = self@.chars;
        let ghost l0 = self@.line;
        let ghost p0 = self@.pos;
        proof {
            lemma_string_scan_bounds(s, p0, l0);
        }
        while self.peek() != '"' && !self.is_at_end()
            invariant
                self@.chars == s,
                self@.start == old(self)@.start,
                self.wf(),
                p0 <= self@.pos <= s.len(),
                self@.line - l0 <= self@.pos - p0,
                l0 <= old(self)@.pos + 1,
                string_scan(s, self@.pos, self@.line) == string_scan(s, p0, l0),
            decreases s.len() - self@.pos,
        {
            if self.peek() == '\n' {
                self.line = self.line + 1;
            }
            self.advance();
        }

        if self.is_at_end() {
            return self.error_token("Unterminated string.");
        }
        // The closing ".
        self.advance();
        self.make_token(TokenKind::String)
    }

    fn number(&mut self) -> (t: Token)
        requires
            old(self).wf(),
            old(self)@.start < old(self)@.pos,
        ensures
            final(self).wf(),
            ({
                let s = old(self)@.chars;
                let q = digits_end(s, old(self)@.pos);
                let r = if char_at(s, q) == '.' && spec_is_digit(char_at(s, q + 1)) {
                    digits_end(s, q + 1)
                } else {
                    q
                };
                &&& final(self)@ == (ScannerState { pos: r, ..old(self)@ })
                &&& t.kind == TokenKind::Number
                &&& t.lexeme@ == s.subrange(old(self)@.start, r)
                &&& t.line == old(self)@.line
            }),
    {
        let ghost s = self@.chars;
        let ghost p0 = self@.pos;
        proof {
            lemma_digits_end_bounds(s, p0);
        }
        while is_digit(self.peek())
            invariant
                self@ == (ScannerState { pos: self@.pos, ..old(self)@ }),
                p0 <= self@.pos <= digits_end(s, p0),
                self.wf(),
                s == self@.chars,
                digits_end(s, self@.pos) == digits_end(s, p0),
            decreases s.len() - self@.pos,
        {
            proof {
                lemma_digits_end_bounds(s, self@.pos + 1);
            }
            self.advance();
        }
        // Look for a fractional part.
        if self.peek() == '.' && is_digit(self.peek_next()) {
            // Consume the ".".
            self.advance();
            let ghost q1 = self@.pos;
            proof {
                lemma_digits_end_bounds(s, q1);
            }
            while is_digit(self.peek())
                invariant
                    self@ == (ScannerState { pos: self@.pos, ..old(self)@ }),
                    q1 <= self@.pos <= digits_end(s, q1),
                    self.wf(),
                    s == self@.chars,
                    digits_end(s, self@.pos) == digits_end(s, q1),
                decreases s.len() - self@.pos,
            {
                proof {
                    lemma_digits_end_bounds(s, self@.pos + 1);
                }
                self.advance();
            }
        }
        self.make_token(TokenKind::Number)
    }

    fn identifier(&mut self) -> (t: Token)
        requires
            old(self).wf(),
            old(self)@.start < old(self)@.pos,
        ensures
            final(self).wf(),
            ({
                let s = old(self)@.chars;
                let q = alnum_end(s, old(self)@.pos);
                &&& final(self)@ == (ScannerState { pos: q, ..old(self)@ })
                &&& t.kind == keyword_kind(s.subrange(old(self)@.start, q))
                &&& t.lexeme@ == s.subrange(old(self)@.start, q)
                &&& t.line == old(self)@.line
            }),
    {
        let ghost s = self@.chars;
        let ghost p0 = self@.pos;
        proof {
            lemma_alnum_end_bounds(s, p0);
        }
        while is_alpha_numeric(self.peek())
            invariant
                self@ == (ScannerState { pos: self@.pos, ..old(self)@ }),
                p0 <= self@.pos <= alnum_end(s, p0),
                self.wf(),
                s == self@.chars,
                alnum_end(s, self@.pos) == alnum_end(s, p0),
            decreases s.len() - self@.pos,
        {
            proof {
                lemma_alnum_end_bounds(s, self@.pos + 1);
            }
            self.advance();
        }
        let kind = self.identifier_type();
        self.make_token(kind)
    }

    /// Whether the text of the current token is `word`.
    fn lexeme_is(&self, word: &str) -> (b: bool)
        requires
            self.wf(),
        ensures
            b == (self@.chars.subrange(self@.start, self@.pos) == word@),
    {
        let n = word.unicode_len();
        if self.current_pos - self.start_pos != n {
            return false;
        }
        let mut i: usize = 0;
        while i < n
            invariant
                self.wf(),
                n == word@.len(),
                self@.pos - self@.start == n,
                0 <= i <= n,
                forall|k: int| 0 <= k < i ==> self@.chars[self@.start + k] == word@[k],
            decreases n - i,
        {
            if self.source_chars[self.start_pos + i] != word.get_char(i) {
                assert(self@.chars.subrange(self@.start, self@.pos)[i as int] != word@[i as int]);
                return false;
            }
            i = i + 1;
        }
        assert(self@.chars.subrange(self@.start, self@.pos) =~= word@);
        true
    }

    fn identifier_type(&self) -> (k: TokenKind)
        requires
            self.wf(),
        ensures
            k == keyword_kind(self@.chars.subrange(self@.start, self@.pos)),
    {
        if self.lexeme_is("and") {
            TokenKind::And
        } else if self.lexeme_is("class") {
            TokenKind::Class
        } else if self.lexeme_is("else") {
            TokenKind::Else
        } else if self.lexeme_is("false") {
            TokenKind::False
        } else if self.lexeme_is("for") {
            TokenKind::For
        } else if self.lexeme_is("fun") {
            TokenKind::Fun
        } else if self.lexeme_is("if") {
            TokenKind::If
        } else if self.lexeme_is("nil") {
            TokenKind::Nil
        } else if self.lexeme_is("or") {
            TokenKind::Or
        } else if self.lexeme_is("print") {
            TokenKind::Print
        } else if self.lexeme_is("return") {
            TokenKind::Return
        } else if self.lexeme_is("super") {
            TokenKind::Super
        } else if self.lexeme_is("this") {
            TokenKind::This
        } else if self.lexeme_is("true") {
            TokenKind::True
        } else if self.lexeme_is("var") {
            TokenKind::Var
        } else if self.lexeme_is("while") {
            TokenKind::While
        } else {
            TokenKind::Identifier
        }
    }
}

/// Appends a character to a string (`String::push`).
#[verifier::external_body]
pub(crate) fn push_char(s: &mut String, c: char)
    ensures
        final(s)@ == old(s)@.push(c),
{
    s.push(c);
}

pub fn is_digit(c: char) -> (b: bool)
    ensures
        b == spec_is_digit(c),
{
    c >= '0' && c <= '9'
}

pub fn is_alpha(c: char) -> (b: bool)
    ensures
        b == spec_is_alpha(c),
{
    (c >= 'a' && c <= 'z') || (c >= 'A' && c <= 'Z') || c == '_'
}

pub fn is_alpha_numeric(c: char) -> (b: bool)
    ensures
        b == spec_is_alpha_numeric(c),
{
    is_alpha(c) || is_digit(c)
}

/// How many newlines the source holds from `i` up to `j`.
pub open spec fn newlines(s: Seq<char>, i: int, j: int) -> int
    decreases j - i,
{
    if i >= j {
        0
    } else {
        newlines(s, i + 1, j) + if s[i] == '\n' {
            1int
        } else {
            0int
        }
    }
}

proof fn lemma_newlines_split(s: Seq<char>, i: int, j: int, k: int)
    requires
        i <= j <= k,
    ensures
        newlines(s, i, k) == newlines(s, i, j) + newlines(s, j, k),
    decreases j - i,
{
    if i < j {
        lemma_newlines_split(s, i + 1, j, k);
    }
}

proof fn lemma_newlines_none(s: Seq<char>, i: int, j: int)
    requires
        i <= j,
        forall|k: int| i <= k < j ==> s[k] != '\n',
    ensures
        newlines(s, i, j) == 0,
    decreases j - i,
{
    if i < j {
        lemma_newlines_none(s, i + 1, j);
    }
}

proof fn lemma_skip_ws_lines(s: Seq<char>, pos: int, line: int)
    requires
        0 <= pos <= s.len(),
    ensures
        skip_ws(s, pos, line).1 == line + newlines(s, pos, skip_ws(s, pos, line).0),
        skip_ws(s, pos, line).0 < s.len() ==> s[skip_ws(s, pos, line).0] != '\n',
    decreases s.len() - pos,
{
    lemma_skip_ws_bounds(s, pos, line);
    if pos < s.len() {
        if s[pos] == ' ' || s[pos] == '\r' || s[pos] == '\t' {
            lemma_skip_ws_lines(s, pos + 1, line);
            lemma_skip_ws_bounds(s, pos + 1, line);
            lemma_newlines_split(s, pos, pos + 1, skip_ws(s, pos + 1, line).0);
        } else if s[pos] == '\n' {
            lemma_skip_ws_lines(s, pos + 1, line + 1);
            lemma_skip_ws_bounds(s, pos + 1, line + 1);
            lemma_newlines_split(s, pos, pos + 1, skip_ws(s, pos + 1, line + 1).0);
        } else if s[pos] == '/' && char_at(s, pos + 1) == '/' {
            let le = line_end(s, pos + 2);
            lemma_line_end_bounds(s, pos + 2);
            lemma_skip_ws_lines(s, le, line);
            lemma_skip_ws_bounds(s, le, line);
            lemma_newlines_none(s, pos, le);
            lemma_newlines_split(s, pos, le, skip_ws(s, le, line).0);
        }
    }
}

proof fn lemma_string_scan_lines(s: Seq<char>, i: int, line: int)
    requires
        0 <= i <= s.len(),
    ensures
        string_scan(s, i, line).1 == line + newlines(s, i, string_scan(s, i, line).0),
    decreases s.len() - i,
{
    lemma_string_scan_bounds(s, i, line);
    if i < s.len() && s[i] != '"' {
        let l = if s[i] == '\n' {
            line + 1
        } else {
            line
        };
        lemma_string_scan_lines(s, i + 1, l);
        lemma_string_scan_bounds(s, i + 1, l);
        lemma_newlines_split(s, i, i + 1, string_scan(s, i + 1, l).0);
    }
}

/// The line a scanner is on after a token is the line it was on before, plus the
/// newlines between where it stood and where it stands after the token; the token
/// carries the line the scanner is on after it.
pub proof fn lemma_scan_counts_lines(s: Seq<char>, pos: int, line: int)
    requires
        0 <= pos <= s.len(),
    ensures
        spec_scan(s, pos, line).line == line + newlines(s, pos, spec_scan(s, pos, line).pos),
        spec_scan(s, pos, line).tok_line == spec_scan(s, pos, line).line,
{
    let (p, l) = skip_ws(s, pos, line);
    lemma_skip_ws_lines(s, pos, line);
    lemma_skip_ws_bounds(s, pos, line);
    lemma_scan_progress(s, pos, line);
    let st = spec_scan(s, pos, line);
    if p < s.len() {
        let c = s[p];
        if c == '"' {
            let (j, l2) = string_scan(s, p + 1, l);
            lemma_string_scan_lines(s, p + 1, l);
            lemma_string_scan_bounds(s, p + 1, l);
            lemma_newlines_split(s, pos, p, p + 1);
            lemma_newlines_split(s, pos, p + 1, j);
            assert(newlines(s, p + 1, p + 1) == 0);
            assert(newlines(s, p, p + 1) == 0);
            assert(l2 == line + newlines(s, pos, j));
            if j < s.len() {
                lemma_newlines_split(s, pos, j, j + 1);
                assert(newlines(s, j + 1, j + 1) == 0);
                assert(newlines(s, j, j + 1) == 0);
                assert(st.pos == j + 1);
                assert(st.line == l2);
            } else {
                assert(st.pos == j);
                assert(st.line == l2);
            }
        } else {
            if spec_is_digit(c) {
                let q = digits_end(s, p + 1);
                lemma_digits_end_bounds(s, p + 1);
                if char_at(s, q) == '.' && spec_is_digit(char_at(s, q + 1)) {
                    lemma_digits_end_bounds(s, q + 1);
                }
            } else if spec_is_alpha(c) {
                lemma_alnum_end_bounds(s, p + 1);
            }
            assert forall|k: int| p <= k < st.pos implies s[k] != '\n' by {
                if spec_is_digit(c) {
                    let q = digits_end(s, p + 1);
                    if k > p && k < q {
                        assert(spec_is_digit(s[k]));
                    }
                } else if spec_is_alpha(c) {
                    if k > p {
                        assert(spec_is_alpha_numeric(s[k]));
                    }
                }
            }
            lemma_newlines_none(s, p, st.pos);
            lemma_newlines_split(s, pos, p, st.pos);
        }
    }
}

/// The character at `k` belongs to a line comment: a `//` starts at or before it,
/// on its line.
pub open spec fn in_line_comment(s: Seq<char>, k: int) -> bool {
    exists|j: int|
        #![trigger s[j], s[j + 1]]
        0 <= j <= k && j + 1 < s.len() && s[j] == '/' && s[j + 1] == '/' && forall|m: int|
            j <= m <= k ==> s[m] != '\n'
}

/// The character at `k` is whitespace or part of a line comment.
pub open spec fn is_blank(s: Seq<char>, k: int) -> bool {
    s[k] == ' ' || s[k] == '\r' || s[k] == '\t' || s[k] == '\n' || in_line_comment(s, k)
}

proof fn lemma_skip_ws_blank(s: Seq<char>, pos: int, line: int)
    requires
        0 <= pos <= s.len(),
    ensures
        forall|k: int| pos <= k < skip_ws(s, pos, line).0 ==> is_blank(s, k),
    decreases s.len() - pos,
{
    lemma_skip_ws_bounds(s, pos, line);
    if pos < s.len() {
        if s[pos] == ' ' || s[pos] == '\r' || s[pos] == '\t' {
            lemma_skip_ws_blank(s, pos + 1, line);
        } else if s[pos] == '\n' {
            lemma_skip_ws_blank(s, pos + 1, line + 1);
        } else if s[pos] == '/' && char_at(s, pos + 1) == '/' {
            let le = line_end(s, pos + 2);
            lemma_line_end_bounds(s, pos + 2);
            lemma_skip_ws_blank(s, le, line);
            assert forall|k: int| pos <= k < le implies is_blank(s, k) by {
                assert(s[pos] == '/' && s[pos + 1] == '/');
                assert forall|m: int| pos <= m <= k implies s[m] != '\n' by {}
            }
        }
    }
}

/// Each step of the scanner reads the source in two parts: whitespace and line
/// comments, then the text of the token (for every token but an error token,
/// whose text is its message).
pub proof fn lemma_scan_reads_blanks_then_token(s: Seq<char>, pos: int, line: int)
    requires
        0 <= pos <= s.len(),
    ensures
        forall|k: int| pos <= k < spec_scan(s, pos, line).start ==> is_blank(s, k),
        spec_scan(s, pos, line).kind != TokenKind::Error ==> s.subrange(pos, spec_scan(s, pos, line).pos)
            == s.subrange(pos, spec_scan(s, pos, line).start) + spec_scan(s, pos, line).lexeme,
{
    lemma_skip_ws_blank(s, pos, line);
    lemma_scan_progress(s, pos, line);
    lemma_scan_lexeme(s, pos, line);
    let st = spec_scan(s, pos, line);
    if st.kind != TokenKind::Error {
        assert(s.subrange(pos, st.pos) =~= s.subrange(pos, st.start) + s.subrange(st.start, st.pos));
    }
}

/// The line the scanner is on when it reads `Eof`, scanning from `pos` on line `line`.
pub open spec fn line_at_end(s: Seq<char>, pos: int, line: int) -> int
    decreases s.len() - pos,
{
    if !(0 <= pos <= s.len()) {
        line
    } else {
        let st = spec_scan(s, pos, line);
        if st.kind == TokenKind::Eof || st.pos <= pos || st.pos > s.len() {
            st.line
        } else {
            line_at_end(s, st.pos, st.line)
        }
    }
}

/// Scanning a whole source, the scanner ends on the line it started on plus the
/// number of newlines in the source: from the start, on line `1 + newlines`.
pub proof fn lemma_lines_of_whole_source(s: Seq<char>, pos: int, line: int)
    requires
        0 <= pos <= s.len(),
    ensures
        line_at_end(s, pos, line) == line + newlines(s, pos, s.len() as int),
    decreases s.len() - pos,
{
    lemma_scan_counts_lines(s, pos, line);
    lemma_scan_progress(s, pos, line);
    let st = spec_scan(s, pos, line);
    if st.kind != TokenKind::Eof {
        lemma_lines_of_whole_source(s, st.pos, st.line);
        lemma_newlines_split(s, pos, st.pos, s.len() as int);
    }
}

/// The source from `pos` on as the scanner reads it: before each token the
/// whitespace and comments it skips, then the token's text (for an error token,
/// the characters it covers).
pub open spec fn read_back(s: Seq<char>, pos: int, line: int) -> Seq<char>
    decreases s.len() - pos,
{
    if !(0 <= pos <= s.len()) {
        Seq::empty()
    } else {
        let st = spec_scan(s, pos, line);
        let text = if st.kind == TokenKind::Error {
            s.subrange(st.start, st.pos)
        } else {
            st.lexeme
        };
        if st.kind == TokenKind::Eof || st.pos <= pos || st.pos > s.len() {
            s.subrange(pos, st.start) + text
        } else {
            s.subrange(pos, st.start) + text + read_back(s, st.pos, st.line)
        }
    }
}

/// The tokens of a whole source, with the whitespace and comments between them,
/// give back the source: read from the start, it is the whole source.
pub proof fn lemma_source_read_back(s: Seq<char>, pos: int, line: int)
    requires
        0 <= pos <= s.len(),
    ensures
        read_back(s, pos, line) == s.subrange(pos, s.len() as int),
    decreases s.len() - pos,
{
    lemma_scan_progress(s, pos, line);
    lemma_scan_lexeme(s, pos, line);
    let st = spec_scan(s, pos, line);
    if st.kind == TokenKind::Eof {
        lemma_skip_ws_bounds(s, pos, line);
        assert(s.subrange(pos, st.start) + st.lexeme =~= s.subrange(pos, s.len() as int));
    } else {
        lemma_source_read_back(s, st.pos, st.line);
        let text = if st.kind == TokenKind::Error {
            s.subrange(st.start, st.pos)
        } else {
            st.lexeme
        };
        assert(text == s.subrange(st.start, st.pos));
        assert(s.subrange(pos, st.start) + text + s.subrange(st.pos, s.len() as int) =~= s.subrange(
            pos,
            s.len() as int,
        ));
    }
}

} // verus!

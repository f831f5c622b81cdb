//! A lexical scanner: it turns a byte buffer of source text into an ordered
//! sequence of classified tokens (numbers, booleans, operators, punctuation,
//! whitespace), each carrying its 1-based line and column, or fails at the
//! first byte that no recognizer can consume.

use vstd::prelude::*;
use vstd::seq_lib::*;

verus! {

/// A classified, positioned unit of lexical input.
#[derive(Debug, Clone, Copy, PartialEq, Eq, Structural)]
pub struct Token {
    pub value: TokenValue,
    pub line: usize,
    pub column: usize,
}

/// The failure report of a scan: what went wrong and where.
#[derive(Debug, Clone, Copy, PartialEq, Eq, Structural)]
pub struct LexerError {
    pub value: LexerErrorValue,
    pub line: usize,
    pub column: usize,
}

#[derive(Debug, Clone, Copy, PartialEq, Eq, Structural)]
pub enum LexerErrorValue {
    UnrecognizedToken,
}

#[derive(Debug, Clone, Copy, PartialEq, Eq, Structural)]
pub enum TokenValue {
    Number(i32),
    Boolean(bool),
    Character(u8),
    Cross,
    Dash,
    Star,
    Slash,
    Whitespace,
    OpenRoundBracket,
    CloseRoundBracket,
    OpenCurlyBracket,
    CloseCurlyBracket,
    Equal,
    ExclEqual,
    DoubleEqual,
    DoubleAnd,
    DoublePipe,
    Excl,
}

/// The byte `'0'`.
pub const DIGIT_ZERO: u8 = 48;

/// The byte `'9'`.
pub const DIGIT_NINE: u8 = 57;

/// The byte `' '`.
pub const SPACE: u8 = 32;

/// The byte `'\t'`.
pub const TAB: u8 = 9;

/// The byte `'\r'`.
pub const CARRIAGE_RETURN: u8 = 13;

/// The byte `'\n'`.
pub const LINE_FEED: u8 = 10;

/// An ASCII decimal digit.
pub open spec fn is_digit(b: u8) -> bool {
    DIGIT_ZERO <= b && b <= DIGIT_NINE
}

/// A whitespace byte: space, horizontal tab, carriage return or line feed.
pub open spec fn is_whitespace(b: u8) -> bool {
    b == SPACE || b == TAB || b == CARRIAGE_RETURN || b == LINE_FEED
}

/// The 1-based line of byte offset `off` in `s`: one more than the number of
/// line feeds strictly before `off`.
pub open spec fn line_at(s: Seq<u8>, off: int) -> int
    decreases off,
{
    if off <= 0 {
        1
    } else if s[off - 1] == LINE_FEED {
        line_at(s, off - 1) + 1
    } else {
        line_at(s, off - 1)
    }
}

/// The 1-based column of byte offset `off` in `s`: the distance back to the
/// most recent line feed before `off`, or `off + 1` when none precedes it.
pub open spec fn column_at(s: Seq<u8>, off: int) -> int
    decreases off,
{
    if off <= 0 {
        1
    } else if s[off - 1] == LINE_FEED {
        1
    } else {
        column_at(s, off - 1) + 1
    }
}

/// The byte `'='`.
pub const EQUALS_SIGN: u8 = 61;

/// The byte `'+'`.
pub const PLUS_SIGN: u8 = 43;

/// The byte `'-'`.
pub const MINUS_SIGN: u8 = 45;

/// The byte `'*'`.
pub const ASTERISK: u8 = 42;

/// The byte `'/'`.
pub const FORWARD_SLASH: u8 = 47;

/// The byte `'('`.
pub const OPEN_ROUND: u8 = 40;

/// The byte `')'`.
pub const CLOSE_ROUND: u8 = 41;

/// The byte `'{'`.
pub const OPEN_CURLY: u8 = 123;

/// The byte `'}'`.
pub const CLOSE_CURLY: u8 = 125;

/// The byte `'!'`.
pub const EXCLAMATION: u8 = 33;

/// The byte `'&'`.
pub const AMPERSAND: u8 = 38;

/// The byte `'|'`.
pub const VERTICAL_BAR: u8 = 124;

/// The byte `'T'`.
pub const UPPER_T: u8 = 84;

/// The byte `'r'`.
pub const LOWER_R: u8 = 114;

/// The byte `'u'`.
pub const LOWER_U: u8 = 117;

/// The byte `'e'`.
pub const LOWER_E: u8 = 101;

/// The byte `'F'`.
pub const UPPER_F: u8 = 70;

/// The byte `'a'`.
pub const LOWER_A: u8 = 97;

/// The byte `'l'`.
pub const LOWER_L: u8 = 108;

/// The byte `'s'`.
pub const LOWER_S: u8 = 115;

/// The end of the maximal run of digits starting at `i`: the first offset at
/// or after `i` that is past the buffer or holds a non-digit.
pub open spec fn digit_run_end(s: Seq<u8>, i: int) -> int
    decreases s.len() - i
        when 0 <= i <= s.len()
{
    if i < s.len() && is_digit(s[i]) {
        digit_run_end(s, i + 1)
    } else {
        i
    }
}

/// The end of the maximal run of whitespace starting at `i`.
pub open spec fn whitespace_run_end(s: Seq<u8>, i: int) -> int
    decreases s.len() - i
        when 0 <= i <= s.len()
{
    if i < s.len() && is_whitespace(s[i]) {
        whitespace_run_end(s, i + 1)
    } else {
        i
    }
}

/// The non-negative base-10 value of a sequence of digit bytes, accumulated
/// left to right.
pub open spec fn digits_value(s: Seq<u8>) -> int
    decreases s.len(),
{
    if s.len() == 0 {
        0
    } else {
        digits_value(s.drop_last()) * 10 + (s.last() - DIGIT_ZERO)
    }
}

/// Saturation of a numeric literal's value at the widest representable
/// number: values past `i32::MAX` are clamped to it.
pub open spec fn clamp_i32(v: int) -> int {
    if v > i32::MAX {
        i32::MAX as int
    } else {
        v
    }
}

/// The number recognizer: at a digit, the maximal digit run becomes one
/// `Number` token whose value saturates at `i32::MAX`.
pub open spec fn number_token_at(s: Seq<u8>, i: int) -> Option<(TokenValue, int)> {
    if 0 <= i && i < s.len() && is_digit(s[i]) {
        Some(
            (
                TokenValue::Number(
                    clamp_i32(digits_value(s.subrange(i, digit_run_end(s, i)))) as i32,
                ),
                digit_run_end(s, i) - i,
            ),
        )
    } else {
        None
    }
}

/// The whitespace recognizer: at a whitespace byte, the maximal whitespace
/// run becomes one `Whitespace` token.
pub open spec fn whitespace_token_at(s: Seq<u8>, i: int) -> Option<(TokenValue, int)> {
    if 0 <= i && i < s.len() && is_whitespace(s[i]) {
        Some((TokenValue::Whitespace, whitespace_run_end(s, i) - i))
    } else {
        None
    }
}

/// The two-character operator recognizer: an exact 2-byte match of `==`,
/// `!=`, `&&` or `||` at `i`.
pub open spec fn double_token_at(s: Seq<u8>, i: int) -> Option<(TokenValue, int)> {
    if 0 <= i && i + 2 <= s.len() {
        if s[i] == EQUALS_SIGN && s[i + 1] == EQUALS_SIGN {
            Some((TokenValue::DoubleEqual, 2))
        } else if s[i] == EXCLAMATION && s[i + 1] == EQUALS_SIGN {
            Some((TokenValue::ExclEqual, 2))
        } else if s[i] == AMPERSAND && s[i + 1] == AMPERSAND {
            Some((TokenValue::DoubleAnd, 2))
        } else if s[i] == VERTICAL_BAR && s[i + 1] == VERTICAL_BAR {
            Some((TokenValue::DoublePipe, 2))
        } else {
            None
        }
    } else {
        None
    }
}

/// The token of a single-character lexeme, if the byte is one. `!` is
/// deliberately its own `Excl` kind, in keeping with the `ExclEqual` family;
/// it is not folded into any bracket kind.
pub open spec fn single_token_value(b: u8) -> Option<TokenValue> {
    if b == EQUALS_SIGN {
        Some(TokenValue::Equal)
    } else if b == PLUS_SIGN {
        Some(TokenValue::Cross)
    } else if b == MINUS_SIGN {
        Some(TokenValue::Dash)
    } else if b == ASTERISK {
        Some(TokenValue::Star)
    } else if b == FORWARD_SLASH {
        Some(TokenValue::Slash)
    } else if b == OPEN_ROUND {
        Some(TokenValue::OpenRoundBracket)
    } else if b == CLOSE_ROUND {
        Some(TokenValue::CloseRoundBracket)
    } else if b == OPEN_CURLY {
        Some(TokenValue::OpenCurlyBracket)
    } else if b == CLOSE_CURLY {
        Some(TokenValue::CloseCurlyBracket)
    } else if b == EXCLAMATION {
        Some(TokenValue::Excl)
    } else {
        None
    }
}

/// The single-character recognizer: an exact 1-byte match at `i`.
pub open spec fn single_token_at(s: Seq<u8>, i: int) -> Option<(TokenValue, int)> {
    if 0 <= i && i < s.len() {
        match single_token_value(s[i]) {
            Some(v) => Some((v, 1)),
            None => None,
        }
    } else {
        None
    }
}

/// The boolean-literal recognizer: the exact keyword `True` or `False` as a
/// literal byte sequence at `i` (not word-boundary aware).
pub open spec fn boolean_token_at(s: Seq<u8>, i: int) -> Option<(TokenValue, int)> {
    if 0 <= i && i + 4 <= s.len() && s[i] == UPPER_T && s[i + 1] == LOWER_R && s[i + 2] == LOWER_U
        && s[i + 3] == LOWER_E {
        Some((TokenValue::Boolean(true), 4))
    } else if 0 <= i && i + 5 <= s.len() && s[i] == UPPER_F && s[i + 1] == LOWER_A && s[i + 2]
        == LOWER_L && s[i + 3] == LOWER_S && s[i + 4] == LOWER_E {
        Some((TokenValue::Boolean(false), 5))
    } else {
        None
    }
}

/// One scanning step at offset `i`: the recognizers are tried in their fixed
/// priority order — number, whitespace, two-character operators,
/// single-character lexemes, boolean keywords — and the first match gives the
/// token's value and consumed length. `None` means no recognizer matches.
pub open spec fn token_at(s: Seq<u8>, i: int) -> Option<(TokenValue, int)> {
    if number_token_at(s, i) is Some {
        number_token_at(s, i)
    } else if whitespace_token_at(s, i) is Some {
        whitespace_token_at(s, i)
    } else if double_token_at(s, i) is Some {
        double_token_at(s, i)
    } else if single_token_at(s, i) is Some {
        single_token_at(s, i)
    } else {
        boolean_token_at(s, i)
    }
}

/// The token emitted for value `v` at offset `i`: positioned at the line and
/// column of `i`.
pub open spec fn token_of(s: Seq<u8>, i: int, v: TokenValue) -> Token {
    Token { value: v, line: line_at(s, i) as usize, column: column_at(s, i) as usize }
}

/// The failure reported when no recognizer matches at offset `i`.
pub open spec fn error_at(s: Seq<u8>, i: int) -> LexerError {
    LexerError {
        value: LexerErrorValue::UnrecognizedToken,
        line: line_at(s, i) as usize,
        column: column_at(s, i) as usize,
    }
}

/// The maximal digit run starting at `i`: its end lies between `i` and the
/// buffer's end, everything before it is a digit, it stops only at the
/// buffer's end or at a non-digit, and it is non-empty exactly at a digit.
pub proof fn lemma_digit_run_end(s: Seq<u8>, i: int)
    requires
        0 <= i <= s.len(),
    ensures
        i <= digit_run_end(s, i) <= s.len(),
        forall|j: int| i <= j < digit_run_end(s, i) ==> is_digit(s[j]),
        digit_run_end(s, i) == s.len() || !is_digit(s[digit_run_end(s, i)]),
        i < s.len() && is_digit(s[i]) ==> i < digit_run_end(s, i),
    decreases s.len() - i,
{
    if i < s.len() && is_digit(s[i]) {
        lemma_digit_run_end(s, i + 1);
    }
}

/// The maximal whitespace run starting at `i`, characterized as for digits.
pub proof fn lemma_whitespace_run_end(s: Seq<u8>, i: int)
    requires
        0 <= i <= s.len(),
    ensures
        i <= whitespace_run_end(s, i) <= s.len(),
        forall|j: int| i <= j < whitespace_run_end(s, i) ==> is_whitespace(s[j]),
        whitespace_run_end(s, i) == s.len() || !is_whitespace(s[whitespace_run_end(s, i)]),
        i < s.len() && is_whitespace(s[i]) ==> i < whitespace_run_end(s, i),
    decreases s.len() - i,
{
    if i < s.len() && is_whitespace(s[i]) {
        lemma_whitespace_run_end(s, i + 1);
    }
}

/// The full scan of `s` from offset `i`: the token sequence up to the
/// buffer's end, or the failure at the first offset where no recognizer
/// matches. One step consumes `token_at(s, i)` and recurses past it.
pub open spec fn scan_from(s: Seq<u8>, i: int) -> Result<Seq<Token>, LexerError>
    decreases s.len() - i
        when 0 <= i <= s.len()
{
    if i >= s.len() {
        Ok(Seq::empty())
    } else {
        match token_at(s, i) {
            Some(vn) => {
                proof {
                    lemma_digit_run_end(s, i);
                    lemma_whitespace_run_end(s, i);
                }
                match scan_from(s, i + vn.1) {
                    Ok(rest) => Ok(seq![token_of(s, i, vn.0)] + rest),
                    Err(e) => Err(e),
                }
            },
            None => Err(error_at(s, i)),
        }
    }
}

/// `rest`, with `prefix` put before its tokens; a failure passes through.
pub open spec fn scan_prepend(
    prefix: Seq<Token>,
    rest: Result<Seq<Token>, LexerError>,
) -> Result<Seq<Token>, LexerError> {
    match rest {
        Ok(toks) => Ok(prefix + toks),
        Err(e) => Err(e),
    }
}

/// One driver step preserves the driver's bookkeeping: if the scan from `i0`
/// is the collected `prefix` followed by the scan from `i`, and one token is
/// recognized at `i`, then the scan from `i0` is `prefix` extended by that
/// token, followed by the scan from just past it.
proof fn lemma_step_extends_prefix(s: Seq<u8>, i0: int, i: int, prefix: Seq<Token>, tok: Token)
    requires
        0 <= i0 <= s.len(),
        0 <= i <= s.len(),
        match token_at(s, i) {
            Some(vn) => tok == token_of(s, i, vn.0),
            None => false,
        },
        scan_from(s, i0) == scan_prepend(prefix, scan_from(s, i)),
    ensures
        match token_at(s, i) {
            Some(vn) => 1 <= vn.1 && i + vn.1 <= s.len() && scan_from(s, i0) == scan_prepend(
                prefix.push(tok),
                scan_from(s, i + vn.1),
            ),
            None => false,
        },
{
    lemma_digit_run_end(s, i);
    lemma_whitespace_run_end(s, i);
    if let Some(vn) = token_at(s, i) {
        match scan_from(s, i + vn.1) {
            Ok(rest) => {
                assert(prefix + (seq![token_of(s, i, vn.0)] + rest) =~= prefix.push(tok) + rest);
            },
            Err(e) => {},
        }
    }
}

/// The scanner: a borrowed input buffer and a forward-only cursor with its
/// cached 1-based line and column.
pub struct Lexer<'a> {
    cstream: &'a [u8],
    line: usize,
    column: usize,
    it: usize,
}

impl<'a> Lexer<'a> {
    /// The input buffer, as a sequence of bytes.
    pub closed spec fn stream(self) -> Seq<u8> {
        self.cstream@
    }

    /// The cursor: the byte offset of the first unconsumed byte.
    pub closed spec fn cursor(self) -> int {
        self.it as int
    }

    /// Well-formedness: the cursor is inside the buffer (or just past its
    /// end), and the cached line and column agree with the cursor.
    pub closed spec fn wf(self) -> bool {
        &&& self.cstream@.len() < usize::MAX
        &&& self.it <= self.cstream@.len()
        &&& self.line == line_at(self.cstream@, self.it as int)
        &&& self.column == column_at(self.cstream@, self.it as int)
    }

    /// A scanner over `cstream`, with the cursor at the start of the buffer.
    pub fn from_cstream(cstream: &'a [u8]) -> (lexer: Lexer<'a>)
        requires
            cstream@.len() < usize::MAX,
        ensures
            lexer.wf(),
            lexer.stream() == cstream@,
            lexer.cursor() == 0,
    {
        Lexer { cstream, it: 0, line: 1, column: 1 }
    }

    /// Recompute the 1-based line of the cursor by scanning the consumed
    /// prefix of the buffer.
    #[verifier::loop_isolation(false)]
    fn get_line(&self) -> (r: usize)
        requires
            self.it <= self.cstream@.len(),
            self.cstream@.len() < usize::MAX,
        ensures
            r == line_at(self.cstream@, self.it as int),
    {
        let mut line: usize = 1;
        let mut k: usize = 0;
        while k < self.it
            invariant
                k <= self.it,
                line <= k + 1,
                line == line_at(self.cstream@, k as int),
            decreases self.it - k,
        {
            if self.cstream[k] == LINE_FEED {
                line = line + 1;
            }
            k = k + 1;
        }
        line
    }

    /// Recompute the 1-based column of the cursor by scanning the consumed
    /// prefix of the buffer.
    #[verifier::loop_isolation(false)]
    fn get_column(&self) -> (r: usize)
        requires
            self.it <= self.cstream@.len(),
            self.cstream@.len() < usize::MAX,
        ensures
            r == column_at(self.cstream@, self.it as int),
    {
        let mut column: usize = 1;
        let mut k: usize = 0;
        while k < self.it
            invariant
                k <= self.it,
                column <= k + 1,
                column == column_at(self.cstream@, k as int),
            decreases self.it - k,
        {
            if self.cstream[k] == LINE_FEED {
                column = 1;
            } else {
                column = column + 1;
            }
            k = k + 1;
        }
        column
    }

    /// The (line, column) pair of the cursor, recomputed from the buffer.
    fn get_position(&self) -> (r: (usize, usize))
        requires
            self.it <= self.cstream@.len(),
            self.cstream@.len() < usize::MAX,
        ensures
            r.0 == line_at(self.cstream@, self.it as int),
            r.1 == column_at(self.cstream@, self.it as int),
    {
        (self.get_line(), self.get_column())
    }

    /// Try the number recognizer at the cursor: consume the maximal run of
    /// digits and emit one `Number` token whose value is the run's base-10
    /// value, saturated at `i32::MAX`.
    #[verifier::loop_isolation(false)]
    pub fn try_extract_number(&mut self) -> (r: Option<Token>)
        requires
            old(self).wf(),
        ensures
            final(self).wf(),
            final(self).stream() == old(self).stream(),
            match number_token_at(old(self).stream(), old(self).cursor()) {
                Some(vn) => r == Some(token_of(old(self).stream(), old(self).cursor(), vn.0))
                    && final(self).cursor() == old(self).cursor() + vn.1,
                None => r == None::<Token> && *final(self) == *old(self),
            },
    {
        let ghost s = self.cstream@;
        let ghost i0 = self.it as int;
        let len: usize = self.cstream.len();
        let mut end: usize = self.it;
        while end < len && DIGIT_ZERO <= self.cstream[end] && self.cstream[end] <= DIGIT_NINE
            invariant
                self.it <= end <= len,
                forall|j: int| i0 <= j < end ==> is_digit(s[j]),
            decreases len - end,
        {
            end = end + 1;
        }
        proof {
            lemma_digit_run_end(s, i0);
            assert(end == digit_run_end(s, i0));
        }
        if end == self.it {
            return None;
        }
        let mut val: i32 = 0;
        let mut k: usize = self.it;
        while k < end
            invariant
                self.it <= k <= end,
                0 <= val,
                val as int == clamp_i32(digits_value(s.subrange(i0, k as int))),
            decreases end - k,
        {
            proof {
                assert(s.subrange(i0, k + 1).drop_last() =~= s.subrange(i0, k as int));
                assert(s.subrange(i0, k + 1).last() == s[k as int]);
            }
            let d: i32 = (self.cstream[k] - DIGIT_ZERO) as i32;
            if val > (i32::MAX - d) / 10 {
                val = i32::MAX;
            } else {
                val = val * 10 + d;
            }
            k = k + 1;
        }
        let (line, column) = self.get_position();
        let n: usize = end - self.it;
        self.move_curs(n);
        Some(Token { value: TokenValue::Number(val), line, column })
    }

    /// Try the whitespace recognizer at the cursor: consume the maximal run
    /// of whitespace bytes and emit one `Whitespace` token.
    #[verifier::loop_isolation(false)]
    pub fn try_extract_whitespace(&mut self) -> (r: Option<Token>)
        requires
            old(self).wf(),
        ensures
            final(self).wf(),
            final(self).stream() == old(self).stream(),
            match whitespace_token_at(old(self).stream(), old(self).cursor()) {
                Some(vn) => r == Some(token_of(old(self).stream(), old(self).cursor(), vn.0))
                    && final(self).cursor() == old(self).cursor() + vn.1,
                None => r == None::<Token> && *final(self) == *old(self),
            },
    {
        let ghost s = self.cstream@;
        let ghost i0 = self.it as int;
        let len: usize = self.cstream.len();
        let mut end: usize = self.it;
        while end < len && (self.cstream[end] == SPACE || self.cstream[end] == TAB
            || self.cstream[end] == CARRIAGE_RETURN || self.cstream[end] == LINE_FEED)
            invariant
                self.it <= end <= len,
                forall|j: int| i0 <= j < end ==> is_whitespace(s[j]),
            decreases len - end,
        {
            end = end + 1;
        }
        proof {
            lemma_whitespace_run_end(s, i0);
            assert(end == whitespace_run_end(s, i0));
        }
        if end == self.it {
            return None;
        }
        let line: usize = self.line;
        let column: usize = self.column;
        let n: usize = end - self.it;
        self.move_curs(n);
        Some(Token { value: TokenValue::Whitespace, line, column })
    }

    /// Try the two-character operators at the cursor: an exact 2-byte match
    /// of `==`, `!=`, `&&` or `||`.
    pub fn try_extract_doubles(&mut self) -> (r: Option<Token>)
        requires
            old(self).wf(),
        ensures
            final(self).wf(),
            final(self).stream() == old(self).stream(),
            match double_token_at(old(self).stream(), old(self).cursor()) {
                Some(vn) => r == Some(token_of(old(self).stream(), old(self).cursor(), vn.0))
                    && final(self).cursor() == old(self).cursor() + vn.1,
                None => r == None::<Token> && *final(self) == *old(self),
            },
    {
        let len: usize = self.cstream.len();
        if len - self.it < 2 {
            return None;
        }
        let b0: u8 = self.cstream[self.it];
        let b1: u8 = self.cstream[self.it + 1];
        let value: TokenValue = if b0 == EQUALS_SIGN && b1 == EQUALS_SIGN {
            TokenValue::DoubleEqual
        } else if b0 == EXCLAMATION && b1 == EQUALS_SIGN {
            TokenValue::ExclEqual
        } else if b0 == AMPERSAND && b1 == AMPERSAND {
            TokenValue::DoubleAnd
        } else if b0 == VERTICAL_BAR && b1 == VERTICAL_BAR {
            TokenValue::DoublePipe
        } else {
            return None;
        };
        let line: usize = self.line;
        let column: usize = self.column;
        self.move_curs(2);
        Some(Token { value, line, column })
    }

    /// Try the single-character lexemes at the cursor: an exact 1-byte match
    /// of `=`, `+`, `-`, `*`, `/`, `(`, `)`, `{`, `}` or `!`. The `!` lexeme
    /// gets its own `Excl` token kind, distinct from every bracket kind.
    pub fn try_extract_singles(&mut self) -> (r: Option<Token>)
        requires
            old(self).wf(),
        ensures
            final(self).wf(),
            final(self).stream() == old(self).stream(),
            match single_token_at(old(self).stream(), old(self).cursor()) {
                Some(vn) => r == Some(token_of(old(self).stream(), old(self).cursor(), vn.0))
                    && final(self).cursor() == old(self).cursor() + vn.1,
                None => r == None::<Token> && *final(self) == *old(self),
            },
    {
        if self.it >= self.cstream.len() {
            return None;
        }
        let b: u8 = self.cstream[self.it];
        let value: TokenValue = if b == EQUALS_SIGN {
            TokenValue::Equal
        } else if b == PLUS_SIGN {
            TokenValue::Cross
        } else if b == MINUS_SIGN {
            TokenValue::Dash
        } else if b == ASTERISK {
            TokenValue::Star
        } else if b == FORWARD_SLASH {
            TokenValue::Slash
        } else if b == OPEN_ROUND {
            TokenValue::OpenRoundBracket
        } else if b == CLOSE_ROUND {
            TokenValue::CloseRoundBracket
        } else if b == OPEN_CURLY {
            TokenValue::OpenCurlyBracket
        } else if b == CLOSE_CURLY {
            TokenValue::CloseCurlyBracket
        } else if b == EXCLAMATION {
            TokenValue::Excl
        } else {
            return None;
        };
        let line: usize = self.line;
        let column: usize = self.column;
        self.move_curs(1);
        Some(Token { value, line, column })
    }

    /// Try the boolean-literal recognizer at the cursor: the exact keyword
    /// `True` or `False`, matched as a literal byte sequence.
    pub fn try_extract_boolean(&mut self) -> (r: Option<Token>)
        requires
            old(self).wf(),
        ensures
            final(self).wf(),
            final(self).stream() == old(self).stream(),
            match boolean_token_at(old(self).stream(), old(self).cursor()) {
                Some(vn) => r == Some(token_of(old(self).stream(), old(self).cursor(), vn.0))
                    && final(self).cursor() == old(self).cursor() + vn.1,
                None => r == None::<Token> && *final(self) == *old(self),
            },
    {
        let len: usize = self.cstream.len();
        if len - self.it >= 4 && self.cstream[self.it] == UPPER_T && self.cstream[self.it + 1]
            == LOWER_R && self.cstream[self.it + 2] == LOWER_U && self.cstream[self.it + 3]
            == LOWER_E {
            let line: usize = self.line;
            let column: usize = self.column;
            self.move_curs(4);
            return Some(Token { value: TokenValue::Boolean(true), line, column });
        }
        if len - self.it >= 5 && self.cstream[self.it] == UPPER_F && self.cstream[self.it + 1]
            == LOWER_A && self.cstream[self.it + 2] == LOWER_L && self.cstream[self.it + 3]
            == LOWER_S && self.cstream[self.it + 4] == LOWER_E {
            let (line, column) = self.get_position();
            self.move_curs(5);
            return Some(Token { value: TokenValue::Boolean(false), line, column });
        }
        None
    }

    /// Drive the scan to completion: repeatedly try the recognizers in their
    /// priority order, collecting one token per step, until the buffer is
    /// exhausted (success) or no recognizer matches (failure at the cursor's
    /// position). The result is exactly `scan_from` of the buffer at the
    /// starting cursor.
    #[verifier::loop_isolation(false)]
    pub fn execute(&mut self) -> (r: Result<Vec<Token>, LexerError>)
        requires
            old(self).wf(),
        ensures
            final(self).wf(),
            final(self).stream() == old(self).stream(),
            match r {
                Ok(toks) => scan_from(old(self).stream(), old(self).cursor()) == Ok::<
                    Seq<Token>,
                    LexerError,
                >(toks@) && final(self).cursor() == final(self).stream().len(),
                Err(e) => scan_from(old(self).stream(), old(self).cursor()) == Err::<
                    Seq<Token>,
                    LexerError,
                >(e),
            },
    {
        let ghost s = self.cstream@;
        let ghost i0 = self.it as int;
        let mut tok_stream: Vec<Token> = Vec::new();
        while self.it < self.cstream.len()
            invariant
                self.wf(),
                self.stream() == s,
                i0 <= self.cursor() <= s.len(),
                scan_from(s, i0) == scan_prepend(tok_stream@, scan_from(s, self.cursor())),
            decreases s.len() - self.cursor(),
        {
            let ghost i = self.cursor();
            let ghost prefix = tok_stream@;
            match self.try_extract_number() {
                Some(tok) => {
                    proof {
                        lemma_step_extends_prefix(s, i0, i, prefix, tok);
                    }
                    tok_stream.push(tok);
                    continue;
                },
                None => (),
            };
            match self.try_extract_whitespace() {
                Some(tok) => {
                    proof {
                        lemma_step_extends_prefix(s, i0, i, prefix, tok);
                    }
                    tok_stream.push(tok);
                    continue;
                },
                None => (),
            };
            match self.try_extract_doubles() {
                Some(tok) => {
                    proof {
                        lemma_step_extends_prefix(s, i0, i, prefix, tok);
                    }
                    tok_stream.push(tok);
                    continue;
                },
                None => (),
            };
            match self.try_extract_singles() {
                Some(tok) => {
                    proof {
                        lemma_step_extends_prefix(s, i0, i, prefix, tok);
                    }
                    tok_stream.push(tok);
                    continue;
                },
                None => (),
            };
            match self.try_extract_boolean() {
                Some(tok) => {
                    proof {
                        lemma_step_extends_prefix(s, i0, i, prefix, tok);
                    }
                    tok_stream.push(tok);
                    continue;
                },
                None => (),
            };
            return Err(LexerError {
                value: LexerErrorValue::UnrecognizedToken,
                line: self.line,
                column: self.column,
            });
        }
        proof {
            assert(tok_stream@ + Seq::<Token>::empty() =~= tok_stream@);
        }
        Ok(tok_stream)
    }

    /// Move the cursor forward by `offset` bytes and recompute the cached
    /// line and column from the new offset.
    fn move_curs(&mut self, offset: usize)
        requires
            old(self).it + offset <= old(self).cstream@.len(),
            old(self).cstream@.len() < usize::MAX,
        ensures
            final(self).cstream@ == old(self).cstream@,
            final(self).it == old(self).it + offset,
            final(self).wf(),
    {
        self.it = self.it + offset;
        self.column = self.get_column();
        self.line = self.get_line();
    }
}

/// The base-10 value of an all-digit sequence is non-negative.
pub proof fn lemma_digits_value_nonneg(s: Seq<u8>)
    requires
        forall|j: int| 0 <= j < s.len() ==> is_digit(s[j]),
    ensures
        digits_value(s) >= 0,
    decreases s.len(),
{
    if s.len() > 0 {
        lemma_digits_value_nonneg(s.drop_last());
    }
}

/// Law: scanning a non-empty buffer consisting solely of digits yields
/// exactly one `Number` token, whose value is the standard base-10
/// interpretation of the digits, at line 1, column 1. Stated for values that
/// the token's width can carry; past `i32::MAX` the emitted value saturates.
pub proof fn lemma_scan_all_digits(s: Seq<u8>)
    requires
        s.len() >= 1,
        forall|j: int| 0 <= j < s.len() ==> is_digit(s[j]),
        digits_value(s) <= i32::MAX,
    ensures
        scan_from(s, 0) == Ok::<Seq<Token>, LexerError>(
            seq![
                (Token { value: TokenValue::Number(digits_value(s) as i32), line: 1, column: 1 }),
            ],
        ),
{
    lemma_digit_run_end(s, 0);
    assert(digit_run_end(s, 0) == s.len());
    assert(s.subrange(0, s.len() as int) =~= s);
    lemma_digits_value_nonneg(s);
    let tok = token_of(s, 0, TokenValue::Number(digits_value(s) as i32));
    assert(token_at(s, 0) == Some((TokenValue::Number(digits_value(s) as i32), s.len() as int)));
    assert(scan_from(s, s.len() as int) == Ok::<Seq<Token>, LexerError>(Seq::empty()));
    assert(seq![tok] + Seq::<Token>::empty() =~= seq![tok]);
}

/// Law: scanning an empty buffer succeeds with an empty token sequence.
pub proof fn lemma_scan_empty(s: Seq<u8>)
    requires
        s.len() == 0,
    ensures
        scan_from(s, 0) == Ok::<Seq<Token>, LexerError>(Seq::empty()),
{
}

/// Law: scanning is a pure function of the input bytes, so re-scanning the
/// same buffer produces an identical result.
pub proof fn lemma_scan_deterministic(s1: Seq<u8>, s2: Seq<u8>)
    requires
        s1 == s2,
    ensures
        scan_from(s1, 0) == scan_from(s2, 0),
{
}

/// The incremental line tracker agrees with recomputation from scratch: the
/// line of `off` is one more than the number of line feed bytes in the
/// buffer before `off`.
pub proof fn lemma_line_counts_line_feeds(s: Seq<u8>, off: int)
    requires
        0 <= off <= s.len(),
    ensures
        line_at(s, off) == 1 + s.subrange(0, off).filter(|b: u8| b == LINE_FEED).len(),
    decreases off,
{
    reveal(Seq::filter);
    if off > 0 {
        lemma_line_counts_line_feeds(s, off - 1);
        let p = s.subrange(0, off);
        assert(p.drop_last() =~= s.subrange(0, off - 1));
        assert(p.last() == s[off - 1]);
    }
}

/// The incremental column tracker agrees with recomputation from scratch:
/// when a line feed stands at `k` and none stands between `k` and `off`, the
/// column of `off` is its distance back to that line feed.
pub proof fn lemma_column_from_last_line_feed(s: Seq<u8>, off: int, k: int)
    requires
        0 <= k < off <= s.len(),
        s[k] == LINE_FEED,
        forall|j: int| k < j < off ==> s[j] != LINE_FEED,
    ensures
        column_at(s, off) == off - k,
    decreases off,
{
    if off - 1 > k {
        lemma_column_from_last_line_feed(s, off - 1, k);
    }
}

/// The incremental column tracker agrees with recomputation from scratch:
/// when no line feed precedes `off`, the column of `off` is `off + 1`.
pub proof fn lemma_column_no_line_feed(s: Seq<u8>, off: int)
    requires
        0 <= off <= s.len(),
        forall|j: int| 0 <= j < off ==> s[j] != LINE_FEED,
    ensures
        column_at(s, off) == off + 1,
    decreases off,
{
    if off > 0 {
        lemma_column_no_line_feed(s, off - 1);
    }
}

} // verus!
